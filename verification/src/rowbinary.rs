use vstd::prelude::*;

use crate::buflist::BufList;

verus! {

// ---------------------------------------------------------------------------
// Records and their wire schema
// ---------------------------------------------------------------------------

/// The wire encoding rule of one field. Which rule applies is declared by
/// the schema, never inferred from the bytes: a fixed-width string carries
/// no length prefix, a variable-length string carries a 7-bit variable
/// length prefix, numerics are fixed-width little-endian.
#[derive(Debug)]
pub enum FieldKind {
    UInt8,
    UInt16,
    UInt32,
    UInt64,
    /// Variable-length byte string: length prefix, then that many bytes.
    VarStr,
    /// Fixed-width byte string of the declared width, no prefix.
    FixedStr(usize),
}

impl Clone for FieldKind {
    fn clone(&self) -> (r: Self)
        ensures
            r == *self,
    {
        match self {
            FieldKind::UInt8 => FieldKind::UInt8,
            FieldKind::UInt16 => FieldKind::UInt16,
            FieldKind::UInt32 => FieldKind::UInt32,
            FieldKind::UInt64 => FieldKind::UInt64,
            FieldKind::VarStr => FieldKind::VarStr,
            FieldKind::FixedStr(w) => FieldKind::FixedStr(*w),
        }
    }
}

impl Copy for FieldKind {

}

/// One column of a record type: its name (used for `?fields` expansion)
/// and its wire encoding rule.
pub struct FieldDef {
    pub name: Vec<u8>,
    pub kind: FieldKind,
}

/// The declared, ordered field list of a record type. It is consulted both
/// for `?fields` expansion and for decode field order, so no runtime
/// reflection is needed.
pub struct Schema {
    pub fields: Vec<FieldDef>,
}

/// A field kind that consumes at least one byte per value.
pub open spec fn kind_wf(k: FieldKind) -> bool {
    match k {
        FieldKind::FixedStr(w) => w >= 1,
        _ => true,
    }
}

impl Schema {
    /// The ordered encoding rules of the fields.
    pub open spec fn kinds(&self) -> Seq<FieldKind> {
        self.fields@.map_values(|f: FieldDef| f.kind)
    }

    /// A usable schema: at least one field, and every row consumes at least
    /// one byte, so a stream of rows makes progress.
    pub open spec fn wf(&self) -> bool {
        &&& self.fields@.len() > 0
        &&& forall|i: int| 0 <= i < self.kinds().len() ==> kind_wf(#[trigger] self.kinds()[i])
    }
}

/// One decoded field value, owned by the record.
#[derive(Debug, PartialEq, Eq)]
pub enum Value {
    UInt(u64),
    Bytes(Vec<u8>),
}

/// The mathematical shape of a decoded field value.
pub enum SpecValue {
    UInt(nat),
    Bytes(Seq<u8>),
}

impl View for Value {
    type V = SpecValue;

    open spec fn view(&self) -> SpecValue {
        match self {
            Value::UInt(x) => SpecValue::UInt(*x as nat),
            Value::Bytes(v) => SpecValue::Bytes(v@),
        }
    }
}

/// One decoded row: the field values in schema order, produced fresh per
/// row and owned exclusively by the caller once yielded.
#[derive(Debug, PartialEq, Eq)]
pub struct Record {
    pub values: Vec<Value>,
}

impl View for Record {
    type V = Seq<SpecValue>;

    open spec fn view(&self) -> Seq<SpecValue> {
        Seq::new(self.values@.len(), |i: int| self.values@[i]@)
    }
}

// ---------------------------------------------------------------------------
// The byte-level meaning of the wire format
// ---------------------------------------------------------------------------

/// 256 to the `n`th power: the count of byte strings of length `n`.
pub open spec fn pow256(n: nat) -> nat
    decreases n,
{
    if n == 0 {
        1
    } else {
        256 * pow256((n - 1) as nat)
    }
}

/// Little-endian value of a byte string.
pub open spec fn le_value(bytes: Seq<u8>) -> nat
    decreases bytes.len(),
{
    if bytes.len() == 0 {
        0
    } else {
        bytes[0] as nat + 256 * le_value(bytes.drop_first())
    }
}

pub proof fn lemma_le_bound(bytes: Seq<u8>)
    ensures
        le_value(bytes) < pow256(bytes.len()),
    decreases bytes.len(),
{
    if bytes.len() > 0 {
        lemma_le_bound(bytes.drop_first());
    }
}

proof fn lemma_pow256_at_most_8(n: nat)
    requires
        n <= 8,
    ensures
        pow256(n) <= 0x1_0000_0000_0000_0000,
    decreases n,
{
    assert(pow256(0) == 1);
    assert(pow256(1) == 256);
    assert(pow256(2) == 0x1_0000);
    assert(pow256(3) == 0x100_0000);
    assert(pow256(4) == 0x1_0000_0000);
    assert(pow256(5) == 0x100_0000_0000);
    assert(pow256(6) == 0x1_0000_0000_0000);
    assert(pow256(7) == 0x100_0000_0000_0000);
    assert(pow256(8) == 0x1_0000_0000_0000_0000);
}

/// The variable-length unsigned prefix: each byte contributes 7 bits in
/// little-endian group order, the top bit signals continuation. Yields the
/// value and the count of prefix bytes, or nothing when the bytes end
/// before the prefix does.
pub open spec fn spec_varint(bytes: Seq<u8>) -> Option<(nat, nat)>
    decreases bytes.len(),
{
    if bytes.len() == 0 {
        None
    } else {
        let b = bytes[0];
        if b < 128 {
            Some((b as nat, 1))
        } else {
            match spec_varint(bytes.drop_first()) {
                Some(p) => Some((((b - 128) + 128 * p.0) as nat, (p.1 + 1) as nat)),
                None => None,
            }
        }
    }
}

/// Decoding one field from the front of `bytes`: the value and the bytes
/// consumed, or nothing when more input is needed.
pub open spec fn spec_decode_field(k: FieldKind, bytes: Seq<u8>) -> Option<(SpecValue, nat)> {
    match k {
        FieldKind::VarStr => match spec_varint(bytes) {
            Some(p) => {
                if bytes.len() < p.1 + p.0 {
                    None
                } else {
                    Some(
                        (
                            SpecValue::Bytes(bytes.subrange(p.1 as int, (p.1 + p.0) as int)),
                            p.1 + p.0,
                        ),
                    )
                }
            },
            None => None,
        },
        FieldKind::FixedStr(w) => {
            if bytes.len() < w {
                None
            } else {
                Some((SpecValue::Bytes(bytes.take(w as int)), w as nat))
            }
        },
        _ => {
            let w = uint_width(k);
            if bytes.len() < w {
                None
            } else {
                Some((SpecValue::UInt(le_value(bytes.take(w as int))), w))
            }
        },
    }
}

/// Byte width of the numeric kinds.
pub open spec fn uint_width(k: FieldKind) -> nat {
    match k {
        FieldKind::UInt8 => 1,
        FieldKind::UInt16 => 2,
        FieldKind::UInt32 => 4,
        FieldKind::UInt64 => 8,
        _ => 0,
    }
}

/// Decoding a list of fields in order from the front of `bytes`.
pub open spec fn spec_decode_fields(ks: Seq<FieldKind>, bytes: Seq<u8>) -> Option<
    (Seq<SpecValue>, nat),
>
    decreases ks.len(),
{
    if ks.len() == 0 {
        Some((Seq::<SpecValue>::empty(), 0))
    } else {
        match spec_decode_field(ks[0], bytes) {
            None => None,
            Some(p) => match spec_decode_fields(ks.drop_first(), bytes.skip(p.1 as int)) {
                None => None,
                Some(q) => Some((seq![p.0] + q.0, p.1 + q.1)),
            },
        }
    }
}

/// Decoding exactly one row from the front of `bytes`.
pub open spec fn spec_decode_row(schema: &Schema, bytes: Seq<u8>) -> Option<(Seq<SpecValue>, nat)> {
    spec_decode_fields(schema.kinds(), bytes)
}

pub proof fn lemma_varint_consumed(bytes: Seq<u8>)
    ensures
        spec_varint(bytes) matches Some(p) ==> 1 <= p.1 <= bytes.len(),
    decreases bytes.len(),
{
    if bytes.len() > 0 && bytes[0] >= 128 {
        lemma_varint_consumed(bytes.drop_first());
    }
}

pub proof fn lemma_field_consumed(k: FieldKind, bytes: Seq<u8>)
    requires
        kind_wf(k),
    ensures
        spec_decode_field(k, bytes) matches Some(p) ==> 1 <= p.1 <= bytes.len(),
{
    lemma_varint_consumed(bytes);
}

pub proof fn lemma_fields_consumed(ks: Seq<FieldKind>, bytes: Seq<u8>)
    requires
        forall|i: int| 0 <= i < ks.len() ==> kind_wf(#[trigger] ks[i]),
    ensures
        spec_decode_fields(ks, bytes) matches Some(q) ==> {
            &&& q.0.len() == ks.len()
            &&& q.1 <= bytes.len()
            &&& (ks.len() > 0 ==> q.1 >= 1)
        },
    decreases ks.len(),
{
    if ks.len() > 0 {
        lemma_field_consumed(ks[0], bytes);
        match spec_decode_field(ks[0], bytes) {
            Some(p) => {
                lemma_fields_consumed(ks.drop_first(), bytes.skip(p.1 as int));
            },
            None => {},
        }
    }
}

/// A fixed-width string field of declared width consumes exactly that many
/// bytes whatever they hold, and its value is exactly those bytes: no
/// length prefix is read, in contrast with the variable-length encoding.
pub proof fn lemma_fixed_width_consumes_width(w: usize, bytes: Seq<u8>)
    requires
        w <= bytes.len(),
    ensures
        spec_decode_field(FieldKind::FixedStr(w), bytes) == Some(
            (SpecValue::Bytes(bytes.take(w as int)), w as nat),
        ),
{
}

/// A fixed-width string field never reports success on fewer bytes than
/// its width, again whatever the bytes hold.
pub proof fn lemma_fixed_width_needs_width(w: usize, bytes: Seq<u8>)
    requires
        bytes.len() < w,
    ensures
        spec_decode_field(FieldKind::FixedStr(w), bytes) is None,
{
}

/// A row of a usable schema always consumes at least one byte and never
/// more than were present.
pub proof fn lemma_row_consumed(schema: &Schema, bytes: Seq<u8>)
    requires
        schema.wf(),
    ensures
        spec_decode_row(schema, bytes) matches Some(q) ==> 1 <= q.1 <= bytes.len(),
{
    lemma_fields_consumed(schema.kinds(), bytes);
}

// ---------------------------------------------------------------------------
// Decoding is stable under appending more input
// ---------------------------------------------------------------------------

pub proof fn lemma_varint_prefix(bytes: Seq<u8>, ext: Seq<u8>)
    ensures
        spec_varint(bytes) matches Some(p) ==> spec_varint(bytes + ext) == Some(p),
    decreases bytes.len(),
{
    if bytes.len() > 0 {
        assert((bytes + ext)[0] == bytes[0]);
        assert((bytes + ext).len() > 0);
        if bytes[0] >= 128 {
            lemma_varint_prefix(bytes.drop_first(), ext);
            assert((bytes + ext).drop_first() =~= bytes.drop_first() + ext);
        }
    }
}

pub proof fn lemma_field_prefix(k: FieldKind, bytes: Seq<u8>, ext: Seq<u8>)
    ensures
        spec_decode_field(k, bytes) matches Some(p) ==> spec_decode_field(k, bytes + ext) == Some(
            p,
        ),
{
    lemma_varint_prefix(bytes, ext);
    lemma_varint_consumed(bytes);
    if spec_decode_field(k, bytes) is Some {
        match k {
            FieldKind::VarStr => {
                let q = spec_varint(bytes).unwrap();
                assert((bytes + ext).subrange(q.1 as int, (q.1 + q.0) as int) =~= bytes.subrange(
                    q.1 as int,
                    (q.1 + q.0) as int,
                ));
            },
            FieldKind::FixedStr(w) => {
                assert((bytes + ext).take(w as int) =~= bytes.take(w as int));
            },
            _ => {
                let w = uint_width(k);
                assert((bytes + ext).take(w as int) =~= bytes.take(w as int));
            },
        }
    }
}

pub proof fn lemma_fields_prefix(ks: Seq<FieldKind>, bytes: Seq<u8>, ext: Seq<u8>)
    ensures
        spec_decode_fields(ks, bytes) matches Some(q) ==> spec_decode_fields(ks, bytes + ext)
            == Some(q),
    decreases ks.len(),
{
    if ks.len() > 0 {
        lemma_field_prefix(ks[0], bytes, ext);
        lemma_varint_consumed(bytes);
        lemma_field_consumed_any(ks[0], bytes);
        match spec_decode_field(ks[0], bytes) {
            Some(p) => {
                lemma_fields_prefix(ks.drop_first(), bytes.skip(p.1 as int), ext);
                assert((bytes + ext).skip(p.1 as int) =~= bytes.skip(p.1 as int) + ext);
            },
            None => {},
        }
    }
}

/// Even without well-formedness, a decoded field never reports more
/// consumed bytes than were present.
proof fn lemma_field_consumed_any(k: FieldKind, bytes: Seq<u8>)
    ensures
        spec_decode_field(k, bytes) matches Some(p) ==> p.1 <= bytes.len(),
{
    lemma_varint_consumed(bytes);
}

proof fn lemma_fields_consumed_any(ks: Seq<FieldKind>, bytes: Seq<u8>)
    ensures
        spec_decode_fields(ks, bytes) matches Some(q) ==> q.1 <= bytes.len(),
    decreases ks.len(),
{
    if ks.len() > 0 {
        lemma_field_consumed_any(ks[0], bytes);
        match spec_decode_field(ks[0], bytes) {
            Some(p) => {
                lemma_fields_consumed_any(ks.drop_first(), bytes.skip(p.1 as int));
            },
            None => {},
        }
    }
}

/// Decoding one row reads only the bytes it consumes: feeding more input
/// afterwards cannot change an already decodable row.
pub proof fn lemma_row_prefix(schema: &Schema, bytes: Seq<u8>, ext: Seq<u8>)
    ensures
        spec_decode_row(schema, bytes) matches Some(q) ==> spec_decode_row(schema, bytes + ext)
            == Some(q),
{
    lemma_fields_prefix(schema.kinds(), bytes, ext);
}

// ---------------------------------------------------------------------------
// The executable decoder
// ---------------------------------------------------------------------------

/// Outcome of one decode attempt against the buffered bytes.
pub enum DecodeOutcome {
    /// A fully decoded record; the caller must commit the buffer cursor.
    Row(Record),
    /// The buffered bytes end mid-field or mid-record; the caller must
    /// roll back and wait for more input.
    NotEnoughData,
    /// A field needs a contiguous span that crosses chunk boundaries and
    /// exceeds the scratch buffer; the caller must grow the scratch buffer
    /// by at least this many bytes and retry, without new input.
    TooSmallBuffer(usize),
}

enum VarintOutcome {
    /// The prefix was read; `oversize` marks a value above `u64::MAX`.
    Done(u64, bool),
    NotEnoughData,
}

enum SpanOutcome {
    Bytes(Vec<u8>),
    NotEnoughData,
    TooSmallBuffer(usize),
}

/// Little-endian value of at most eight bytes.
fn le_to_u64(v: &Vec<u8>) -> (r: u64)
    requires
        v@.len() <= 8,
    ensures
        r as nat == le_value(v@),
{
    let mut r: u64 = 0;
    let mut i: usize = v.len();
    proof {
        assert(v@.skip(i as int) =~= Seq::<u8>::empty());
    }
    while i > 0
        invariant
            i <= v@.len() <= 8,
            r as nat == le_value(v@.skip(i as int)),
        decreases i,
    {
        proof {
            lemma_le_bound(v@.skip(i as int));
            lemma_pow256_at_most_8((v@.len() - i) as nat);
            assert(pow256((v@.len() - i + 1) as nat) == 256 * pow256((v@.len() - i) as nat));
            lemma_pow256_at_most_8((v@.len() - i + 1) as nat);
            assert(v@.skip(i - 1).drop_first() =~= v@.skip(i as int));
            assert(v@.skip(i - 1)[0] == v@[i - 1]);
        }
        i = i - 1;
        r = r * 256 + (v[i] as u64);
    }
    proof {
        assert(v@.skip(0) =~= v@);
    }
    r
}

/// Reads the variable-length prefix from the buffer. On success the cursor
/// stands after the prefix; a value above `u64::MAX` is flagged, which can
/// only name a length larger than any buffer this machine can hold.
fn read_varint(buf: &mut BufList) -> (r: VarintOutcome)
    requires
        old(buf).wf(),
    ensures
        final(buf).wf(),
        final(buf).uncommitted() == old(buf).uncommitted(),
        final(buf).held_len() == old(buf).held_len(),
        final(buf).chunk_count() == old(buf).chunk_count(),
        match r {
            VarintOutcome::Done(v, oversize) => spec_varint(old(buf).remaining()) matches Some(p)
                && final(buf).remaining() == old(buf).remaining().skip(p.1 as int) && (oversize
                ==> p.0 > u64::MAX) && (!oversize ==> v as nat == p.0),
            VarintOutcome::NotEnoughData => spec_varint(old(buf).remaining()) is None,
        },
    decreases old(buf).remaining().len(),
{
    let b = match buf.read_byte() {
        Some(b) => b,
        None => {
            return VarintOutcome::NotEnoughData;
        },
    };
    let ghost rem0 = old(buf).remaining();
    if b < 128 {
        return VarintOutcome::Done(b as u64, false);
    }
    let rest = read_varint(buf);
    match rest {
        VarintOutcome::NotEnoughData => VarintOutcome::NotEnoughData,
        VarintOutcome::Done(v, oversize) => {
            proof {
                lemma_varint_consumed(rem0.drop_first());
                match spec_varint(rem0.drop_first()) {
                    Some(pp) => {
                        assert(rem0.drop_first().skip(pp.1 as int) =~= rem0.skip(pp.1 as int + 1));
                    },
                    None => {},
                }
            }
            let low: u64 = (b - 128) as u64;
            if oversize {
                VarintOutcome::Done(0, true)
            } else {
                let wide: u128 = low as u128 + 128u128 * (v as u128);
                if wide <= u64::MAX as u128 {
                    VarintOutcome::Done(wide as u64, false)
                } else {
                    VarintOutcome::Done(0, true)
                }
            }
        },
    }
}

/// Reads `n` contiguous bytes: straight from one chunk when the span does
/// not cross a boundary, through the scratch buffer when it does.
fn read_span(buf: &mut BufList, scratch: &mut Vec<u8>, n: usize) -> (r: SpanOutcome)
    requires
        old(buf).wf(),
    ensures
        final(buf).wf(),
        final(buf).uncommitted() == old(buf).uncommitted(),
        final(buf).held_len() == old(buf).held_len(),
        final(buf).chunk_count() == old(buf).chunk_count(),
        final(scratch).len() == old(scratch).len(),
        match r {
            SpanOutcome::Bytes(v) => n <= old(buf).remaining().len() && v@ == old(buf).remaining().take(n as int) && final(buf).remaining() == old(buf).remaining().skip(
                n as int,
            ),
            SpanOutcome::NotEnoughData => old(buf).remaining().len() < n && final(buf).remaining()
                == old(buf).remaining(),
            SpanOutcome::TooSmallBuffer(need) => need > 0 && old(scratch).len() + need == n && n
                <= old(buf).remaining().len() && final(buf).remaining() == old(buf).remaining(),
        },
{
    if buf.available() < n {
        return SpanOutcome::NotEnoughData;
    }
    if buf.is_contig(n) {
        SpanOutcome::Bytes(buf.take_contig(n))
    } else if scratch.len() >= n {
        SpanOutcome::Bytes(buf.take_via_scratch(n, scratch))
    } else {
        SpanOutcome::TooSmallBuffer(n - scratch.len())
    }
}

/// Decodes one field of kind `k` at the cursor.
fn decode_field(buf: &mut BufList, scratch: &mut Vec<u8>, k: FieldKind) -> (r: Result<
    Value,
    DecodeOutcome,
>)
    requires
        old(buf).wf(),
    ensures
        final(buf).wf(),
        final(buf).uncommitted() == old(buf).uncommitted(),
        final(buf).held_len() == old(buf).held_len(),
        final(buf).chunk_count() == old(buf).chunk_count(),
        final(scratch).len() == old(scratch).len(),
        match r {
            Ok(v) => spec_decode_field(k, old(buf).remaining()) matches Some(p) && p.0 == v@
                && final(buf).remaining() == old(buf).remaining().skip(p.1 as int),
            Err(DecodeOutcome::NotEnoughData) => spec_decode_field(k, old(buf).remaining())
                is None,
            Err(DecodeOutcome::TooSmallBuffer(need)) => need > 0 && old(scratch).len() + need <= old(buf).remaining().len(),
            Err(DecodeOutcome::Row(_)) => false,
        },
{
    let ghost rem0 = old(buf).remaining();
    match k {
        FieldKind::VarStr => {
            match read_varint(buf) {
                VarintOutcome::NotEnoughData => Err(DecodeOutcome::NotEnoughData),
                VarintOutcome::Done(v, oversize) => {
                    let ghost p = spec_varint(rem0).unwrap();
                    proof {
                        lemma_varint_consumed(rem0);
                    }
                    let avail = buf.available();
                    if oversize {
                        // a length above u64::MAX exceeds any buffer
                        proof {
                            assert(rem0.skip(p.1 as int).len() == rem0.len() - p.1);
                            assert(avail < p.0);
                        }
                        return Err(DecodeOutcome::NotEnoughData);
                    }
                    if v > avail as u64 {
                        return Err(DecodeOutcome::NotEnoughData);
                    }
                    let n = v as usize;
                    match read_span(buf, scratch, n) {
                        SpanOutcome::Bytes(bytesv) => {
                            proof {
                                assert(rem0.skip(p.1 as int).take(n as int) =~= rem0.subrange(
                                    p.1 as int,
                                    (p.1 + p.0) as int,
                                ));
                                assert(rem0.skip(p.1 as int).skip(n as int) =~= rem0.skip(
                                    (p.1 + p.0) as int,
                                ));
                            }
                            Ok(Value::Bytes(bytesv))
                        },
                        SpanOutcome::NotEnoughData => Err(DecodeOutcome::NotEnoughData),
                        SpanOutcome::TooSmallBuffer(need) => Err(
                            DecodeOutcome::TooSmallBuffer(need),
                        ),
                    }
                },
            }
        },
        FieldKind::FixedStr(w) => {
            match read_span(buf, scratch, w) {
                SpanOutcome::Bytes(bytesv) => Ok(Value::Bytes(bytesv)),
                SpanOutcome::NotEnoughData => Err(DecodeOutcome::NotEnoughData),
                SpanOutcome::TooSmallBuffer(need) => Err(DecodeOutcome::TooSmallBuffer(need)),
            }
        },
        _ => {
            let w: usize = match k {
                FieldKind::UInt8 => 1,
                FieldKind::UInt16 => 2,
                FieldKind::UInt32 => 4,
                _ => 8,
            };
            let mut tmp: Vec<u8> = Vec::new();
            let mut j: usize = 0;
            proof {
                assert(tmp@ =~= rem0.take(0));
                assert(buf.remaining() =~= rem0.skip(0));
            }
            while j < w
                invariant
                    buf.wf(),
                    j <= w <= 8,
                    w == uint_width(k),
                    buf.uncommitted() == old(buf).uncommitted(),
                    buf.held_len() == old(buf).held_len(),
                    buf.chunk_count() == old(buf).chunk_count(),
                    k is UInt8 || k is UInt16 || k is UInt32 || k is UInt64,
                    rem0 == old(buf).remaining(),
                    j <= rem0.len(),
                    tmp@ == rem0.take(j as int),
                    buf.remaining() == rem0.skip(j as int),
                decreases w - j,
            {
                match buf.read_byte() {
                    None => {
                        proof {
                            assert(rem0.skip(j as int).len() == 0);
                            assert(rem0.len() < w);
                        }
                        return Err(DecodeOutcome::NotEnoughData);
                    },
                    Some(b) => {
                        tmp.push(b);
                        j = j + 1;
                        proof {
                            assert(tmp@ =~= rem0.take(j as int));
                            assert(buf.remaining() =~= rem0.skip(j as int));
                        }
                    },
                }
            }
            let x = le_to_u64(&tmp);
            proof {
                lemma_le_bound(rem0.take(w as int));
                lemma_pow256_at_most_8(w as nat);
            }
            Ok(Value::UInt(x))
        },
    }
}

/// Decodes the fields of `schema` from index `i` on.
fn decode_fields(buf: &mut BufList, scratch: &mut Vec<u8>, schema: &Schema, i: usize) -> (r: Result<
    Vec<Value>,
    DecodeOutcome,
>)
    requires
        old(buf).wf(),
        i <= schema.fields@.len(),
    ensures
        final(buf).wf(),
        final(buf).uncommitted() == old(buf).uncommitted(),
        final(buf).held_len() == old(buf).held_len(),
        final(buf).chunk_count() == old(buf).chunk_count(),
        final(scratch).len() == old(scratch).len(),
        match r {
            Ok(vs) => spec_decode_fields(schema.kinds().skip(i as int), old(buf).remaining())
                matches Some(q) && q.0 == Seq::new(vs@.len(), |j: int| vs@[j]@) && final(buf).remaining() == old(buf).remaining().skip(q.1 as int),
            Err(DecodeOutcome::NotEnoughData) => spec_decode_fields(
                schema.kinds().skip(i as int),
                old(buf).remaining(),
            ) is None,
            Err(DecodeOutcome::TooSmallBuffer(need)) => need > 0 && old(scratch).len() + need <= old(buf).remaining().len(),
            Err(DecodeOutcome::Row(_)) => false,
        },
    decreases schema.fields@.len() - i,
{
    let ghost ks = schema.kinds().skip(i as int);
    if i == schema.fields.len() {
        let r = Vec::<Value>::new();
        proof {
            assert(ks.len() == 0);
            assert(Seq::new(r@.len(), |j: int| r@[j]@) =~= Seq::<SpecValue>::empty());
            assert(old(buf).remaining().skip(0) =~= old(buf).remaining());
        }
        return Ok(r);
    }
    let ghost rem0 = old(buf).remaining();
    let k = schema.fields[i].kind;
    proof {
        assert(ks[0] == k);
        assert(ks.drop_first() =~= schema.kinds().skip(i + 1));
    }
    let v = match decode_field(buf, scratch, k) {
        Ok(v) => v,
        Err(e) => {
            return Err(e);
        },
    };
    let ghost p = spec_decode_field(k, rem0).unwrap();
    proof {
        lemma_field_consumed_any(k, rem0);
    }
    let mut rest = match decode_fields(buf, scratch, schema, i + 1) {
        Ok(vs) => vs,
        Err(e) => {
            proof {
                if e matches DecodeOutcome::TooSmallBuffer(need) {
                    assert(rem0.skip(p.1 as int).len() <= rem0.len());
                }
            }
            return Err(e);
        },
    };
    let ghost q = spec_decode_fields(ks.drop_first(), rem0.skip(p.1 as int)).unwrap();
    rest.insert(0, v);
    proof {
        lemma_fields_consumed_any(ks.drop_first(), rem0.skip(p.1 as int));
        assert(Seq::new(rest@.len(), |j: int| rest@[j]@) =~= seq![p.0] + q.0);
        assert(rem0.skip(p.1 as int).skip(q.1 as int) =~= rem0.skip((p.1 + q.1) as int));
    }
    Ok(rest)
}

/// Attempts exactly one record decode against the buffered bytes at the
/// cursor. Pure with respect to the stream: it neither commits nor rolls
/// back, and on every path the buffered bytes themselves are untouched —
/// only the cursor moves, and the caller's commit or rollback settles it.
pub fn decode_row(buf: &mut BufList, scratch: &mut Vec<u8>, schema: &Schema) -> (r: DecodeOutcome)
    requires
        old(buf).wf(),
    ensures
        final(buf).wf(),
        final(buf).uncommitted() == old(buf).uncommitted(),
        final(buf).held_len() == old(buf).held_len(),
        final(buf).chunk_count() == old(buf).chunk_count(),
        final(scratch).len() == old(scratch).len(),
        match r {
            DecodeOutcome::Row(rec) => spec_decode_row(schema, old(buf).remaining()) matches Some(
                q,
            ) && q.0 == rec@ && final(buf).remaining() == old(buf).remaining().skip(q.1 as int),
            DecodeOutcome::NotEnoughData => spec_decode_row(schema, old(buf).remaining()) is None,
            DecodeOutcome::TooSmallBuffer(need) => need > 0 && old(scratch).len() + need <= old(buf).remaining().len(),
        },
{
    proof {
        assert(schema.kinds().skip(0) =~= schema.kinds());
    }
    match decode_fields(buf, scratch, schema, 0) {
        Ok(vs) => {
            let rec = Record { values: vs };
            proof {
                assert(rec@ =~= Seq::new(rec.values@.len(), |j: int| rec.values@[j]@));
            }
            DecodeOutcome::Row(rec)
        },
        Err(e) => e,
    }
}

} // verus!
