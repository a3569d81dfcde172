use vstd::prelude::*;

use crate::error::Error;
use crate::rowbinary::Schema;

verus! {

// ---------------------------------------------------------------------------
// Escaping of bound values
// ---------------------------------------------------------------------------

/// A value bound to a `?` placeholder: a numeric literal emitted verbatim,
/// a text literal quoted and escape-sequenced, or an identifier quoted as
/// a name.
pub enum BindValue {
    UInt(u64),
    Int(i64),
    Text(Vec<u8>),
    Identifier(Vec<u8>),
}

/// Decimal digits of `n`, most significant first.
pub open spec fn spec_dec(n: nat) -> Seq<u8>
    decreases n,
{
    if n < 10 {
        seq![(48 + n) as u8]
    } else {
        spec_dec(n / 10) + seq![(48 + n % 10) as u8]
    }
}

/// Decimal digits of a signed value, a leading minus sign included.
pub open spec fn spec_dec_signed(n: int) -> Seq<u8> {
    if n < 0 {
        seq![45u8] + spec_dec((-n) as nat)
    } else {
        spec_dec(n as nat)
    }
}

/// How one byte of a text literal is written: quote, backslash and the
/// common control bytes become two-byte escape sequences, the rest stand
/// as they are.
pub open spec fn esc_text_byte(b: u8) -> Seq<u8> {
    if b == 39 {
        seq![92u8, 39u8]
    } else if b == 92 {
        seq![92u8, 92u8]
    } else if b == 10 {
        seq![92u8, 110u8]
    } else if b == 13 {
        seq![92u8, 114u8]
    } else if b == 9 {
        seq![92u8, 116u8]
    } else if b == 0 {
        seq![92u8, 48u8]
    } else {
        seq![b]
    }
}

pub open spec fn escape_text(s: Seq<u8>) -> Seq<u8>
    decreases s.len(),
{
    if s.len() == 0 {
        Seq::<u8>::empty()
    } else {
        esc_text_byte(s[0]) + escape_text(s.drop_first())
    }
}

/// How one byte of a quoted identifier is written: the quoting backtick is
/// doubled, the rest stand as they are.
pub open spec fn esc_ident_byte(b: u8) -> Seq<u8> {
    if b == 96 {
        seq![96u8, 96u8]
    } else {
        seq![b]
    }
}

pub open spec fn escape_ident(s: Seq<u8>) -> Seq<u8>
    decreases s.len(),
{
    if s.len() == 0 {
        Seq::<u8>::empty()
    } else {
        esc_ident_byte(s[0]) + escape_ident(s.drop_first())
    }
}

proof fn lemma_escape_text_snoc(s: Seq<u8>, b: u8)
    ensures
        escape_text(s.push(b)) == escape_text(s) + esc_text_byte(b),
    decreases s.len(),
{
    if s.len() == 0 {
        assert(s.push(b).drop_first() =~= Seq::<u8>::empty());
        assert(s.push(b)[0] == b);
        assert(escape_text(Seq::<u8>::empty()) == Seq::<u8>::empty());
        assert(escape_text(s.push(b)) =~= escape_text(s) + esc_text_byte(b));
    } else {
        assert(s.push(b).drop_first() =~= s.drop_first().push(b));
        lemma_escape_text_snoc(s.drop_first(), b);
        assert(escape_text(s.push(b)) =~= escape_text(s) + esc_text_byte(b));
    }
}

proof fn lemma_escape_ident_snoc(s: Seq<u8>, b: u8)
    ensures
        escape_ident(s.push(b)) == escape_ident(s) + esc_ident_byte(b),
    decreases s.len(),
{
    if s.len() == 0 {
        assert(s.push(b).drop_first() =~= Seq::<u8>::empty());
        assert(s.push(b)[0] == b);
        assert(escape_ident(Seq::<u8>::empty()) == Seq::<u8>::empty());
        assert(escape_ident(s.push(b)) =~= escape_ident(s) + esc_ident_byte(b));
    } else {
        assert(s.push(b).drop_first() =~= s.drop_first().push(b));
        lemma_escape_ident_snoc(s.drop_first(), b);
        assert(escape_ident(s.push(b)) =~= escape_ident(s) + esc_ident_byte(b));
    }
}

/// The escaped text a bound value contributes to the final query.
pub open spec fn spec_escaped(v: BindValue) -> Seq<u8> {
    match v {
        BindValue::UInt(n) => spec_dec(n as nat),
        BindValue::Int(n) => spec_dec_signed(n as int),
        BindValue::Text(t) => seq![39u8] + escape_text(t@) + seq![39u8],
        BindValue::Identifier(t) => seq![96u8] + escape_ident(t@) + seq![96u8],
    }
}

/// Appends a copy of `src` to `dst`.
pub fn append_bytes(dst: &mut Vec<u8>, src: &Vec<u8>)
    ensures
        final(dst)@ == old(dst)@ + src@,
{
    let mut i: usize = 0;
    proof {
        assert(dst@ =~= old(dst)@ + src@.take(0));
    }
    while i < src.len()
        invariant
            i <= src@.len(),
            dst@ == old(dst)@ + src@.take(i as int),
        decreases src@.len() - i,
    {
        dst.push(src[i]);
        i = i + 1;
        proof {
            assert(dst@ =~= old(dst)@ + src@.take(i as int));
        }
    }
    proof {
        assert(src@.take(src@.len() as int) =~= src@);
    }
}

fn dec_u64(n: u64) -> (r: Vec<u8>)
    ensures
        r@ == spec_dec(n as nat),
    decreases n,
{
    if n < 10 {
        let mut v: Vec<u8> = Vec::new();
        v.push(48 + n as u8);
        proof {
            assert(v@ =~= spec_dec(n as nat));
        }
        v
    } else {
        let mut v = dec_u64(n / 10);
        v.push(48 + (n % 10) as u8);
        proof {
            assert(v@ =~= spec_dec((n / 10) as nat) + seq![(48 + n as nat % 10) as u8]);
        }
        v
    }
}

fn dec_i64(n: i64) -> (r: Vec<u8>)
    ensures
        r@ == spec_dec_signed(n as int),
{
    if n >= 0 {
        dec_u64(n as u64)
    } else {
        let m: u64 = if n == i64::MIN {
            9223372036854775808u64
        } else {
            (-n) as u64
        };
        let mut v: Vec<u8> = Vec::new();
        v.push(45);
        let d = dec_u64(m);
        append_bytes(&mut v, &d);
        proof {
            assert(v@ =~= seq![45u8] + spec_dec(m as nat));
        }
        v
    }
}

fn escape_text_exec(src: &Vec<u8>) -> (r: Vec<u8>)
    ensures
        r@ == escape_text(src@),
{
    let mut out: Vec<u8> = Vec::new();
    let mut i: usize = 0;
    proof {
        assert(src@.take(0) =~= Seq::<u8>::empty());
    }
    while i < src.len()
        invariant
            i <= src@.len(),
            out@ == escape_text(src@.take(i as int)),
        decreases src@.len() - i,
    {
        let b = src[i];
        if b == 39 || b == 92 {
            out.push(92);
            out.push(b);
        } else if b == 10 {
            out.push(92);
            out.push(110);
        } else if b == 13 {
            out.push(92);
            out.push(114);
        } else if b == 9 {
            out.push(92);
            out.push(116);
        } else if b == 0 {
            out.push(92);
            out.push(48);
        } else {
            out.push(b);
        }
        proof {
            lemma_escape_text_snoc(src@.take(i as int), b);
            assert(src@.take(i + 1) =~= src@.take(i as int).push(b));
            assert(out@ =~= escape_text(src@.take(i + 1)));
        }
        i = i + 1;
    }
    proof {
        assert(src@.take(src@.len() as int) =~= src@);
    }
    out
}

fn escape_ident_exec(src: &Vec<u8>) -> (r: Vec<u8>)
    ensures
        r@ == escape_ident(src@),
{
    let mut out: Vec<u8> = Vec::new();
    let mut i: usize = 0;
    proof {
        assert(src@.take(0) =~= Seq::<u8>::empty());
    }
    while i < src.len()
        invariant
            i <= src@.len(),
            out@ == escape_ident(src@.take(i as int)),
        decreases src@.len() - i,
    {
        let b = src[i];
        if b == 96 {
            out.push(96);
            out.push(96);
        } else {
            out.push(b);
        }
        proof {
            lemma_escape_ident_snoc(src@.take(i as int), b);
            assert(src@.take(i + 1) =~= src@.take(i as int).push(b));
            assert(out@ =~= escape_ident(src@.take(i + 1)));
        }
        i = i + 1;
    }
    proof {
        assert(src@.take(src@.len() as int) =~= src@);
    }
    out
}

/// Writes the escaped form of a bound value.
fn escape_value(v: &BindValue) -> (r: Vec<u8>)
    ensures
        r@ == spec_escaped(*v),
{
    match v {
        BindValue::UInt(n) => dec_u64(*n),
        BindValue::Int(n) => dec_i64(*n),
        BindValue::Text(t) => {
            let mut out: Vec<u8> = Vec::new();
            out.push(39);
            let e = escape_text_exec(t);
            append_bytes(&mut out, &e);
            out.push(39);
            proof {
                assert(out@ =~= seq![39u8] + escape_text(t@) + seq![39u8]);
            }
            out
        },
        BindValue::Identifier(t) => {
            let mut out: Vec<u8> = Vec::new();
            out.push(96);
            let e = escape_ident_exec(t);
            append_bytes(&mut out, &e);
            out.push(96);
            proof {
                assert(out@ =~= seq![96u8] + escape_ident(t@) + seq![96u8]);
            }
            out
        },
    }
}

// ---------------------------------------------------------------------------
// The column list for `?fields`
// ---------------------------------------------------------------------------

/// The declared field names of a schema, in order.
pub open spec fn names_of(schema: &Schema) -> Seq<Seq<u8>> {
    Seq::new(schema.fields@.len(), |i: int| schema.fields@[i].name@)
}

/// Comma-joined names.
pub open spec fn spec_join(names: Seq<Seq<u8>>) -> Seq<u8>
    decreases names.len(),
{
    if names.len() == 0 {
        Seq::<u8>::empty()
    } else if names.len() == 1 {
        names[0]
    } else {
        names[0] + seq![44u8] + spec_join(names.drop_first())
    }
}

/// The ordered, comma-joined column list of a record type.
pub open spec fn spec_columns(schema: &Schema) -> Seq<u8> {
    spec_join(names_of(schema))
}

proof fn lemma_join_snoc(names: Seq<Seq<u8>>, n: Seq<u8>)
    ensures
        spec_join(names.push(n)) == if names.len() == 0 {
            n
        } else {
            spec_join(names) + seq![44u8] + n
        },
    decreases names.len(),
{
    if names.len() == 0 {
        assert(names.push(n)[0] == n);
        assert(spec_join(names.push(n)) =~= n);
    } else {
        assert(names.push(n).drop_first() =~= names.drop_first().push(n));
        lemma_join_snoc(names.drop_first(), n);
        assert(spec_join(names.push(n)) =~= spec_join(names) + seq![44u8] + n);
    }
}

/// Writes the comma-joined column list of `schema`.
fn columns_exec(schema: &Schema) -> (r: Vec<u8>)
    ensures
        r@ == spec_columns(schema),
{
    let mut out: Vec<u8> = Vec::new();
    let mut i: usize = 0;
    proof {
        assert(names_of(schema).take(0) =~= Seq::<Seq<u8>>::empty());
    }
    while i < schema.fields.len()
        invariant
            i <= schema.fields@.len(),
            out@ == spec_join(names_of(schema).take(i as int)),
        decreases schema.fields@.len() - i,
    {
        if i > 0 {
            out.push(44);
        }
        append_bytes(&mut out, &schema.fields[i].name);
        proof {
            lemma_join_snoc(names_of(schema).take(i as int), schema.fields@[i as int].name@);
            assert(names_of(schema).take(i + 1) =~= names_of(schema).take(i as int).push(
                schema.fields@[i as int].name@,
            ));
            if i == 0 {
                assert(out@ =~= spec_join(names_of(schema).take(i + 1)));
            } else {
                assert(out@ =~= spec_join(names_of(schema).take(i + 1)));
            }
        }
        i = i + 1;
    }
    proof {
        assert(names_of(schema).take(schema.fields@.len() as int) =~= names_of(schema));
    }
    out
}

// ---------------------------------------------------------------------------
// The template and its substitution
// ---------------------------------------------------------------------------

/// True when the template tail starts with the `?fields` placeholder.
pub open spec fn is_fields_at(t: Seq<u8>) -> bool {
    &&& t.len() >= 7
    &&& t[0] == 63
    &&& t[1] == 102
    &&& t[2] == 105
    &&& t[3] == 101
    &&& t[4] == 108
    &&& t[5] == 100
    &&& t[6] == 115
}

/// The substitution pass over a template tail: every `?` takes the next
/// bound argument in order, the single permitted `?fields` takes the
/// column list (consuming it, so a second one fails), and it succeeds
/// exactly when the arguments and the field list come out even.
pub open spec fn spec_subst(t: Seq<u8>, args: Seq<Seq<u8>>, fields: Option<Seq<u8>>) -> Option<
    Seq<u8>,
>
    decreases t.len(),
{
    if t.len() == 0 {
        if args.len() == 0 && fields is None {
            Some(Seq::<u8>::empty())
        } else {
            None
        }
    } else if t[0] == 63 {
        if is_fields_at(t) {
            match fields {
                Some(cols) => match spec_subst(t.skip(7), args, None) {
                    Some(r) => Some(cols + r),
                    None => None,
                },
                None => None,
            }
        } else {
            if args.len() == 0 {
                None
            } else {
                match spec_subst(t.drop_first(), args.drop_first(), fields) {
                    Some(r) => Some(args[0] + r),
                    None => None,
                }
            }
        }
    } else {
        match spec_subst(t.drop_first(), args, fields) {
            Some(r) => Some(seq![t[0]] + r),
            None => None,
        }
    }
}

/// Count of `?` value placeholders in a template (a `?fields` marker is
/// not one of them).
pub open spec fn count_placeholders(t: Seq<u8>) -> nat
    decreases t.len(),
{
    if t.len() == 0 {
        0
    } else if t[0] == 63 {
        if is_fields_at(t) {
            count_placeholders(t.skip(7))
        } else {
            1 + count_placeholders(t.drop_first())
        }
    } else {
        count_placeholders(t.drop_first())
    }
}

/// Count of `?fields` markers in a template.
pub open spec fn count_fields_marks(t: Seq<u8>) -> nat
    decreases t.len(),
{
    if t.len() == 0 {
        0
    } else if t[0] == 63 {
        if is_fields_at(t) {
            1 + count_fields_marks(t.skip(7))
        } else {
            count_fields_marks(t.drop_first())
        }
    } else {
        count_fields_marks(t.drop_first())
    }
}

/// Substitution succeeds exactly when the bound arguments number the `?`
/// placeholders — one too few or one too many already fails — and the
/// field list is bound exactly when one `?fields` marker is present.
pub proof fn lemma_subst_succeeds(t: Seq<u8>, args: Seq<Seq<u8>>, fields: Option<Seq<u8>>)
    ensures
        spec_subst(t, args, fields) is Some <==> (args.len() == count_placeholders(t)
            && count_fields_marks(t) == (if fields is Some {
            1nat
        } else {
            0nat
        })),
    decreases t.len(),
{
    if t.len() == 0 {
    } else if t[0] == 63 {
        if is_fields_at(t) {
            lemma_subst_succeeds(t.skip(7), args, None);
        } else {
            if args.len() > 0 {
                lemma_subst_succeeds(t.drop_first(), args.drop_first(), fields);
            }
        }
    } else {
        lemma_subst_succeeds(t.drop_first(), args, fields);
    }
}

/// The escaped argument fragments, as sequences.
pub open spec fn frags_view(args: Seq<Vec<u8>>) -> Seq<Seq<u8>> {
    Seq::new(args.len(), |i: int| args[i]@)
}

/// The bound field list, as a sequence.
pub open spec fn fields_view(fields: Option<Vec<u8>>) -> Option<Seq<u8>> {
    match fields {
        Some(c) => Some(c@),
        None => None,
    }
}

/// Assembles final query text from a template: `?` placeholders take
/// escaped bound arguments in call order, `?fields` takes a record type's
/// column list, and `finish` performs the substitution pass.
pub struct SqlBuilder {
    /// The template bytes, raw appended text included.
    pub template: Vec<u8>,
    /// The escaped fragments bound so far, in call order.
    pub args: Vec<Vec<u8>>,
    /// The column list bound for `?fields`, if any.
    pub fields: Option<Vec<u8>>,
}

impl SqlBuilder {
    pub fn new(template: Vec<u8>) -> (r: Self)
        ensures
            r.template@ == template@,
            r.args@.len() == 0,
            r.fields is None,
    {
        SqlBuilder { template, args: Vec::new(), fields: None }
    }

    /// Binds the next `?` argument, escaping it by its kind.
    pub fn bind_arg(&mut self, value: BindValue)
        ensures
            final(self).template == old(self).template,
            final(self).fields == old(self).fields,
            frags_view(final(self).args@) == frags_view(old(self).args@) + seq![
                spec_escaped(value),
            ],
    {
        let frag = escape_value(&value);
        self.args.push(frag);
        proof {
            assert(frags_view(self.args@) =~= frags_view(old(self).args@) + seq![
                spec_escaped(value),
            ]);
        }
    }

    /// Binds the column list of `schema` for the `?fields` placeholder.
    pub fn bind_fields(&mut self, schema: &Schema)
        ensures
            final(self).template == old(self).template,
            final(self).args == old(self).args,
            fields_view(final(self).fields) == Some(spec_columns(schema)),
    {
        let cols = columns_exec(schema);
        self.fields = Some(cols);
    }

    /// Appends raw trailing text to the template.
    pub fn append(&mut self, suffix: &Vec<u8>)
        ensures
            final(self).template@ == old(self).template@ + suffix@,
            final(self).args == old(self).args,
            final(self).fields == old(self).fields,
    {
        append_bytes(&mut self.template, suffix);
    }

    /// Performs the substitution pass: fails when the bound arguments do
    /// not exactly number the `?` placeholders, or when `?fields` and the
    /// bound field list do not agree.
    pub fn finish(&self) -> (r: Result<Vec<u8>, Error>)
        ensures
            match spec_subst(self.template@, frags_view(self.args@), fields_view(self.fields)) {
                Some(q) => r matches Ok(v) && v@ == q,
                None => r matches Err(Error::BindMismatch),
            },
    {
        proof {
            assert(self.template@.skip(0) =~= self.template@);
            assert(frags_view(self.args@).skip(0) =~= frags_view(self.args@));
        }
        match subst_from(&self.template, 0, &self.args, 0, &self.fields, true) {
            Some(v) => Ok(v),
            None => Err(Error::BindMismatch),
        }
    }
}

/// What the field list still offers to the substitution: the bound list
/// until one `?fields` has consumed it, nothing after.
pub open spec fn avail_fields(fields: Option<Vec<u8>>, avail: bool) -> Option<Seq<u8>> {
    if avail {
        fields_view(fields)
    } else {
        None
    }
}

/// The substitution pass from template position `i` and argument `j` on.
fn subst_from(t: &Vec<u8>, i: usize, args: &Vec<Vec<u8>>, j: usize, fields: &Option<Vec<u8>>, avail: bool) -> (r:
    Option<Vec<u8>>)
    requires
        i <= t@.len(),
        j <= args@.len(),
    ensures
        match r {
            Some(v) => spec_subst(
                t@.skip(i as int),
                frags_view(args@).skip(j as int),
                avail_fields(*fields, avail),
            ) == Some(v@),
            None => spec_subst(
                t@.skip(i as int),
                frags_view(args@).skip(j as int),
                avail_fields(*fields, avail),
            ) is None,
        },
    decreases t@.len() - i,
{
    let ghost tt = t@.skip(i as int);
    let ghost aa = frags_view(args@).skip(j as int);
    if i == t.len() {
        let fields_open = avail && matches!(fields, Some(_));
        if j == args.len() && !fields_open {
            let r = Vec::<u8>::new();
            proof {
                assert(tt.len() == 0);
                assert(aa.len() == 0);
            }
            Some(r)
        } else {
            None
        }
    } else if t[i] == 63 {
        let marker = t.len() - i >= 7 && t[i + 1] == 102 && t[i + 2] == 105 && t[i + 3] == 101
            && t[i + 4] == 108 && t[i + 5] == 100 && t[i + 6] == 115;
        proof {
            assert(marker == is_fields_at(tt));
        }
        if marker {
            if avail {
                match fields {
                    Some(cols) => {
                        proof {
                            assert(tt.skip(7) =~= t@.skip(i + 7));
                        }
                        match subst_from(t, i + 7, args, j, fields, false) {
                            Some(rest) => {
                                let mut out = vstd::slice::slice_to_vec(cols.as_slice());
                                append_bytes(&mut out, &rest);
                                Some(out)
                            },
                            None => None,
                        }
                    },
                    None => None,
                }
            } else {
                None
            }
        } else {
            if j == args.len() {
                proof {
                    assert(aa.len() == 0);
                }
                None
            } else {
                proof {
                    assert(tt.drop_first() =~= t@.skip(i + 1));
                    assert(aa.drop_first() =~= frags_view(args@).skip(j + 1));
                    assert(aa[0] == args@[j as int]@);
                }
                match subst_from(t, i + 1, args, j + 1, fields, avail) {
                    Some(rest) => {
                        let mut out = vstd::slice::slice_to_vec(args[j].as_slice());
                        append_bytes(&mut out, &rest);
                        Some(out)
                    },
                    None => None,
                }
            }
        }
    } else {
        proof {
            assert(tt.drop_first() =~= t@.skip(i + 1));
            assert(tt[0] == t@[i as int]);
        }
        match subst_from(t, i + 1, args, j, fields, avail) {
            Some(rest) => {
                let mut out: Vec<u8> = Vec::new();
                out.push(t[i]);
                append_bytes(&mut out, &rest);
                proof {
                    assert(out@ =~= seq![t@[i as int]] + rest@);
                }
                Some(out)
            },
            None => None,
        }
    }
}

} // verus!
