use vstd::prelude::*;

use crate::buflist::{cat, BufList};
use crate::error::Error;
use crate::rowbinary::{
    decode_row, lemma_row_consumed, lemma_row_prefix, spec_decode_row, DecodeOutcome, Record,
    Schema, SpecValue,
};

verus! {

/// The rows decoded from a whole byte stream, in order; a stream that ends
/// with a partially decoded row has no row list, only a truncation fault.
pub open spec fn spec_decode_stream(schema: &Schema, bytes: Seq<u8>) -> Option<
    Seq<Seq<SpecValue>>,
>
    decreases bytes.len(),
{
    if bytes.len() == 0 {
        Some(Seq::<Seq<SpecValue>>::empty())
    } else {
        match spec_decode_row(schema, bytes) {
            None => None,
            Some(q) => {
                if 1 <= q.1 <= bytes.len() {
                    match spec_decode_stream(schema, bytes.skip(q.1 as int)) {
                        None => None,
                        Some(rows) => Some(seq![q.0] + rows),
                    }
                } else {
                    None
                }
            },
        }
    }
}

/// What a sequence of decoded records states mathematically.
pub open spec fn rows_view(rs: Seq<Record>) -> Seq<Seq<SpecValue>> {
    Seq::new(rs.len(), |i: int| rs[i]@)
}

/// The chunks of a vector of byte vectors, as sequences.
pub open spec fn chunks_view(chunks: Seq<Vec<u8>>) -> Seq<Seq<u8>> {
    Seq::new(chunks.len(), |i: int| chunks[i]@)
}

/// Splitting a byte stream into chunks never changes the decoded rows: the
/// meaning of a stream depends only on the concatenation of its chunks,
/// never on where the chunk boundaries fall.
pub proof fn lemma_chunking_irrelevant(schema: &Schema, a: Seq<Seq<u8>>, b: Seq<Seq<u8>>)
    requires
        cat(a) == cat(b),
    ensures
        spec_decode_stream(schema, cat(a)) == spec_decode_stream(schema, cat(b)),
{
}

/// Grows a scratch buffer to satisfy a decoder deficit of `need` bytes:
/// the new length is found by doubling, so capacity advances in powers of
/// two, and growth is monotonic — the buffer never shrinks.
pub fn grow_scratch(scratch: &mut Vec<u8>, need: usize)
    requires
        old(scratch).len() + need <= usize::MAX,
    ensures
        final(scratch).len() >= old(scratch).len() + need,
        final(scratch).len() >= old(scratch).len(),
{
    let target = scratch.len() + need;
    let mut newlen: usize = if scratch.len() == 0 {
        1
    } else {
        scratch.len()
    };
    while newlen < target
        invariant
            newlen >= 1,
            target <= usize::MAX,
        decreases (if newlen < target {
            (target - newlen) as int
        } else {
            0
        }),
    {
        if newlen <= usize::MAX / 2 {
            newlen = 2 * newlen;
        } else {
            newlen = usize::MAX;
        }
    }
    while scratch.len() < newlen
        invariant
            newlen >= target,
            target == old(scratch).len() + need,
            old(scratch).len() <= scratch.len(),
            scratch.len() <= newlen,
        decreases newlen - scratch.len(),
    {
        scratch.push(0);
    }
}

/// Accumulates received chunks into one owned byte buffer, in arrival
/// order: the raw, undecoded response.
pub fn collect_bytes(chunks: &Vec<Vec<u8>>) -> (r: Vec<u8>)
    requires
        cat(chunks_view(chunks@)).len() <= usize::MAX,
    ensures
        r@ == cat(chunks_view(chunks@)),
{
    let mut out: Vec<u8> = Vec::new();
    let mut i: usize = 0;
    proof {
        assert(chunks_view(chunks@).take(0) =~= Seq::<Seq<u8>>::empty());
        assert(out@ =~= cat(chunks_view(chunks@).take(0)));
    }
    while i < chunks.len()
        invariant
            i <= chunks@.len(),
            cat(chunks_view(chunks@)).len() <= usize::MAX,
            out@ == cat(chunks_view(chunks@).take(i as int)),
        decreases chunks@.len() - i,
    {
        proof {
            lemma_cat_take_le(chunks_view(chunks@), i + 1);
            crate::buflist::lemma_cat_push(
                chunks_view(chunks@).take(i as int),
                chunks@[i as int]@,
            );
            assert(chunks_view(chunks@).take(i + 1) =~= chunks_view(chunks@).take(i as int).push(
                chunks@[i as int]@,
            ));
        }
        crate::sql::append_bytes(&mut out, &chunks[i]);
        i = i + 1;
    }
    proof {
        assert(chunks_view(chunks@).take(chunks@.len() as int) =~= chunks_view(chunks@));
    }
    out
}

proof fn lemma_cat_take_le(cs: Seq<Seq<u8>>, i: int)
    requires
        0 <= i <= cs.len(),
    ensures
        cat(cs.take(i)).len() <= cat(cs).len(),
    decreases cs.len() - i,
{
    if i < cs.len() {
        lemma_cat_take_le(cs, i + 1);
        crate::buflist::lemma_cat_push(cs.take(i), cs[i]);
        assert(cs.take(i + 1) =~= cs.take(i).push(cs[i]));
    } else {
        assert(cs.take(i) =~= cs);
    }
}

/// One step of the pull interface.
pub enum Step {
    /// A fully decoded record, already committed.
    Row(Record),
    /// The buffered bytes end mid-record: the caller must supply the next
    /// chunk of the stream, or settle the end of it.
    NeedInput,
}

/// A pull-based sequence of records over buffered chunks: each pull
/// attempts a decode, commits on success, grows the scratch buffer and
/// retries on a capacity deficit, and asks for input only when the
/// buffered bytes truly end mid-record. Suspension belongs to the caller:
/// between pulls all state is rolled back or committed, never in between.
pub struct RowCursor {
    buf: BufList,
    scratch: Vec<u8>,
    schema: Schema,
}

impl RowCursor {
    /// The declared field list this cursor decodes by.
    pub closed spec fn schema_spec(&self) -> Schema {
        self.schema
    }

    /// The buffered, not yet consumed bytes.
    pub closed spec fn buffered(&self) -> Seq<u8> {
        self.buf.uncommitted()
    }

    /// Bytes held in chunk storage, commit-freed ones excluded.
    pub closed spec fn held(&self) -> nat {
        self.buf.held_len()
    }

    /// Capacity of the scratch buffer; it only ever grows.
    pub closed spec fn scratch_len(&self) -> nat {
        self.scratch@.len()
    }

    pub closed spec fn wf(&self) -> bool {
        &&& self.buf.wf()
        &&& self.buf.remaining() == self.buf.uncommitted()
        &&& self.schema.wf()
    }

    pub fn new(schema: Schema) -> (r: Self)
        requires
            schema.wf(),
        ensures
            r.wf(),
            r.schema_spec() == schema,
            r.buffered() == Seq::<u8>::empty(),
            r.held() == 0,
    {
        let mut scratch: Vec<u8> = Vec::new();
        let mut i: usize = 0;
        while i < 1024
            invariant
                i <= 1024,
            decreases 1024 - i,
        {
            scratch.push(0);
            i = i + 1;
        }
        RowCursor { buf: BufList::new(), scratch, schema }
    }

    /// Accepts the next chunk received from the transport.
    pub fn push_chunk(&mut self, chunk: Vec<u8>)
        requires
            old(self).wf(),
            old(self).held() + chunk@.len() <= usize::MAX,
        ensures
            final(self).wf(),
            final(self).schema_spec() == old(self).schema_spec(),
            final(self).buffered() == old(self).buffered() + chunk@,
            final(self).held() == old(self).held() + chunk@.len(),
    {
        self.buf.push(chunk);
    }

    /// Pulls the next record out of the buffered bytes, or reports that
    /// the bytes end mid-record. A scratch-capacity deficit is always
    /// resolved here by growth and retry, without new input, and is never
    /// surfaced; on `NeedInput` the buffer is rolled back exactly to the
    /// committed boundary, so a retry with unchanged input decides alike.
    pub fn try_next(&mut self) -> (r: Step)
        requires
            old(self).wf(),
        ensures
            final(self).wf(),
            final(self).schema_spec() == old(self).schema_spec(),
            final(self).held() <= old(self).held(),
            final(self).scratch_len() >= old(self).scratch_len(),
            match r {
                Step::Row(rec) => spec_decode_row(&old(self).schema_spec(), old(self).buffered())
                    matches Some(q) && q.0 == rec@ && final(self).buffered() == old(
                    self,
                ).buffered().skip(q.1 as int),
                Step::NeedInput => spec_decode_row(&old(self).schema_spec(), old(self).buffered())
                    is None && final(self).buffered() == old(self).buffered(),
            },
    {
        let ghost b0 = old(self).buffered();
        loop
            invariant
                self.wf(),
                self.schema == old(self).schema,
                self.buffered() == b0,
                b0 == old(self).buffered(),
                self.held() <= old(self).held(),
                self.scratch_len() >= old(self).scratch_len(),
            decreases (if self.scratch.len() < b0.len() {
                b0.len() - self.scratch.len()
            } else {
                0
            }),
        {
            match decode_row(&mut self.buf, &mut self.scratch, &self.schema) {
                DecodeOutcome::Row(rec) => {
                    self.buf.commit();
                    return Step::Row(rec);
                },
                DecodeOutcome::NotEnoughData => {
                    self.buf.rollback();
                    return Step::NeedInput;
                },
                DecodeOutcome::TooSmallBuffer(need) => {
                    proof {
                        self.buf.lemma_public_bounds();
                    }
                    grow_scratch(&mut self.scratch, need);
                    self.buf.rollback();
                },
            }
        }
    }

    /// Settles the end of the transport stream: with buffered, uncommitted
    /// bytes still held, the stream ended mid-row and that is a truncation
    /// fault; with none, the sequence ends cleanly.
    pub fn finish(&self) -> (r: Result<(), Error>)
        requires
            self.wf(),
        ensures
            self.buffered().len() > 0 ==> r matches Err(Error::NotEnoughData),
            self.buffered().len() == 0 ==> r is Ok,
    {
        if self.buf.bufs_cnt() > 0 {
            Err(Error::NotEnoughData)
        } else {
            Ok(())
        }
    }
}

/// Decodes a full stream, given as its chunks in arrival order, into
/// records. The result is exactly the stream meaning of the concatenated
/// bytes: the chunk boundaries, however many and wherever they fall, do
/// not appear in it. A stream whose bytes end mid-row is a truncation
/// fault, never a silently short row list; one that ends at a row
/// boundary (or empty) ends cleanly.
#[verifier::loop_isolation(false)]
pub fn decode_all(schema: Schema, chunks: Vec<Vec<u8>>) -> (r: Result<Vec<Record>, Error>)
    requires
        schema.wf(),
        cat(chunks_view(chunks@)).len() <= usize::MAX,
    ensures
        match spec_decode_stream(&schema, cat(chunks_view(chunks@))) {
            Some(rows) => r matches Ok(v) && rows_view(v@) == rows,
            None => r matches Err(Error::NotEnoughData),
        },
{
    let ghost flat0 = cat(chunks_view(chunks@));
    let mut feed = chunks;
    let mut cur = RowCursor::new(schema);
    let mut out: Vec<Record> = Vec::new();
    proof {
        assert(cur.buffered() + cat(chunks_view(feed@)) =~= flat0);
        assert(rows_view(out@) =~= Seq::<Seq<SpecValue>>::empty());
    }
    loop
        invariant
            cur.wf(),
            cur.schema_spec() == schema,
            schema.wf(),
            cur.held() + cat(chunks_view(feed@)).len() <= flat0.len(),
            flat0.len() <= usize::MAX,
            ({
                let rest = cur.buffered() + cat(chunks_view(feed@));
                match spec_decode_stream(&schema, rest) {
                    Some(rows) => spec_decode_stream(&schema, flat0) == Some(
                        rows_view(out@) + rows,
                    ),
                    None => spec_decode_stream(&schema, flat0) is None,
                }
            }),
        decreases feed@.len(), cur.buffered().len(),
    {
        let ghost b = cur.buffered();
        let ghost catc = cat(chunks_view(feed@));
        let ghost rest = b + catc;
        match cur.try_next() {
            Step::Row(rec) => {
                proof {
                    let q = spec_decode_row(&schema, b).unwrap();
                    lemma_row_consumed(&schema, b);
                    lemma_row_prefix(&schema, b, catc);
                    assert(rest.len() > 0);
                    assert(spec_decode_row(&schema, rest) == Some(q));
                    assert(rest.skip(q.1 as int) =~= b.skip(q.1 as int) + catc);
                }
                let ghost q = spec_decode_row(&schema, b).unwrap();
                let ghost outv0 = rows_view(out@);
                out.push(rec);
                proof {
                    assert(rows_view(out@) =~= outv0 + seq![rec@]);
                    let rest2 = cur.buffered() + catc;
                    assert(rest2 == rest.skip(q.1 as int));
                    match spec_decode_stream(&schema, rest2) {
                        Some(rows) => {
                            assert(spec_decode_stream(&schema, rest) == Some(seq![q.0] + rows));
                            assert(rows_view(out@) + rows =~= outv0 + (seq![q.0] + rows));
                        },
                        None => {},
                    }
                }
            },
            Step::NeedInput => {
                if feed.len() > 0 {
                    let ghost feedv0 = chunks_view(feed@);
                    let c = feed.remove(0);
                    proof {
                        assert(chunks_view(feed@) =~= feedv0.drop_first());
                        assert(c@ == feedv0[0]);
                        assert(cat(feedv0) == feedv0.first() + cat(feedv0.drop_first()));
                    }
                    cur.push_chunk(c);
                    proof {
                        assert(cur.buffered() + cat(chunks_view(feed@)) =~= rest);
                    }
                } else {
                    match cur.finish() {
                        Ok(()) => {
                            proof {
                                assert(cat(chunks_view(feed@)) =~= Seq::<u8>::empty());
                                assert(cur.buffered() + cat(chunks_view(feed@)) =~= cur.buffered());
                                assert(cur.buffered().len() == 0);
                                assert(spec_decode_stream(&schema, cur.buffered()) == Some(
                                    Seq::<Seq<SpecValue>>::empty(),
                                ));
                                assert(rows_view(out@) + Seq::<Seq<SpecValue>>::empty() =~= rows_view(
                                    out@,
                                ));
                            }
                            return Ok(out);
                        },
                        Err(e) => {
                            proof {
                                assert(cat(chunks_view(feed@)) =~= Seq::<u8>::empty());
                                assert(cur.buffered() + cat(chunks_view(feed@)) =~= cur.buffered());
                                assert(spec_decode_row(&schema, cur.buffered()) is None);
                                assert(spec_decode_stream(&schema, cur.buffered()) is None);
                            }
                            return Err(e);
                        },
                    }
                }
            },
        }
    }
}

} // verus!
