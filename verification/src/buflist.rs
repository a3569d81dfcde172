use vstd::prelude::*;

verus! {

/// Concatenation of a sequence of byte chunks into one flat byte sequence.
pub open spec fn cat(cs: Seq<Seq<u8>>) -> Seq<u8>
    decreases cs.len(),
{
    if cs.len() == 0 {
        Seq::<u8>::empty()
    } else {
        cs.first() + cat(cs.drop_first())
    }
}

pub proof fn lemma_cat_push(cs: Seq<Seq<u8>>, c: Seq<u8>)
    ensures
        cat(cs.push(c)) == cat(cs) + c,
    decreases cs.len(),
{
    if cs.len() == 0 {
        assert(cs.push(c).drop_first() =~= Seq::<Seq<u8>>::empty());
        assert(cat(Seq::<Seq<u8>>::empty()) == Seq::<u8>::empty());
        assert(cat(cs.push(c)) == cs.push(c).first() + cat(cs.push(c).drop_first()));
        assert(cat(cs.push(c)) =~= cat(cs) + c);
    } else {
        assert(cs.push(c).drop_first() =~= cs.drop_first().push(c));
        lemma_cat_push(cs.drop_first(), c);
        assert(cat(cs.push(c)) =~= cat(cs) + c);
    }
}

/// The bytes of `cs` from chunk `ci` on, with the first `co` bytes of that
/// tail dropped: the flat byte sequence seen from a cursor position.
spec fn rem_at(cs: Seq<Seq<u8>>, ci: int, co: int) -> Seq<u8> {
    cat(cs.skip(ci)).skip(co)
}

proof fn lemma_rem_unfold(cs: Seq<Seq<u8>>, ci: int, co: int)
    requires
        0 <= ci < cs.len(),
        0 <= co <= cs[ci].len(),
    ensures
        rem_at(cs, ci, co) == cs[ci].skip(co) + cat(cs.skip(ci + 1)),
{
    assert(cs.skip(ci).first() == cs[ci]);
    assert(cs.skip(ci).drop_first() =~= cs.skip(ci + 1));
    assert(cat(cs.skip(ci)) == cs[ci] + cat(cs.skip(ci + 1)));
    assert(rem_at(cs, ci, co) =~= cs[ci].skip(co) + cat(cs.skip(ci + 1)));
}

proof fn lemma_cat_skip_len(cs: Seq<Seq<u8>>, i: int)
    requires
        0 <= i <= cs.len(),
    ensures
        cat(cs.skip(i)).len() <= cat(cs).len(),
    decreases i,
{
    if i > 0 {
        lemma_cat_skip_len(cs, i - 1);
        if cs.skip(i - 1).len() > 0 {
            assert(cs.skip(i - 1).drop_first() =~= cs.skip(i));
            assert(cat(cs.skip(i - 1)) == cs.skip(i - 1).first() + cat(cs.skip(i)));
        } else {
            assert(cs.skip(i) =~= cs.skip(i - 1));
        }
    } else {
        assert(cs.skip(0) =~= cs);
    }
}

/// An append-only, rollback-capable aggregation of received byte chunks.
///
/// A single logical read cursor walks the concatenation of the held chunks;
/// `commit` fixes the cursor as the new consumption floor (fully consumed
/// leading chunks are freed), `rollback` returns the cursor to that floor.
/// The chunk memory itself is never dropped on rollback, only the cursor
/// moves back.
pub struct BufList {
    /// Held, not yet fully consumed chunks; all non-empty.
    chunks: Vec<Vec<u8>>,
    /// The commit floor: a byte offset inside `chunks[0]` (0 when empty).
    floor: usize,
    /// Cursor: index of the chunk under the cursor.
    ci: usize,
    /// Cursor: byte offset inside chunk `ci`.
    co: usize,
    /// Bytes from the cursor to the end; equals `remaining().len()`.
    avail: usize,
    /// Bytes read since the floor; equals `uncommitted().len() - avail`.
    taken: usize,
}

impl BufList {
    /// The held chunks as a sequence of byte sequences.
    pub closed spec fn cs(&self) -> Seq<Seq<u8>> {
        Seq::new(self.chunks@.len(), |i: int| self.chunks@[i]@)
    }

    /// Buffered bytes at or after the commit floor.
    pub closed spec fn uncommitted(&self) -> Seq<u8> {
        rem_at(self.cs(), 0, self.floor as int)
    }

    /// Buffered bytes at or after the read cursor.
    pub closed spec fn remaining(&self) -> Seq<u8> {
        rem_at(self.cs(), self.ci as int, self.co as int)
    }

    /// Count of held chunks.
    pub closed spec fn chunk_count(&self) -> nat {
        self.cs().len()
    }

    /// Total bytes held, the freed-by-commit ones excluded; bounded by the
    /// machine limit so offsets fit a `usize`.
    pub closed spec fn held_len(&self) -> nat {
        cat(self.cs()).len()
    }

    pub closed spec fn wf(&self) -> bool {
        &&& forall|i: int| 0 <= i < self.cs().len() ==> #[trigger] self.cs()[i].len() > 0
        &&& self.ci <= self.chunks@.len()
        &&& (self.ci < self.chunks@.len() ==> self.co < self.cs()[self.ci as int].len())
        &&& (self.ci == self.chunks@.len() ==> self.co == 0)
        &&& (self.chunks@.len() == 0 ==> self.floor == 0)
        &&& (self.chunks@.len() > 0 ==> self.floor < self.cs()[0].len())
        &&& cat(self.cs()).len() <= usize::MAX
        &&& self.taken <= self.uncommitted().len()
        &&& self.remaining() == self.uncommitted().skip(self.taken as int)
        &&& self.avail == self.remaining().len()
    }

    /// The uncommitted bytes are never more than what is held.
    proof fn lemma_len_bounds(&self)
        requires
            self.wf(),
        ensures
            self.remaining().len() + self.taken == self.uncommitted().len(),
            self.uncommitted().len() + self.floor == self.held_len(),
            self.held_len() <= usize::MAX,
            self.ci < self.cs().len() ==> self.co + self.remaining().len() >= self.cs()[
                self.ci as int
            ].len(),
    {
        assert(self.cs().skip(0) =~= self.cs());
        if self.cs().len() > 0 {
            assert(cat(self.cs()) == self.cs().first() + cat(self.cs().drop_first()));
            lemma_rem_unfold(self.cs(), 0, self.floor as int);
        } else {
            assert(self.uncommitted() =~= Seq::<u8>::empty());
        }
        if self.ci < self.cs().len() {
            lemma_rem_unfold(self.cs(), self.ci as int, self.co as int);
        }
    }

    /// The machine bound every well-formed buffer obeys: nothing buffered
    /// outruns a `usize`.
    pub proof fn lemma_public_bounds(&self)
        requires
            self.wf(),
        ensures
            self.remaining().len() <= self.uncommitted().len(),
            self.uncommitted().len() <= self.held_len(),
            self.held_len() <= usize::MAX,
    {
        self.lemma_len_bounds();
    }

    pub fn new() -> (r: Self)
        ensures
            r.wf(),
            r.uncommitted() == Seq::<u8>::empty(),
            r.remaining() == Seq::<u8>::empty(),
            r.chunk_count() == 0,
            r.held_len() == 0,
    {
        let r = BufList { chunks: Vec::new(), floor: 0, ci: 0, co: 0, avail: 0, taken: 0 };
        proof {
            assert(r.cs() =~= Seq::<Seq<u8>>::empty());
            assert(r.uncommitted() =~= Seq::<u8>::empty());
            assert(r.remaining() =~= Seq::<u8>::empty());
        }
        r
    }

    /// Appends a chunk; appending never fails. An empty chunk adds no bytes
    /// and is not held.
    pub fn push(&mut self, chunk: Vec<u8>)
        requires
            old(self).wf(),
            old(self).held_len() + chunk@.len() <= usize::MAX,
        ensures
            final(self).wf(),
            final(self).uncommitted() == old(self).uncommitted() + chunk@,
            final(self).remaining() == old(self).remaining() + chunk@,
            final(self).held_len() == old(self).held_len() + chunk@.len(),
            chunk@.len() > 0 ==> final(self).chunk_count() == old(self).chunk_count() + 1,
            chunk@.len() == 0 ==> final(self).chunk_count() == old(self).chunk_count(),
    {
        if chunk.len() == 0 {
            proof {
                assert(final(self).uncommitted() =~= old(self).uncommitted() + chunk@);
                assert(final(self).remaining() =~= old(self).remaining() + chunk@);
            }
            return;
        }
        let ghost oldcs = self.cs();
        let ghost c = chunk@;
        let clen = chunk.len();
        proof {
            self.lemma_len_bounds();
        }
        self.chunks.push(chunk);
        self.avail = self.avail + clen;
        proof {
            assert(self.cs() =~= oldcs.push(c));
            lemma_cat_push(oldcs, c);
            assert(self.cs().skip(0) =~= oldcs.skip(0).push(c));
            lemma_cat_push(oldcs.skip(0), c);
            assert(self.uncommitted() =~= old(self).uncommitted() + c);
            assert(self.cs().skip(self.ci as int) =~= oldcs.skip(self.ci as int).push(c));
            lemma_cat_push(oldcs.skip(self.ci as int), c);
            assert(self.remaining() =~= old(self).remaining() + c);
            assert(self.remaining() =~= self.uncommitted().skip(self.taken as int));
        }
    }

    /// Count of held, not yet fully consumed chunks; positive exactly when
    /// uncommitted bytes are buffered.
    pub fn bufs_cnt(&self) -> (r: usize)
        requires
            self.wf(),
        ensures
            r == self.chunk_count(),
            r > 0 <==> self.uncommitted().len() > 0,
    {
        proof {
            if self.cs().len() > 0 {
                lemma_rem_unfold(self.cs(), 0, self.floor as int);
            } else {
                assert(self.cs().skip(0) =~= Seq::<Seq<u8>>::empty());
                assert(self.uncommitted() =~= Seq::<u8>::empty());
            }
        }
        self.chunks.len()
    }

    /// Bytes currently readable from the cursor to the end of the buffer.
    pub fn available(&self) -> (r: usize)
        requires
            self.wf(),
        ensures
            r == self.remaining().len(),
    {
        self.avail
    }

    /// Reads one byte at the cursor and advances it, or reports exhaustion.
    pub fn read_byte(&mut self) -> (r: Option<u8>)
        requires
            old(self).wf(),
        ensures
            final(self).wf(),
            final(self).uncommitted() == old(self).uncommitted(),
            final(self).held_len() == old(self).held_len(),
            final(self).chunk_count() == old(self).chunk_count(),
            match r {
                Some(b) => old(self).remaining().len() > 0 && b == old(self).remaining()[0]
                    && final(self).remaining() == old(self).remaining().drop_first(),
                None => old(self).remaining().len() == 0 && *final(self) == *old(self),
            },
    {
        if self.ci == self.chunks.len() {
            proof {
                assert(self.cs().skip(self.ci as int) =~= Seq::<Seq<u8>>::empty());
                assert(self.remaining() =~= Seq::<u8>::empty());
            }
            return None;
        }
        let ghost cs = self.cs();
        let ghost ci0 = self.ci as int;
        let ghost co0 = self.co as int;
        let b = self.chunks[self.ci][self.co];
        proof {
            self.lemma_len_bounds();
            lemma_cat_skip_len(cs, ci0);
            lemma_rem_unfold(cs, ci0, co0);
            assert(self.remaining()[0] == cs[ci0][co0]);
            assert(self.remaining().len() > 0);
        }
        self.co = self.co + 1;
        self.avail = self.avail - 1;
        self.taken = self.taken + 1;
        if self.co == self.chunks[self.ci].len() {
            self.ci = self.ci + 1;
            self.co = 0;
        }
        proof {
            lemma_rem_unfold(cs, ci0, co0);
            if self.ci as int == ci0 {
                lemma_rem_unfold(cs, ci0, co0 + 1);
                assert(self.remaining() =~= rem_at(cs, ci0, co0).drop_first());
            } else {
                if ci0 + 1 < cs.len() {
                    lemma_rem_unfold(cs, ci0 + 1, 0);
                } else {
                    assert(cs.skip(ci0 + 1) =~= Seq::<Seq<u8>>::empty());
                }
                assert(self.remaining() =~= rem_at(cs, ci0, co0).drop_first());
            }
            assert(self.remaining() =~= self.uncommitted().skip(self.taken as int));
        }
        Some(b)
    }

    /// Resets the cursor to the commit floor, discarding uncommitted reads.
    pub fn rollback(&mut self)
        requires
            old(self).wf(),
        ensures
            final(self).wf(),
            final(self).uncommitted() == old(self).uncommitted(),
            final(self).held_len() == old(self).held_len(),
            final(self).chunk_count() == old(self).chunk_count(),
            final(self).remaining() == old(self).uncommitted(),
    {
        proof {
            self.lemma_len_bounds();
        }
        self.ci = 0;
        self.co = self.floor;
        self.avail = self.avail + self.taken;
        self.taken = 0;
        proof {
            assert(self.remaining() =~= self.uncommitted().skip(0));
            assert(self.remaining() =~= self.uncommitted());
        }
    }

    /// Fixes the cursor as the new commit floor; fully consumed leading
    /// chunks are freed.
    pub fn commit(&mut self)
        requires
            old(self).wf(),
        ensures
            final(self).wf(),
            final(self).uncommitted() == old(self).remaining(),
            final(self).remaining() == old(self).remaining(),
            final(self).held_len() <= old(self).held_len(),
    {
        let ghost cs = self.cs();
        let ghost ci0 = self.ci as int;
        let ghost co0 = self.co as int;
        // drop the chunks the cursor has fully passed
        let kept = self.chunks.split_off(self.ci);
        self.chunks = kept;
        self.floor = self.co;
        self.ci = 0;
        self.taken = 0;
        proof {
            assert(self.cs() =~= cs.skip(ci0));
            assert(cs.skip(ci0).skip(0) =~= cs.skip(ci0));
            assert(self.uncommitted() == rem_at(cs, ci0, co0));
            assert(self.remaining() == self.uncommitted());
            assert(self.remaining() =~= self.uncommitted().skip(0));
            lemma_cat_skip_len(cs, ci0);
            if ci0 < cs.len() {
                lemma_rem_unfold(cs, ci0, co0);
            } else {
                assert(cs.skip(ci0) =~= Seq::<Seq<u8>>::empty());
                assert(self.uncommitted() =~= Seq::<u8>::empty());
            }
        }
    }

    /// True when `n` bytes from the cursor on lie inside a single chunk and
    /// can be viewed without copying.
    pub closed spec fn span_contig(&self, n: nat) -> bool {
        if self.ci < self.chunks@.len() {
            self.co + n <= self.cs()[self.ci as int].len()
        } else {
            n == 0
        }
    }

    /// Reports whether an `n`-byte read is satisfiable without crossing a
    /// chunk boundary; if not, the caller must use the scratch copy path.
    pub fn is_contig(&self, n: usize) -> (r: bool)
        requires
            self.wf(),
        ensures
            r == self.span_contig(n as nat),
            r ==> n <= self.remaining().len(),
    {
        proof {
            if self.ci < self.chunks.len() {
                lemma_rem_unfold(self.cs(), self.ci as int, self.co as int);
            } else {
                assert(self.cs().skip(self.ci as int) =~= Seq::<Seq<u8>>::empty());
                assert(self.remaining() =~= Seq::<u8>::empty());
            }
        }
        if self.ci < self.chunks.len() {
            n <= self.chunks[self.ci].len() - self.co
        } else {
            n == 0
        }
    }

    /// Takes `n` bytes that lie inside a single chunk: the zero-copy read
    /// path, made owned for the caller.
    pub fn take_contig(&mut self, n: usize) -> (r: Vec<u8>)
        requires
            old(self).wf(),
            old(self).span_contig(n as nat),
        ensures
            final(self).wf(),
            final(self).uncommitted() == old(self).uncommitted(),
            final(self).held_len() == old(self).held_len(),
            final(self).chunk_count() == old(self).chunk_count(),
            n <= old(self).remaining().len(),
            r@ == old(self).remaining().take(n as int),
            final(self).remaining() == old(self).remaining().skip(n as int),
    {
        let ghost cs = self.cs();
        let ghost ci0 = self.ci as int;
        let ghost co0 = self.co as int;
        if self.ci == self.chunks.len() {
            let r = Vec::new();
            proof {
                assert(cs.skip(ci0) =~= Seq::<Seq<u8>>::empty());
                assert(self.remaining() =~= Seq::<u8>::empty());
                assert(r@ =~= self.remaining().take(0));
                assert(self.remaining() =~= self.remaining().skip(0));
            }
            return r;
        }
        proof {
            self.lemma_len_bounds();
            lemma_cat_skip_len(cs, ci0);
            lemma_rem_unfold(cs, ci0, co0);
        }
        let s = vstd::slice::slice_subrange(self.chunks[self.ci].as_slice(), self.co, self.co + n);
        let r = vstd::slice::slice_to_vec(s);
        proof {
            assert(r@ =~= rem_at(cs, ci0, co0).take(n as int));
        }
        self.co = self.co + n;
        self.avail = self.avail - n;
        self.taken = self.taken + n;
        if self.co == self.chunks[self.ci].len() {
            self.ci = self.ci + 1;
            self.co = 0;
        }
        proof {
            if self.ci as int == ci0 {
                lemma_rem_unfold(cs, ci0, co0 + n);
                assert(self.remaining() =~= rem_at(cs, ci0, co0).skip(n as int));
            } else {
                if ci0 + 1 < cs.len() {
                    lemma_rem_unfold(cs, ci0 + 1, 0);
                } else {
                    assert(cs.skip(ci0 + 1) =~= Seq::<Seq<u8>>::empty());
                }
                assert(self.remaining() =~= rem_at(cs, ci0, co0).skip(n as int));
            }
            assert(self.remaining() =~= self.uncommitted().skip(self.taken as int));
        }
        r
    }

    /// Takes `n` bytes that straddle chunk boundaries by copying them into
    /// the caller's scratch buffer first: the copy read path. The scratch
    /// buffer must already be large enough; its length never changes here.
    pub fn take_via_scratch(&mut self, n: usize, scratch: &mut Vec<u8>) -> (r: Vec<u8>)
        requires
            old(self).wf(),
            n <= old(self).remaining().len(),
            n <= old(scratch).len(),
        ensures
            final(self).wf(),
            final(self).uncommitted() == old(self).uncommitted(),
            final(self).held_len() == old(self).held_len(),
            final(self).chunk_count() == old(self).chunk_count(),
            final(scratch).len() == old(scratch).len(),
            r@ == old(self).remaining().take(n as int),
            final(self).remaining() == old(self).remaining().skip(n as int),
    {
        let ghost rem0 = old(self).remaining();
        let mut i: usize = 0;
        while i < n
            invariant
                self.wf(),
                i <= n,
                n <= rem0.len(),
                n <= scratch.len(),
                self.uncommitted() == old(self).uncommitted(),
                self.held_len() == old(self).held_len(),
                self.chunk_count() == old(self).chunk_count(),
                scratch.len() == old(scratch).len(),
                self.remaining() == rem0.skip(i as int),
                scratch@.take(i as int) == rem0.take(i as int),
            decreases n - i,
        {
            let b = self.read_byte().unwrap();
            scratch.set(i, b);
            i = i + 1;
            proof {
                assert(self.remaining() =~= rem0.skip(i as int));
                assert(scratch@.take(i as int) =~= rem0.take(i as int));
            }
        }
        let s = vstd::slice::slice_subrange(scratch.as_slice(), 0, n);
        let r = vstd::slice::slice_to_vec(s);
        proof {
            assert(r@ =~= rem0.take(n as int));
        }
        r
    }
}

} // verus!
