//! Live row counts of the chunks of an archetype.

use vstd::prelude::*;

verus! {

/// Rows held by each chunk when `n` rows fill chunks of `c` rows in order.
pub open spec fn chunk_sizes(c: int, n: int) -> Seq<int>
    decreases n,
{
    if c <= 0 || n <= 0 {
        Seq::empty()
    } else if n <= c {
        seq![n]
    } else {
        seq![c] + chunk_sizes(c, n - c)
    }
}

/// Number of chunks needed for `n` rows in chunks of `c` rows.
pub open spec fn chunk_count(c: int, n: int) -> int {
    (n + c - 1) / c
}

/// Rows are laid out densely: `n` rows in chunks of `c` take `⌈n/c⌉` chunks,
/// every chunk but the last is full, and the last holds `n mod c` rows, or
/// `c` when `n` is a multiple of `c`.
pub proof fn lemma_chunked_layout(c: int, n: int)
    requires
        c >= 1,
        n >= 0,
    ensures
        chunk_sizes(c, n).len() == chunk_count(c, n),
        forall|i: int| 0 <= i < chunk_sizes(c, n).len() - 1 ==> #[trigger] chunk_sizes(c, n)[i] == c,
        n > 0 ==> chunk_sizes(c, n).last() == if n % c == 0 {
            c
        } else {
            n % c
        },
    decreases n,
{
    if n == 0 {
        assert((c - 1) / c == 0) by (nonlinear_arith)
            requires
                c >= 1,
        ;
    } else if n <= c {
        assert((n + c - 1) / c == 1) by (nonlinear_arith)
            requires
                c >= 1,
                1 <= n <= c,
        ;
        if n == c {
            assert(n % c == 0) by (nonlinear_arith)
                requires
                    n == c,
                    c >= 1,
            ;
        } else {
            assert(n % c == n) by (nonlinear_arith)
                requires
                    0 < n < c,
            ;
        }
    } else {
        lemma_chunked_layout(c, n - c);
        let rest = chunk_sizes(c, n - c);
        assert(chunk_sizes(c, n) == seq![c] + rest);
        assert((n + c - 1) / c == (n - c + c - 1) / c + 1) by (nonlinear_arith)
            requires
                c >= 1,
                n > c,
        ;
        assert(n % c == (n - c) % c) by (nonlinear_arith)
            requires
                c >= 1,
                n > c,
        ;
        assert forall|i: int| 0 <= i < chunk_sizes(c, n).len() - 1 implies #[trigger] chunk_sizes(c, n)[i]
            == c by {
            if i > 0 {
                assert(chunk_sizes(c, n)[i] == rest[i - 1]);
            }
        }
    }
}

/// Iterator-like cursor over the live row counts of consecutive chunks.
#[derive(Clone, Copy, Debug)]
pub struct ChunkSizes {
    chunk: usize,
    len: usize,
}

impl View for ChunkSizes {
    type V = Seq<int>;

    closed spec fn view(&self) -> Seq<int> {
        chunk_sizes(self.chunk as int, self.len as int)
    }
}

impl ChunkSizes {
    pub closed spec fn spec_chunk(&self) -> int {
        self.chunk as int
    }

    /// Row counts of the chunks holding `len` rows, `chunk` rows per chunk.
    pub fn new(chunk: usize, len: usize) -> (r: ChunkSizes)
        requires
            chunk >= 1,
        ensures
            r@ == chunk_sizes(chunk as int, len as int),
            r.spec_chunk() == chunk,
    {
        ChunkSizes { chunk, len }
    }

    /// Row count of the next chunk.
    pub fn next(&mut self) -> (r: Option<usize>)
        requires
            old(self).spec_chunk() >= 1,
        ensures
            final(self).spec_chunk() == old(self).spec_chunk(),
            old(self)@.len() == 0 ==> r.is_none() && final(self)@ == old(self)@,
            old(self)@.len() > 0 ==> r == Some(old(self)@[0] as usize) && final(self)@
                == old(self)@.drop_first(),
    {
        if self.len == 0 {
            None
        } else {
            let next = if self.len < self.chunk {
                self.len
            } else {
                self.chunk
            };
            proof {
                let c = self.chunk as int;
                let n = self.len as int;
                if n > c {
                    assert(chunk_sizes(c, n).drop_first() =~= chunk_sizes(c, n - c));
                } else {
                    assert(chunk_sizes(c, n).drop_first() =~= chunk_sizes(c, 0));
                }
            }
            self.len = self.len - next;
            Some(next)
        }
    }

    /// Number of chunks left.
    pub fn len(&self) -> (r: usize)
        requires
            self.spec_chunk() >= 1,
        ensures
            r == self@.len(),
    {
        proof {
            lemma_chunked_layout(self.chunk as int, self.len as int);
        }
        if self.len == 0 {
            assert(chunk_count(self.chunk as int, 0) == 0) by (nonlinear_arith)
                requires
                    self.chunk >= 1,
            ;
            0
        } else {
            assert(chunk_count(self.chunk as int, self.len as int) == (self.len - 1) / self.chunk as int
                + 1) by (nonlinear_arith)
                requires
                    self.chunk >= 1,
                    self.len >= 1,
            ;
            (self.len - 1) / self.chunk + 1
        }
    }

    /// Row count of the last chunk.
    pub fn last(&self) -> (r: Option<usize>)
        requires
            self.spec_chunk() >= 1,
        ensures
            self@.len() == 0 ==> r.is_none(),
            self@.len() > 0 ==> r == Some(self@.last() as usize),
    {
        proof {
            lemma_chunked_layout(self.chunk as int, self.len as int);
        }
        if self.len == 0 {
            None
        } else {
            let ghost c = self.chunk as int;
            let ghost n = self.len as int;
            assert((n - 1) % c + 1 == if n % c == 0 {
                c
            } else {
                n % c
            }) by (nonlinear_arith)
                requires
                    c >= 1,
                    n >= 1,
            ;
            Some((self.len - 1) % self.chunk + 1)
        }
    }
}

} // verus!
