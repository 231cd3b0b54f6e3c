//! Chunked columnar storage of the rows of one archetype.

use vstd::prelude::*;
use crate::access::Access;
use crate::archetype::{Archetype, Component, BACK_INDEX_SIZE, MAX_CHUNK_SIZE};
use crate::bundle::{written_ids, Bundle, IncompleteBundle, UninitComponents};
use crate::chunks::{chunk_count, chunk_sizes, lemma_chunked_layout, ChunkSizes};
use crate::component::ComponentId;

verus! {

/// The little-endian value of the eight bytes `b`.
pub open spec fn decode_u64(b: Seq<u8>) -> u64 {
    (b[0] as u64) | ((b[1] as u64) << 8u64) | ((b[2] as u64) << 16u64) | ((b[3] as u64) << 24u64)
        | ((b[4] as u64) << 32u64) | ((b[5] as u64) << 40u64) | ((b[6] as u64) << 48u64) | ((
    b[7] as u64) << 56u64)
}

/// The eight little-endian bytes of `v`.
fn encode_u64(v: u64) -> (r: Vec<u8>)
    ensures
        r@.len() == 8,
        decode_u64(r@) == v,
{
    let b0 = (v & 0xff) as u8;
    let b1 = ((v >> 8u64) & 0xff) as u8;
    let b2 = ((v >> 16u64) & 0xff) as u8;
    let b3 = ((v >> 24u64) & 0xff) as u8;
    let b4 = ((v >> 32u64) & 0xff) as u8;
    let b5 = ((v >> 40u64) & 0xff) as u8;
    let b6 = ((v >> 48u64) & 0xff) as u8;
    let b7 = ((v >> 56u64) & 0xff) as u8;
    assert((b0 as u64) | ((b1 as u64) << 8u64) | ((b2 as u64) << 16u64) | ((b3 as u64) << 24u64)
        | ((b4 as u64) << 32u64) | ((b5 as u64) << 40u64) | ((b6 as u64) << 48u64) | ((b7 as u64)
        << 56u64) == v) by (bit_vector)
        requires
            b0 == (v & 0xff) as u8,
            b1 == ((v >> 8u64) & 0xff) as u8,
            b2 == ((v >> 16u64) & 0xff) as u8,
            b3 == ((v >> 24u64) & 0xff) as u8,
            b4 == ((v >> 32u64) & 0xff) as u8,
            b5 == ((v >> 40u64) & 0xff) as u8,
            b6 == ((v >> 48u64) & 0xff) as u8,
            b7 == ((v >> 56u64) & 0xff) as u8,
    ;
    let r = vec![b0, b1, b2, b3, b4, b5, b6, b7];
    r
}

/// Reads the little-endian value of `b[at..at + 8]`.
fn read_u64(b: &Vec<u8>, at: usize) -> (r: u64)
    requires
        at + 8 <= b@.len(),
    ensures
        r == decode_u64(b@.subrange(at as int, at + 8)),
{
    let total = b.len();
    assert(at + 8 <= total);
    let ghost s = b@.subrange(at as int, at + 8);
    assert(s[0] == b@[at as int] && s[1] == b@[at + 1] && s[2] == b@[at + 2] && s[3] == b@[at + 3]);
    assert(s[4] == b@[at + 4] && s[5] == b@[at + 5] && s[6] == b@[at + 6] && s[7] == b@[at + 7]);
    (b[at] as u64) | ((b[at + 1] as u64) << 8u64) | ((b[at + 2] as u64) << 16u64) | ((b[at + 3] as u64)
        << 24u64) | ((b[at + 4] as u64) << 32u64) | ((b[at + 5] as u64) << 40u64) | ((b[at
        + 6] as u64) << 48u64) | ((b[at + 7] as u64) << 56u64)
}

/// Copies `bytes` into `chunk` from `at` on; the rest of `chunk` is kept.
fn write_bytes(chunk: &mut Vec<u8>, at: usize, bytes: &Vec<u8>)
    requires
        at + bytes@.len() <= old(chunk)@.len(),
    ensures
        final(chunk)@.len() == old(chunk)@.len(),
        final(chunk)@.subrange(at as int, at + bytes@.len()) == bytes@,
        forall|i: int|
            0 <= i < old(chunk)@.len() && !(at <= i < at + bytes@.len()) ==> #[trigger] final(chunk)@[i]
                == old(chunk)@[i],
{
    let total = chunk.len();
    assert(at + bytes@.len() <= total);
    let mut j: usize = 0;
    while j < bytes.len()
        invariant
            old(chunk)@.len() <= usize::MAX,
            0 <= j <= bytes@.len(),
            at + bytes@.len() <= chunk@.len(),
            chunk@.len() == old(chunk)@.len(),
            forall|i: int| 0 <= i < j ==> #[trigger] chunk@[at + i] == bytes@[i],
            forall|i: int|
                0 <= i < old(chunk)@.len() && !(at <= i < at + j) ==> #[trigger] chunk@[i]
                    == old(chunk)@[i],
        decreases bytes@.len() - j,
    {
        chunk.set(at + j, bytes[j]);
        j = j + 1;
    }
    assert(chunk@.subrange(at as int, at + bytes@.len()) =~= bytes@) by {
        assert forall|i: int| 0 <= i < bytes@.len() implies chunk@.subrange(at as int, at + bytes@.len())[i]
            == bytes@[i] by {
            assert(chunk@[at + i] == bytes@[i]);
        }
    }
}


/// `n` zero bytes.
fn zeroed(n: usize) -> (r: Vec<u8>)
    ensures
        r@.len() == n,
{
    let mut r: Vec<u8> = Vec::with_capacity(n);
    let mut j: usize = 0;
    while j < n
        invariant
            0 <= j <= n,
            r@.len() == j,
        decreases n - j,
    {
        r.push(0u8);
        j = j + 1;
    }
    r
}

/// Copies `chunk[at..at + n]` out.
fn read_bytes(chunk: &Vec<u8>, at: usize, n: usize) -> (r: Vec<u8>)
    requires
        at + n <= chunk.len(),
    ensures
        r@ == chunk@.subrange(at as int, at + n),
{
    let mut r: Vec<u8> = Vec::new();
    let mut j: usize = 0;
    while j < n
        invariant
            0 <= j <= n,
            at + n <= chunk.len(),
            r@ =~= chunk@.subrange(at as int, at + j),
        decreases n - j,
    {
        r.push(chunk[at + j]);
        j = j + 1;
    }
    r
}

/// Bytes outside a written range keep their value.
proof fn lemma_untouched(before: Seq<u8>, after: Seq<u8>, at: int, n: int, start: int, len: int)
    requires
        after.len() == before.len(),
        forall|i: int|
            0 <= i < before.len() && !(at <= i < at + n) ==> #[trigger] after[i] == before[i],
        0 <= start,
        0 <= len,
        start + len <= before.len(),
        start + len <= at || at + n <= start || len == 0 || n == 0,
    ensures
        after.subrange(start, start + len) == before.subrange(start, start + len),
{
    assert(after.subrange(start, start + len) =~= before.subrange(start, start + len)) by {
        assert forall|i: int| 0 <= i < len implies #[trigger] after.subrange(start, start + len)[i]
            == before.subrange(start, start + len)[i] by {
            assert(after[start + i] == before[start + i]);
        }
    }
}

/// Column cells of different rows, or of different columns, do not overlap,
/// and every cell lies after the back-index column and inside the chunk.
proof fn lemma_cells_disjoint(a: Archetype, k: int, r: int, k2: int, r2: int)
    requires
        a.wf(),
        0 <= k < a.spec_components().len(),
        0 <= k2 < a.spec_components().len(),
        0 <= r < a.spec_capacity(),
        0 <= r2 < a.spec_capacity(),
        k != k2 || r != r2,
    ensures
        ({
            let c = a.spec_components()[k];
            let c2 = a.spec_components()[k2];
            c.offset + (r + 1) * c.size <= c2.offset + r2 * c2.size || c2.offset + (r2 + 1) * c2.size
                <= c.offset + r * c.size
        }),
{
    let cap = a.spec_capacity();
    let c = a.spec_components()[k];
    let c2 = a.spec_components()[k2];
    lemma_cell_in_chunk(a, k, r);
    lemma_cell_in_chunk(a, k2, r2);
    if k == k2 {
        if r < r2 {
            assert((r + 1) * c.size <= r2 * c.size) by (nonlinear_arith)
                requires
                    r + 1 <= r2,
                    c.size >= 0,
            ;
        } else {
            assert((r2 + 1) * c.size <= r * c.size) by (nonlinear_arith)
                requires
                    r2 + 1 <= r,
                    c.size >= 0,
            ;
        }
    } else if k < k2 {
        assert(c.offset + cap * c.size <= c2.offset);
    } else {
        assert(c2.offset + cap * c2.size <= c.offset);
    }
}

/// A column cell lies after the back-index column and inside the chunk.
proof fn lemma_cell_in_chunk(a: Archetype, k: int, r: int)
    requires
        a.wf(),
        0 <= k < a.spec_components().len(),
        0 <= r < a.spec_capacity(),
    ensures
        ({
            let c = a.spec_components()[k];
            &&& a.spec_capacity() * BACK_INDEX_SIZE <= c.offset <= c.offset + r * c.size
            &&& r * c.size + c.size == (r + 1) * c.size
            &&& c.offset + (r + 1) * c.size <= c.offset + a.spec_capacity() * c.size
            &&& c.offset + a.spec_capacity() * c.size <= a.spec_chunk_layout().size
        }),
{
    let c = a.spec_components()[k];
    let cap = a.spec_capacity();
    assert(0 <= r * c.size) by (nonlinear_arith)
        requires
            r >= 0,
            c.size >= 0,
    ;
    assert(r * c.size + c.size == (r + 1) * c.size) by (nonlinear_arith);
    assert((r + 1) * c.size <= cap * c.size) by (nonlinear_arith)
        requires
            r + 1 <= cap,
            c.size >= 0,
    ;
}

/// A back-index cell lies inside the back-index column.
proof fn lemma_back_cell(a: Archetype, r: int)
    requires
        a.wf(),
        0 <= r < a.spec_capacity(),
    ensures
        0 <= r * BACK_INDEX_SIZE,
        (r + 1) * BACK_INDEX_SIZE <= a.spec_capacity() * BACK_INDEX_SIZE,
        a.spec_capacity() * BACK_INDEX_SIZE <= a.spec_chunk_layout().size,
{
    assert((r + 1) * BACK_INDEX_SIZE <= a.spec_capacity() * BACK_INDEX_SIZE) by (nonlinear_arith)
        requires
            r + 1 <= a.spec_capacity(),
    ;
}

/// Adding row `n` opens a chunk exactly when `n` is a multiple of `c`; the
/// row goes to chunk `n / c`.
proof fn lemma_count_step(c: int, n: int)
    requires
        c >= 1,
        n >= 0,
    ensures
        chunk_count(c, n + 1) == if n % c == 0 {
            chunk_count(c, n) + 1
        } else {
            chunk_count(c, n)
        },
        n / c == if n % c == 0 {
            chunk_count(c, n)
        } else {
            chunk_count(c, n) - 1
        },
{
    let q = n / c;
    let r = n % c;
    assert(n == c * q + r && 0 <= r < c) by (nonlinear_arith)
        requires
            c >= 1,
            q == n / c,
            r == n % c,
    ;
    if r == 0 {
        assert((n + c - 1) / c == q) by (nonlinear_arith)
            requires
                c >= 1,
                n == c * q,
        ;
        assert((n + 1 + c - 1) / c == q + 1) by (nonlinear_arith)
            requires
                c >= 1,
                n == c * q,
        ;
    } else {
        assert((n + c - 1) / c == q + 1) by (nonlinear_arith)
            requires
                c >= 1,
                n == c * q + r,
                1 <= r < c,
        ;
        assert((n + 1 + c - 1) / c == q + 1) by (nonlinear_arith)
            requires
                c >= 1,
                n == c * q + r,
                1 <= r < c,
        ;
    }
}

/// Rows in one chunk with the same position in it are the same row.
proof fn lemma_row_split(cap: int, i: int, j: int)
    requires
        cap >= 1,
        i >= 0,
        j >= 0,
    ensures
        0 <= i % cap < cap,
        0 <= i / cap,
        i / cap == j / cap && i % cap == j % cap ==> i == j,
        i / cap <= j / cap || i > j,
{
    assert(i == cap * (i / cap) + i % cap) by (nonlinear_arith)
        requires
            cap >= 1,
    ;
    assert(j == cap * (j / cap) + j % cap) by (nonlinear_arith)
        requires
            cap >= 1,
    ;
    assert(0 <= i % cap < cap) by (nonlinear_arith)
        requires
            cap >= 1,
    ;
    assert(0 <= i / cap) by (nonlinear_arith)
        requires
            cap >= 1,
            i >= 0,
    ;
    if i <= j {
        assert(i / cap <= j / cap) by (nonlinear_arith)
            requires
                cap >= 1,
                i <= j,
                i >= 0,
        ;
    }
}

/// Largest number of rows in one archetype.
pub const MAX_ROWS: usize = 2147483647;

/// The rows of one archetype, stored column by column in chunks of bytes.
/// Row `i` lives in chunk `i / capacity` at position `i % capacity`.
pub struct ArchetypeStorage {
    archetype: Archetype,
    chunks: Vec<Vec<u8>>,
    len: usize,
}

impl ArchetypeStorage {
    pub closed spec fn spec_archetype(&self) -> Archetype {
        self.archetype
    }

    pub closed spec fn spec_len(&self) -> int {
        self.len as int
    }

    pub closed spec fn spec_chunk_count(&self) -> int {
        self.chunks@.len() as int
    }

    pub closed spec fn spec_chunk(&self, j: int) -> Seq<u8> {
        self.chunks@[j]@
    }

    pub open spec fn spec_capacity(&self) -> int {
        self.spec_archetype().spec_capacity()
    }

    /// Identifiers of the archetype's columns.
    pub open spec fn spec_ids(&self) -> Seq<ComponentId> {
        self.spec_archetype().spec_ids()
    }

    /// Bytes of column `k` in row `i`.
    pub open spec fn spec_value(&self, i: int, k: int) -> Seq<u8> {
        let cap = self.spec_capacity();
        let c = self.spec_archetype().spec_components()[k];
        let start = c.offset + (i % cap) * c.size;
        self.spec_chunk(i / cap).subrange(start, start + c.size)
    }

    /// Entity index recorded in the back-index column for row `i`.
    pub open spec fn spec_entity(&self, i: int) -> u64 {
        let start = (i % self.spec_capacity()) * BACK_INDEX_SIZE;
        decode_u64(self.spec_chunk(i / self.spec_capacity()).subrange(start, start + BACK_INDEX_SIZE))
    }

    /// The descriptor is well formed, there are exactly `⌈len / capacity⌉`
    /// chunks, and every chunk has the size of the chunk layout.
    pub open spec fn wf(&self) -> bool {
        &&& self.spec_archetype().wf()
        &&& 0 <= self.spec_len() <= MAX_ROWS
        &&& self.spec_chunk_count() == chunk_count(self.spec_capacity(), self.spec_len())
        &&& forall|j: int|
            0 <= j < self.spec_chunk_count() ==> (#[trigger] self.spec_chunk(j)).len()
                == self.spec_archetype().spec_chunk_layout().size
    }

    /// Rows `i < n` hold the same values and entities in `self` and `other`.
    pub open spec fn same_rows(&self, other: &ArchetypeStorage, n: int) -> bool {
        &&& forall|i: int, k: int|
            0 <= i < n && 0 <= k < self.spec_archetype().spec_components().len() ==> #[trigger] self.spec_value(i, k)
                == other.spec_value(i, k)
        &&& forall|i: int| 0 <= i < n ==> #[trigger] self.spec_entity(i) == other.spec_entity(i)
    }

    /// Empty storage for `archetype`.
    pub fn new(archetype: Archetype) -> (r: ArchetypeStorage)
        requires
            archetype.wf(),
        ensures
            r.wf(),
            r.spec_archetype() == archetype,
            r.spec_len() == 0,
    {
        let r = ArchetypeStorage { archetype, chunks: Vec::new(), len: 0 };
        assert(chunk_count(r.spec_capacity(), 0) == 0) by (nonlinear_arith)
            requires
                r.spec_capacity() >= 1,
        ;
        r
    }

    pub fn archetype(&self) -> (r: &Archetype)
        ensures
            *r == self.spec_archetype(),
    {
        &self.archetype
    }

    /// Number of rows.
    pub fn len(&self) -> (r: usize)
        ensures
            r == self.spec_len(),
    {
        self.len
    }

    /// Rows per chunk.
    pub fn chunk_capacity(&self) -> (r: usize)
        ensures
            r == self.spec_capacity(),
    {
        self.archetype.chunk_capacity()
    }

    /// Rows the allocated chunks can hold.
    pub fn capacity(&self) -> (r: usize)
        requires
            self.wf(),
        ensures
            r == self.spec_chunk_count() * self.spec_capacity(),
            self.spec_len() <= r,
    {
        let cap = self.archetype.chunk_capacity();
        let n = self.chunks.len();
        let ghost len = self.len as int;
        assert(len <= n * cap && n * cap <= len + cap) by (nonlinear_arith)
            requires
                cap >= 1,
                n == (len + cap - 1) / (cap as int),
                len >= 0,
        ;
        assert(n * cap <= len + cap);
        assert(cap <= MAX_CHUNK_SIZE) by (nonlinear_arith)
            requires
                cap * 8 <= self.archetype.spec_chunk_layout().size,
                self.archetype.spec_chunk_layout().size <= MAX_CHUNK_SIZE,
                cap >= 1,
        ;
        n * cap
    }

    /// Live row counts of the chunks, in order.
    pub fn chunk_sizes(&self) -> (r: ChunkSizes)
        requires
            self.wf(),
        ensures
            r@ == crate::chunks::chunk_sizes(self.spec_capacity(), self.spec_len()),
            r.spec_chunk() == self.spec_capacity(),
    {
        ChunkSizes::new(self.archetype.chunk_capacity(), self.len)
    }

    /// Position of the column of `id`, if the archetype has it.
    pub fn component_index(&self, id: ComponentId) -> (r: Option<usize>)
        ensures
            r.is_some() <==> self.spec_ids().contains(id),
            r.is_some() ==> r.unwrap() < self.spec_archetype().spec_components().len()
                && self.spec_archetype().spec_components()[r.unwrap() as int].id == id,
    {
        self.archetype.component_index(id)
    }

    /// The chunks, each the bytes of one chunk layout.
    pub fn raw_chunks(&self) -> (r: &Vec<Vec<u8>>)
        ensures
            r@.len() == self.spec_chunk_count(),
            forall|j: int| 0 <= j < r@.len() ==> (#[trigger] r@[j])@ == self.spec_chunk(j),
    {
        &self.chunks
    }

    /// Returns true if column `index` is the column of `id` and starts at `offset`.
    pub fn is_correct_index_offset(&self, id: ComponentId, index: usize, offset: usize) -> (r: bool)
        ensures
            r == (index < self.spec_archetype().spec_components().len()
                && self.spec_archetype().spec_components()[index as int].id == id
                && self.spec_archetype().spec_components()[index as int].offset == offset),
    {
        let components = self.archetype.components();
        if index >= components.len() {
            return false;
        }
        let c = components[index];
        c.id.0 == id.0 && c.offset == offset
    }

    /// Bytes of column `k` in row `row`.
    pub fn column_value(&self, row: usize, k: usize) -> (r: &[u8])
        requires
            self.wf(),
            row < self.spec_len(),
            k < self.spec_archetype().spec_components().len(),
        ensures
            r@ == self.spec_value(row as int, k as int),
    {
        let cap = self.archetype.chunk_capacity();
        let c = self.archetype.components()[k];
        proof {
            lemma_row_split(cap as int, row as int, self.len - 1);
            lemma_cell_in_chunk(self.archetype, k as int, (row % cap) as int);
            self.lemma_chunk_index(row as int);
        }
        let ghost r = (row % cap) as int;
        let start = c.offset + (row % cap) * c.size;
        assert(self.spec_chunk((row / cap) as int).len() == self.archetype.spec_chunk_layout().size);
        let chunk = &self.chunks[row / cap];
        &chunk.as_slice()[start..start + c.size]
    }

    /// The rows fill the chunks densely: `⌈len / capacity⌉` chunks, all full
    /// but the last, which holds `len mod capacity` rows, or `capacity` when
    /// `len` is a multiple of it.
    pub proof fn lemma_chunk_layout(&self)
        requires
            self.wf(),
        ensures
            self.spec_chunk_count() == (self.spec_len() + self.spec_capacity() - 1) / self.spec_capacity(),
            chunk_sizes(self.spec_capacity(), self.spec_len()).len() == self.spec_chunk_count(),
            forall|j: int| 0 <= j < self.spec_chunk_count() - 1 ==> #[trigger] self.spec_rows_in_chunk(j) == self.spec_capacity(),
            self.spec_len() > 0 ==> self.spec_rows_in_chunk(self.spec_chunk_count() - 1) == if self.spec_len()
                % self.spec_capacity() == 0 {
                self.spec_capacity()
            } else {
                self.spec_len() % self.spec_capacity()
            },
    {
        lemma_chunked_layout(self.spec_capacity(), self.spec_len());
        let sz = chunk_sizes(self.spec_capacity(), self.spec_len());
        if self.spec_len() > 0 {
            assert(sz.last() == sz[sz.len() - 1]);
        }
        assert forall|j: int| 0 <= j < self.spec_chunk_count() - 1 implies #[trigger] self.spec_rows_in_chunk(j)
            == self.spec_capacity() by {
            assert(sz[j] == self.spec_capacity());
        }
    }

    /// A value has its column's size.
    pub proof fn lemma_value_len(&self, i: int, k: int)
        requires
            self.wf(),
            0 <= i < self.spec_len(),
            0 <= k < self.spec_archetype().spec_components().len(),
        ensures
            self.spec_value(i, k).len() == self.spec_archetype().spec_components()[k].size,
    {
        let cap = self.spec_capacity();
        lemma_row_split(cap, i, 0);
        self.lemma_chunk_index(i);
        lemma_cell_in_chunk(self.spec_archetype(), k, i % cap);
        assert(self.spec_chunk(i / cap).len() == self.spec_archetype().spec_chunk_layout().size);
    }

    /// A row below `len` is in one of the chunks.
    proof fn lemma_chunk_index(&self, i: int)
        requires
            self.wf(),
            0 <= i < self.spec_len(),
        ensures
            0 <= i / self.spec_capacity() < self.spec_chunk_count(),
    {
        let cap = self.spec_capacity();
        let n = self.spec_len();
        assert(0 <= i / cap < (n + cap - 1) / cap) by (nonlinear_arith)
            requires
                cap >= 1,
                0 <= i < n,
        ;
    }

    /// Bytes of component `id` in row `row`; `None` where the archetype has
    /// no such component.
    pub fn get_component_ref(&self, row: usize, id: ComponentId) -> (r: Option<&[u8]>)
        requires
            self.wf(),
            row < self.spec_len(),
        ensures
            r.is_some() <==> self.spec_ids().contains(id),
            r.is_some() ==> r.unwrap()@ == self.spec_value(
                row as int,
                self.spec_ids().index_of(id),
            ),
    {
        match self.archetype.component_index(id) {
            None => None,
            Some(k) => {
                proof {
                    self.archetype.lemma_index_of(k as int);
                }
                Some(self.column_value(row, k))
            },
        }
    }

    /// Entity index recorded for row `row`.
    pub fn entity_at(&self, row: usize) -> (r: u64)
        requires
            self.wf(),
            row < self.spec_len(),
        ensures
            r == self.spec_entity(row as int),
    {
        let cap = self.archetype.chunk_capacity();
        proof {
            lemma_row_split(cap as int, row as int, 0);
            lemma_back_cell(self.archetype, (row % cap) as int);
            self.lemma_chunk_index(row as int);
        }
        assert(self.spec_chunk((row / cap) as int).len() == self.archetype.spec_chunk_layout().size);
        read_u64(&self.chunks[row / cap], (row % cap) * BACK_INDEX_SIZE)
    }
    /// Appends a row holding `values`, column by column, for the entity
    /// with index `entity`. Returns the new row's position.
    pub fn push_row(&mut self, values: &Vec<Vec<u8>>, entity: u64) -> (row: usize)
        requires
            old(self).wf(),
            old(self).spec_len() < MAX_ROWS,
            values@.len() == old(self).spec_archetype().spec_components().len(),
            forall|k: int|
                0 <= k < values@.len() ==> (#[trigger] values@[k])@.len()
                    == old(self).spec_archetype().spec_components()[k].size,
        ensures
            final(self).wf(),
            final(self).spec_archetype() == old(self).spec_archetype(),
            final(self).spec_len() == old(self).spec_len() + 1,
            row == old(self).spec_len(),
            final(self).same_rows(old(self), old(self).spec_len()),
            forall|k: int|
                0 <= k < values@.len() ==> #[trigger] final(self).spec_value(row as int, k)
                    == values@[k]@,
            final(self).spec_entity(row as int) == entity,
    {
        let cap = self.archetype.chunk_capacity();
        let row = self.len;
        let ghost a = self.archetype;
        let ghost layout_size = a.spec_chunk_layout().size as int;
        proof {
            lemma_row_split(cap as int, row as int, 0);
            lemma_count_step(cap as int, row as int);
            assert forall|i: int| 0 <= i < row implies 0 <= #[trigger] (i / cap as int) < self.chunks@.len()
                && i / cap as int <= (row as int) / (cap as int) && (i / cap as int == (row as int) / (cap as int) ==> i % cap as int
                != (row as int) % (cap as int)) by {
                self.lemma_chunk_index(i);
                lemma_row_split(cap as int, i, row as int);
            }
        }
        if row % cap == 0 {
            let size = self.archetype.chunk_layout().size;
            let chunk = zeroed(size);
            self.chunks.push(chunk);
            assert(self.spec_chunk(self.chunks@.len() - 1) == chunk@);
        }
        assert forall|j: int| 0 <= j < self.chunks@.len() implies (#[trigger] self.spec_chunk(j)).len()
            == layout_size by {
            if j < old(self).chunks@.len() {
                assert(self.spec_chunk(j) == old(self).spec_chunk(j));
            }
        }
        let ci = row / cap;
        let ri = row % cap;
        assert(self.same_rows(old(self), row as int));
        let n = self.archetype.components().len();
        let mut k: usize = 0;
        while k < n
            invariant
                self.archetype == a,
                a.wf(),
                self.len == row,
                row == old(self).spec_len(),
                cap == a.spec_capacity(),
                n == a.spec_components().len(),
                values@.len() == n,
                forall|j: int|
                    0 <= j < n ==> (#[trigger] values@[j])@.len() == a.spec_components()[j].size,
                ci == row / cap,
                ri == row % cap,
                0 <= ri < cap,
                ci < self.chunks@.len(),
                self.chunks@.len() == chunk_count(cap as int, row as int + 1),
                forall|j: int|
                    0 <= j < self.chunks@.len() ==> (#[trigger] self.spec_chunk(j)).len() == layout_size,
                layout_size == a.spec_chunk_layout().size,
                forall|i: int|
                    0 <= i < row ==> 0 <= #[trigger] (i / cap as int) < self.chunks@.len() && i / cap as int
                        <= ci && (i / cap as int == ci ==> i % cap as int != ri),
                0 <= k <= n,
                self.same_rows(old(self), row as int),
                forall|j: int| 0 <= j < k ==> #[trigger] self.spec_value(row as int, j) == values@[j]@,
            decreases n - k,
        {
            let c = self.archetype.components()[k];
            proof {
                lemma_cell_in_chunk(a, k as int, ri as int);
            }
            let at = c.offset + ri * c.size;
            let ghost before = *self;
            let ghost before_chunk = self.spec_chunk(ci as int);
            write_bytes(&mut self.chunks[ci], at, &values[k]);
            proof {
                let after_chunk = self.spec_chunk(ci as int);
                assert forall|j: int| 0 <= j < self.chunks@.len() && j != ci implies #[trigger] self.spec_chunk(j)
                    == before.spec_chunk(j) by {}
                assert forall|i: int, k2: int|
                    0 <= i < row && 0 <= k2 < n implies #[trigger] self.spec_value(i, k2)
                    == old(self).spec_value(i, k2) by {
                    assert(before.spec_value(i, k2) == old(self).spec_value(i, k2));
                    if i / cap as int == ci as int {
                        lemma_row_split(cap as int, i, 0);
                        lemma_cells_disjoint(a, k as int, ri as int, k2, i % cap as int);
                        lemma_cell_in_chunk(a, k2, i % cap as int);
                        let c2 = a.spec_components()[k2];
                        let start = c2.offset + (i % cap as int) * c2.size;
                        lemma_untouched(before_chunk, after_chunk, at as int, c.size as int, start, c2.size as int);
                    }
                }
                assert forall|i: int| 0 <= i < row implies #[trigger] self.spec_entity(i) == old(self).spec_entity(i) by {
                    assert(before.spec_entity(i) == old(self).spec_entity(i));
                    if i / cap as int == ci as int {
                        lemma_row_split(cap as int, i, 0);
                        lemma_back_cell(a, i % cap as int);
                        let start = (i % cap as int) * BACK_INDEX_SIZE;
                        lemma_untouched(before_chunk, after_chunk, at as int, c.size as int, start, BACK_INDEX_SIZE as int);
                    }
                }
                assert forall|j: int| 0 <= j < k + 1 implies #[trigger] self.spec_value(row as int, j) == values@[j]@ by {
                    if j < k {
                        assert(before.spec_value(row as int, j) == values@[j]@);
                        lemma_cells_disjoint(a, k as int, ri as int, j, ri as int);
                        lemma_cell_in_chunk(a, j, ri as int);
                        let c2 = a.spec_components()[j];
                        let start = c2.offset + (ri as int) * c2.size;
                        lemma_untouched(before_chunk, after_chunk, at as int, c.size as int, start, c2.size as int);
                    }
                }
            }
            k = k + 1;
        }
        proof {
            lemma_back_cell(a, ri as int);
        }
        let at = ri * BACK_INDEX_SIZE;
        let bytes = encode_u64(entity);
        let ghost before = *self;
        let ghost before_chunk = self.spec_chunk(ci as int);
        write_bytes(&mut self.chunks[ci], at, &bytes);
        proof {
            let after_chunk = self.spec_chunk(ci as int);
            assert forall|j: int| 0 <= j < self.chunks@.len() && j != ci implies #[trigger] self.spec_chunk(j)
                == before.spec_chunk(j) by {}
            assert forall|i: int, k2: int|
                0 <= i <= row && 0 <= k2 < n implies #[trigger] self.spec_value(i, k2)
                == before.spec_value(i, k2) by {
                if i / cap as int == ci as int {
                    lemma_row_split(cap as int, i, 0);
                    lemma_cell_in_chunk(a, k2, i % cap as int);
                    let c2 = a.spec_components()[k2];
                    let start = c2.offset + (i % cap as int) * c2.size;
                    lemma_untouched(before_chunk, after_chunk, at as int, 8, start, c2.size as int);
                }
            }
            assert forall|i: int| 0 <= i < row implies #[trigger] self.spec_entity(i) == before.spec_entity(i) by {
                if i / cap as int == ci as int {
                    lemma_row_split(cap as int, i, 0);
                    lemma_back_cell(a, i % cap as int);
                    let start = (i % cap as int) * BACK_INDEX_SIZE;
                    assert(start + 8 <= at || at + 8 <= start) by (nonlinear_arith)
                        requires
                            start == (i % cap as int) * 8,
                            at == ri * 8,
                            i % cap as int != ri,
                    ;
                    lemma_untouched(before_chunk, after_chunk, at as int, 8, start, 8);
                }
            }
            assert(self.spec_chunk(ci as int).subrange(at as int, at + 8) == bytes@);
            assert forall|j: int| 0 <= j < self.chunks@.len() implies (#[trigger] self.spec_chunk(j)).len()
                == layout_size by {
                if j != ci {
                    assert(self.spec_chunk(j) == before.spec_chunk(j));
                }
            }
        }
        let ghost s1 = *self;
        self.len = row + 1;
        proof {
            assert forall|j: int| 0 <= j < n implies #[trigger] self.spec_value(row as int, j) == values@[j]@ by {
                assert(before.spec_value(row as int, j) == values@[j]@);
                assert(s1.spec_value(row as int, j) == before.spec_value(row as int, j));
                assert(self.spec_value(row as int, j) == s1.spec_value(row as int, j));
            }
            assert forall|i: int, k2: int|
                0 <= i < row && 0 <= k2 < n implies #[trigger] self.spec_value(i, k2)
                == old(self).spec_value(i, k2) by {
                assert(s1.spec_value(i, k2) == before.spec_value(i, k2));
                assert(before.spec_value(i, k2) == old(self).spec_value(i, k2));
            }
            assert forall|i: int| 0 <= i < row implies #[trigger] self.spec_entity(i) == old(self).spec_entity(i) by {
                assert(s1.spec_entity(i) == before.spec_entity(i));
                assert(before.spec_entity(i) == old(self).spec_entity(i));
            }
            assert(self.spec_entity(row as int) == decode_u64(bytes@));
            assert forall|j: int| 0 <= j < self.spec_chunk_count() implies (#[trigger] self.spec_chunk(j)).len()
                == self.spec_archetype().spec_chunk_layout().size by {
                assert(self.spec_chunk(j) == s1.spec_chunk(j));
            }
            assert(self.spec_chunk_count() == chunk_count(self.spec_capacity(), self.spec_len()));
            assert(self.spec_len() <= MAX_ROWS);
        }
        row
    }

    /// Removes row `row` by moving the last row into its place. Returns the
    /// entity index of the moved row, `None` where `row` was the last one.
    /// A chunk left empty is released.
    pub fn swap_remove(&mut self, row: usize) -> (moved: Option<u64>)
        requires
            old(self).wf(),
            row < old(self).spec_len(),
        ensures
            final(self).wf(),
            final(self).spec_archetype() == old(self).spec_archetype(),
            final(self).spec_len() == old(self).spec_len() - 1,
            moved == if row == old(self).spec_len() - 1 {
                None
            } else {
                Some(old(self).spec_entity(old(self).spec_len() - 1))
            },
            forall|i: int, k: int|
                0 <= i < final(self).spec_len() && i != row && 0 <= k
                    < old(self).spec_archetype().spec_components().len() ==> #[trigger] final(self).spec_value(i, k)
                    == old(self).spec_value(i, k),
            forall|i: int|
                0 <= i < final(self).spec_len() && i != row ==> #[trigger] final(self).spec_entity(i)
                    == old(self).spec_entity(i),
            row < final(self).spec_len() ==> forall|k: int|
                0 <= k < old(self).spec_archetype().spec_components().len() ==> #[trigger] final(self).spec_value(
                    row as int,
                    k,
                ) == old(self).spec_value(old(self).spec_len() - 1, k),
            row < final(self).spec_len() ==> final(self).spec_entity(row as int) == old(self).spec_entity(
                old(self).spec_len() - 1,
            ),
    {
        let cap = self.archetype.chunk_capacity();
        let last = self.len - 1;
        let ghost a = self.archetype;
        let ghost layout_size = a.spec_chunk_layout().size as int;
        let n = self.archetype.components().len();
        let mut moved: Option<u64> = None;
        proof {
            self.lemma_chunk_index(row as int);
            self.lemma_chunk_index(last as int);
            lemma_row_split(cap as int, row as int, last as int);
        }
        if row != last {
            let rc = row / cap;
            let rr = row % cap;
            let lc = last / cap;
            let lr = last % cap;
            let mut k: usize = 0;
            while k < n
                invariant
                    self.archetype == a,
                    a.wf(),
                    self.len == old(self).spec_len(),
                    last == self.len - 1,
                    row < last,
                    cap == a.spec_capacity(),
                    n == a.spec_components().len(),
                    rc == row / cap,
                    rr == row % cap,
                    lc == last / cap,
                    lr == last % cap,
                    0 <= rr < cap,
                    0 <= lr < cap,
                    rc < self.chunks@.len(),
                    lc < self.chunks@.len(),
                    rc == lc ==> rr != lr,
                    self.chunks@.len() == old(self).chunks@.len(),
                    forall|j: int|
                        0 <= j < self.chunks@.len() ==> (#[trigger] self.spec_chunk(j)).len() == layout_size,
                    layout_size == a.spec_chunk_layout().size,
                    0 <= k <= n,
                    forall|i: int, k2: int|
                        0 <= i <= last && i != row && 0 <= k2 < n ==> #[trigger] self.spec_value(i, k2)
                            == old(self).spec_value(i, k2),
                    forall|i: int| 0 <= i <= last && i != row ==> #[trigger] self.spec_entity(i) == old(self).spec_entity(i),
                    forall|j: int|
                        0 <= j < k ==> #[trigger] self.spec_value(row as int, j) == old(self).spec_value(
                            last as int,
                            j,
                        ),
                decreases n - k,
            {
                let c = self.archetype.components()[k];
                proof {
                    lemma_cell_in_chunk(a, k as int, rr as int);
                    lemma_cell_in_chunk(a, k as int, lr as int);
                }
                assert(self.spec_chunk(lc as int).len() == layout_size);
                assert(self.spec_chunk(rc as int).len() == layout_size);
                let bytes = read_bytes(&self.chunks[lc], c.offset + lr * c.size, c.size);
                let at = c.offset + rr * c.size;
                let ghost before = *self;
                let ghost before_chunk = self.spec_chunk(rc as int);
                write_bytes(&mut self.chunks[rc], at, &bytes);
                proof {
                    let after_chunk = self.spec_chunk(rc as int);
                    assert(before.spec_value(last as int, k as int) == old(self).spec_value(last as int, k as int));
                    assert(a.spec_components()[k as int] == c);
                    assert(before.spec_capacity() == cap);
                    assert((last as int) / (cap as int) == lc as int);
                    assert((last as int) % (cap as int) == lr as int);
                    assert(before.spec_value(last as int, k as int) == before.spec_chunk(lc as int).subrange(
                        c.offset + lr * c.size,
                        c.offset + lr * c.size + c.size,
                    ));
                    assert(bytes@ == old(self).spec_value(last as int, k as int));
                    assert forall|j: int| 0 <= j < self.chunks@.len() && j != rc implies #[trigger] self.spec_chunk(j)
                        == before.spec_chunk(j) by {}
                    assert forall|i: int, k2: int|
                        0 <= i <= last && i != row && 0 <= k2 < n implies #[trigger] self.spec_value(i, k2)
                        == old(self).spec_value(i, k2) by {
                        assert(before.spec_value(i, k2) == old(self).spec_value(i, k2));
                        lemma_row_split(cap as int, i, row as int);
                        lemma_row_split(cap as int, i, last as int);
                        if i / cap as int == rc as int {
                            lemma_cells_disjoint(a, k as int, rr as int, k2, i % cap as int);
                            lemma_cell_in_chunk(a, k2, i % cap as int);
                            let c2 = a.spec_components()[k2];
                            let start = c2.offset + (i % cap as int) * c2.size;
                            lemma_untouched(before_chunk, after_chunk, at as int, c.size as int, start, c2.size as int);
                        }
                    }
                    assert forall|i: int| 0 <= i <= last && i != row implies #[trigger] self.spec_entity(i)
                        == old(self).spec_entity(i) by {
                        assert(before.spec_entity(i) == old(self).spec_entity(i));
                        lemma_row_split(cap as int, i, row as int);
                        lemma_row_split(cap as int, i, last as int);
                        if i / cap as int == rc as int {
                            lemma_back_cell(a, i % cap as int);
                            let start = (i % cap as int) * BACK_INDEX_SIZE;
                            lemma_untouched(before_chunk, after_chunk, at as int, c.size as int, start, BACK_INDEX_SIZE as int);
                        }
                    }
                    assert forall|j: int| 0 <= j < k + 1 implies #[trigger] self.spec_value(row as int, j)
                        == old(self).spec_value(last as int, j) by {
                        if j < k {
                            assert(before.spec_value(row as int, j) == old(self).spec_value(last as int, j));
                            lemma_cells_disjoint(a, k as int, rr as int, j, rr as int);
                            lemma_cell_in_chunk(a, j, rr as int);
                            let c2 = a.spec_components()[j];
                            let start = c2.offset + (rr as int) * c2.size;
                            lemma_untouched(before_chunk, after_chunk, at as int, c.size as int, start, c2.size as int);
                        }
                    }
                }
                k = k + 1;
            }
            proof {
                lemma_back_cell(a, rr as int);
                lemma_back_cell(a, lr as int);
            }
            assert(self.spec_chunk(lc as int).len() == layout_size);
            assert(self.spec_chunk(rc as int).len() == layout_size);
            let e = read_u64(&self.chunks[lc], lr * BACK_INDEX_SIZE);
            assert(self.spec_entity(last as int) == old(self).spec_entity(last as int));
            assert(self.spec_capacity() == cap);
            assert((last as int) / (cap as int) == lc as int);
            assert((last as int) % (cap as int) == lr as int);
            assert(e == old(self).spec_entity(last as int));
            let bytes = encode_u64(e);
            let at = rr * BACK_INDEX_SIZE;
            let ghost before = *self;
            let ghost before_chunk = self.spec_chunk(rc as int);
            write_bytes(&mut self.chunks[rc], at, &bytes);
            proof {
                let after_chunk = self.spec_chunk(rc as int);
                assert forall|j: int| 0 <= j < self.chunks@.len() && j != rc implies #[trigger] self.spec_chunk(j)
                    == before.spec_chunk(j) by {}
                assert forall|i: int, k2: int|
                    0 <= i <= last && 0 <= k2 < n implies #[trigger] self.spec_value(i, k2)
                    == before.spec_value(i, k2) by {
                    lemma_row_split(cap as int, i, row as int);
                    lemma_row_split(cap as int, i, last as int);
                    if i / cap as int == rc as int {
                        lemma_cell_in_chunk(a, k2, i % cap as int);
                        let c2 = a.spec_components()[k2];
                        let start = c2.offset + (i % cap as int) * c2.size;
                        lemma_untouched(before_chunk, after_chunk, at as int, 8, start, c2.size as int);
                    }
                }
                assert forall|i: int| 0 <= i <= last && i != row implies #[trigger] self.spec_entity(i)
                    == before.spec_entity(i) by {
                    lemma_row_split(cap as int, i, row as int);
                    lemma_row_split(cap as int, i, last as int);
                    if i / cap as int == rc as int {
                        lemma_back_cell(a, i % cap as int);
                        let start = (i % cap as int) * BACK_INDEX_SIZE;
                        assert(start + 8 <= at || at + 8 <= start) by (nonlinear_arith)
                            requires
                                start == (i % cap as int) * 8,
                                at == rr * 8,
                                i % cap as int != rr,
                        ;
                        lemma_untouched(before_chunk, after_chunk, at as int, 8, start, 8);
                    }
                }
                assert(self.spec_chunk(rc as int).subrange(at as int, at + 8) == bytes@);
                assert(self.spec_entity(row as int) == e);
                assert forall|j: int| 0 <= j < self.chunks@.len() implies (#[trigger] self.spec_chunk(j)).len()
                    == layout_size by {
                    if j != rc {
                        assert(self.spec_chunk(j) == before.spec_chunk(j));
                    }
                }
            }
            moved = Some(e);
        }
        let ghost s1 = *self;
        proof {
            lemma_count_step(cap as int, last as int);
            assert forall|i: int| 0 <= i < last implies 0 <= #[trigger] (i / cap as int) < chunk_count(
                cap as int,
                last as int,
            ) by {
                let c = cap as int;
                let l = last as int;
                assert(0 <= (i / c) && (i / c) < (l + c - 1) / c) by (nonlinear_arith)
                    requires
                        c >= 1,
                        0 <= i < l,
                ;
            }
        }
        self.len = last;
        if last % cap == 0 {
            self.chunks.pop();
        }
        proof {
            assert forall|j: int| 0 <= j < self.chunks@.len() implies #[trigger] self.spec_chunk(j) == s1.spec_chunk(j) by {}
            assert forall|i: int, k2: int| 0 <= i < last && 0 <= k2 < n implies #[trigger] self.spec_value(i, k2)
                == s1.spec_value(i, k2) by {
                assert(self.spec_chunk(i / cap as int) == s1.spec_chunk(i / cap as int));
            }
            assert forall|i: int| 0 <= i < last implies #[trigger] self.spec_entity(i) == s1.spec_entity(i) by {
                assert(self.spec_chunk(i / cap as int) == s1.spec_chunk(i / cap as int));
            }
            assert forall|j: int| 0 <= j < self.spec_chunk_count() implies (#[trigger] self.spec_chunk(j)).len()
                == self.spec_archetype().spec_chunk_layout().size by {
                assert(self.spec_chunk(j) == s1.spec_chunk(j));
            }
        }
        moved
    }

    /// The slots `bundle` fills for this archetype's columns.
    pub open spec fn bundle_places<B: Bundle>(&self, bundle: B) -> Seq<Option<Seq<u8>>> {
        bundle.spec_init(self.spec_archetype().spec_components())
    }

    /// Appends a row for entity index `entity` whose components `bundle`
    /// writes. Where the bundle leaves a slot unwritten, nothing is stored,
    /// the written components are dropped and `IncompleteBundle` lists them.
    pub fn insert<B: Bundle>(&mut self, bundle: B, entity: u64) -> (r: Result<usize, IncompleteBundle>)
        requires
            old(self).wf(),
            old(self).spec_len() < MAX_ROWS,
        ensures
            final(self).wf(),
            final(self).spec_archetype() == old(self).spec_archetype(),
            r.is_ok() <==> forall|k: int|
                0 <= k < old(self).spec_archetype().spec_components().len() ==> (#[trigger] old(self).bundle_places(
                    bundle,
                )[k]).is_some(),
            r.is_ok() ==> {
                &&& r.unwrap() == old(self).spec_len()
                &&& final(self).spec_len() == old(self).spec_len() + 1
                &&& final(self).same_rows(old(self), old(self).spec_len())
                &&& forall|k: int|
                    0 <= k < old(self).spec_archetype().spec_components().len() ==> Some(
                        #[trigger] final(self).spec_value(r.unwrap() as int, k),
                    ) == old(self).bundle_places(bundle)[k]
                &&& final(self).spec_entity(r.unwrap() as int) == entity
            },
            r.is_err() ==> *final(self) == *old(self) && r.unwrap_err().dropped@ == written_ids(
                old(self).spec_archetype().spec_components(),
                old(self).bundle_places(bundle),
            ),
    {
        let ghost places = self.bundle_places(bundle);
        let mut uninit = UninitComponents::new(self.archetype.components());
        bundle.init_components(&mut uninit);
        match uninit.finish() {
            Ok(values) => {
                let row = self.push_row(&values, entity);
                proof {
                    assert forall|k: int|
                        0 <= k < self.spec_archetype().spec_components().len() implies Some(
                        #[trigger] self.spec_value(row as int, k),
                    ) == places[k] by {
                        assert(self.spec_value(row as int, k) == values@[k]@);
                    }
                }
                Ok(row)
            },
            Err(dropped) => Err(IncompleteBundle { dropped }),
        }
    }

    /// Rows held by chunk `j`.
    pub open spec fn spec_rows_in_chunk(&self, j: int) -> int {
        chunk_sizes(self.spec_capacity(), self.spec_len())[j]
    }

    /// Chunk by chunk: the chunk's index and its live row count.
    pub fn chunks(&self) -> (r: Chunks)
        requires
            self.wf(),
        ensures
            r.spec_sizes() == chunk_sizes(self.spec_capacity(), self.spec_len()),
            r.spec_index() == 0,
            r.spec_chunk() == self.spec_capacity(),
    {
        Chunks::new(self.archetype.chunk_capacity(), self.len)
    }

    /// The bytes of column `k` for the live rows of chunk `j`.
    pub fn column_slice(&self, j: usize, k: usize, access: Access) -> (r: ComponentSlice)
        requires
            self.wf(),
            j < self.spec_chunk_count(),
            k < self.spec_archetype().spec_components().len(),
        ensures
            ({
                let c = self.spec_archetype().spec_components()[k as int];
                let rows = self.spec_rows_in_chunk(j as int);
                &&& r.spec_component() == c.id
                &&& r.spec_access() == access
                &&& r.spec_len() == rows
                &&& r.spec_data() == self.spec_chunk(j as int).subrange(c.offset as int, c.offset + rows * c.size)
            }),
    {
        let cap = self.archetype.chunk_capacity();
        let c = self.archetype.components()[k];
        proof {
            lemma_chunked_layout(cap as int, self.len as int);
            assert(self.spec_chunk(j as int).len() == self.archetype.spec_chunk_layout().size);
        }
        let rows = if j + 1 < self.chunks.len() {
            cap
        } else {
            let sizes = self.chunk_sizes();
            match sizes.last() {
                Some(x) => x,
                None => 0,
            }
        };
        proof {
            let n = self.spec_chunk_count();
            assert(chunk_sizes(cap as int, self.len as int).len() == n);
            if j + 1 < n {
                assert(rows == chunk_sizes(cap as int, self.len as int)[j as int]);
            } else {
                assert(chunk_sizes(cap as int, self.len as int).last() == chunk_sizes(cap as int, self.len as int)[j as int]);
            }
            assert(0 <= rows <= cap) by {
                if j + 1 >= n && self.len > 0 {
                    assert(chunk_sizes(cap as int, self.len as int).last() <= cap) by {
                        let l = self.len as int;
                        let cc = cap as int;
                        assert(l % cc < cc) by (nonlinear_arith)
                            requires
                                cc >= 1,
                        ;
                    }
                }
            }
            lemma_cell_in_chunk(self.archetype, k as int, 0);
            assert(rows * c.size <= cap * c.size) by (nonlinear_arith)
                requires
                    rows <= cap,
            ;
        }
        let data = read_bytes(&self.chunks[j], c.offset, rows * c.size);
        ComponentSlice { component: c.id, access, data, len: rows }
    }

    /// Overwrites column `k` of row `row` with `bytes`.
    pub fn set_value(&mut self, row: usize, k: usize, bytes: &Vec<u8>)
        requires
            old(self).wf(),
            row < old(self).spec_len(),
            k < old(self).spec_archetype().spec_components().len(),
            bytes@.len() == old(self).spec_archetype().spec_components()[k as int].size,
        ensures
            final(self).wf(),
            final(self).spec_archetype() == old(self).spec_archetype(),
            final(self).spec_len() == old(self).spec_len(),
            final(self).spec_value(row as int, k as int) == bytes@,
            forall|i: int, k2: int|
                0 <= i < old(self).spec_len() && 0 <= k2 < old(self).spec_archetype().spec_components().len() && (i
                    != row || k2 != k) ==> #[trigger] final(self).spec_value(i, k2) == old(self).spec_value(i, k2),
            forall|i: int| 0 <= i < old(self).spec_len() ==> #[trigger] final(self).spec_entity(i) == old(self).spec_entity(i),
    {
        let cap = self.archetype.chunk_capacity();
        let ghost a = self.archetype;
        let ghost n = a.spec_components().len();
        let c = self.archetype.components()[k];
        let ci = row / cap;
        let ri = row % cap;
        proof {
            lemma_row_split(cap as int, row as int, 0);
            self.lemma_chunk_index(row as int);
            lemma_cell_in_chunk(a, k as int, ri as int);
            assert(self.spec_chunk(ci as int).len() == a.spec_chunk_layout().size);
        }
        let at = c.offset + ri * c.size;
        let ghost before_chunk = self.spec_chunk(ci as int);
        write_bytes(&mut self.chunks[ci], at, bytes);
        proof {
            let after_chunk = self.spec_chunk(ci as int);
            assert forall|j: int| 0 <= j < self.chunks@.len() && j != ci implies #[trigger] self.spec_chunk(j)
                == old(self).spec_chunk(j) by {}
            assert forall|i: int, k2: int|
                0 <= i < old(self).spec_len() && 0 <= k2 < n && (i != row || k2 != k) implies #[trigger] self.spec_value(
                i,
                k2,
            ) == old(self).spec_value(i, k2) by {
                old(self).lemma_chunk_index(i);
                lemma_row_split(cap as int, i, row as int);
                if i / cap as int == ci as int {
                    lemma_cells_disjoint(a, k as int, ri as int, k2, i % cap as int);
                    lemma_cell_in_chunk(a, k2, i % cap as int);
                    let c2 = a.spec_components()[k2];
                    let start = c2.offset + (i % cap as int) * c2.size;
                    lemma_untouched(before_chunk, after_chunk, at as int, c.size as int, start, c2.size as int);
                }
            }
            assert forall|i: int| 0 <= i < old(self).spec_len() implies #[trigger] self.spec_entity(i) == old(self).spec_entity(i) by {
                old(self).lemma_chunk_index(i);
                lemma_row_split(cap as int, i, row as int);
                if i / cap as int == ci as int {
                    lemma_back_cell(a, i % cap as int);
                    let start = (i % cap as int) * BACK_INDEX_SIZE;
                    lemma_untouched(before_chunk, after_chunk, at as int, c.size as int, start, BACK_INDEX_SIZE as int);
                }
            }
            assert forall|j: int| 0 <= j < self.spec_chunk_count() implies (#[trigger] self.spec_chunk(j)).len()
                == self.spec_archetype().spec_chunk_layout().size by {
                if j != ci {
                    assert(self.spec_chunk(j) == old(self).spec_chunk(j));
                }
            }
        }
    }

    /// The slices of component `id`'s column, one per chunk, for `access`;
    /// `None` where the archetype has no such component.
    pub fn access_component(&self, access: Access, id: ComponentId) -> (r: Option<RawArchetypeComponentIter>)
        requires
            self.wf(),
        ensures
            r.is_some() <==> self.spec_ids().contains(id),
            r.is_some() ==> ({
                let k = self.spec_ids().index_of(id);
                let c = self.spec_archetype().spec_components()[k];
                let slices = r.unwrap().spec_slices();
                &&& slices.len() == self.spec_chunk_count()
                &&& forall|j: int|
                    0 <= j < slices.len() ==> {
                        let rows = self.spec_rows_in_chunk(j);
                        &&& (#[trigger] slices[j]).spec_component() == id
                        &&& slices[j].spec_access() == access
                        &&& slices[j].spec_len() == rows
                        &&& slices[j].spec_data() == self.spec_chunk(j).subrange(
                            c.offset as int,
                            c.offset + rows * c.size,
                        )
                    }
            }),
    {
        let k = match self.archetype.component_index(id) {
            None => {
                return None;
            },
            Some(k) => k,
        };
        proof {
            self.archetype.lemma_index_of(k as int);
        }
        let mut slices: Vec<ComponentSlice> = Vec::new();
        let mut j: usize = 0;
        while j < self.chunks.len()
            invariant
                self.wf(),
                0 <= j <= self.spec_chunk_count(),
                k < self.spec_archetype().spec_components().len(),
                self.spec_archetype().spec_components()[k as int].id == id,
                slices@.len() == j,
                forall|x: int|
                    0 <= x < j ==> {
                        let c = self.spec_archetype().spec_components()[k as int];
                        let rows = self.spec_rows_in_chunk(x);
                        &&& (#[trigger] slices@[x]).spec_component() == id
                        &&& slices@[x].spec_access() == access
                        &&& slices@[x].spec_len() == rows
                        &&& slices@[x].spec_data() == self.spec_chunk(x).subrange(
                            c.offset as int,
                            c.offset + rows * c.size,
                        )
                    },
            decreases self.spec_chunk_count() - j,
        {
            slices.push(self.column_slice(j, k, access));
            j = j + 1;
        }
        Some(RawArchetypeComponentIter { slices })
    }
}

/// One column of one chunk: the bytes of the chunk's live rows.
#[derive(Debug)]
pub struct ComponentSlice {
    component: ComponentId,
    access: Access,
    data: Vec<u8>,
    len: usize,
}

impl ComponentSlice {
    pub closed spec fn spec_component(&self) -> ComponentId {
        self.component
    }

    pub closed spec fn spec_access(&self) -> Access {
        self.access
    }

    pub closed spec fn spec_data(&self) -> Seq<u8> {
        self.data@
    }

    pub closed spec fn spec_len(&self) -> int {
        self.len as int
    }

    /// The column's bytes, row after row.
    pub fn raw(&self) -> (r: &Vec<u8>)
        ensures
            r@ == self.spec_data(),
    {
        &self.data
    }

    /// Number of rows.
    pub fn len(&self) -> (r: usize)
        ensures
            r == self.spec_len(),
    {
        self.len
    }

    pub fn component(&self) -> (r: ComponentId)
        ensures
            r == self.spec_component(),
    {
        self.component
    }

    pub fn access(&self) -> (r: Access)
        ensures
            r == self.spec_access(),
    {
        self.access
    }
}

/// The slices of one column, chunk by chunk.
#[derive(Debug)]
pub struct RawArchetypeComponentIter {
    slices: Vec<ComponentSlice>,
}

impl RawArchetypeComponentIter {
    pub closed spec fn spec_slices(&self) -> Seq<ComponentSlice> {
        self.slices@
    }

    /// Number of chunks.
    pub fn len(&self) -> (r: usize)
        ensures
            r == self.spec_slices().len(),
    {
        self.slices.len()
    }

    /// The slice of chunk `j`.
    pub fn get(&self, j: usize) -> (r: &ComponentSlice)
        requires
            j < self.spec_slices().len(),
        ensures
            *r == self.spec_slices()[j as int],
    {
        &self.slices[j]
    }
}

/// Chunks in order, each with its live row count.
#[derive(Debug)]
pub struct Chunks {
    sizes: ChunkSizes,
    index: usize,
}

impl Chunks {
    pub closed spec fn spec_sizes(&self) -> Seq<int> {
        self.sizes@
    }

    pub closed spec fn spec_index(&self) -> int {
        self.index as int
    }

    /// Rows per chunk.
    pub closed spec fn spec_chunk(&self) -> int {
        self.sizes.spec_chunk()
    }

    /// The chunks holding `len` rows, `chunk` rows per chunk.
    pub fn new(chunk: usize, len: usize) -> (r: Chunks)
        requires
            chunk >= 1,
        ensures
            r.spec_sizes() == chunk_sizes(chunk as int, len as int),
            r.spec_index() == 0,
            r.spec_chunk() == chunk,
    {
        Chunks { sizes: ChunkSizes::new(chunk, len), index: 0 }
    }

    /// The next chunk's index and live row count.
    pub fn next(&mut self) -> (r: Option<(usize, usize)>)
        requires
            old(self).spec_chunk() >= 1,
            old(self).spec_index() + old(self).spec_sizes().len() <= usize::MAX,
        ensures
            final(self).spec_chunk() == old(self).spec_chunk(),
            old(self).spec_sizes().len() == 0 ==> r.is_none(),
            old(self).spec_sizes().len() > 0 ==> r == Some((old(self).spec_index() as usize, old(self).spec_sizes()[0] as usize))
                && final(self).spec_sizes() == old(self).spec_sizes().drop_first() && final(self).spec_index()
                == old(self).spec_index() + 1,
    {
        match self.sizes.next() {
            None => None,
            Some(rows) => {
                let i = self.index;
                self.index = self.index + 1;
                Some((i, rows))
            },
        }
    }
}

} // verus!
