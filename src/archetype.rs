//! Archetype descriptors: the sorted components of one signature and the
//! layout of the chunks that hold its rows.

use vstd::prelude::*;
use crate::component::{is_pow2, ComponentId, ComponentInfo, Layout, MAX_ALIGN};

verus! {

/// Bytes taken by one entry of a chunk's back-index column.
pub const BACK_INDEX_SIZE: usize = 8;

/// Alignment of the back-index column.
pub const BACK_INDEX_ALIGN: usize = 8;

/// Default smallest chunk size in bytes.
pub const DEFAULT_CHUNK_LOWER_LIMIT: usize = 512;

/// Default largest chunk size in bytes.
pub const DEFAULT_CHUNK_UPPER_LIMIT: usize = 65536;

/// Largest chunk size that may be configured.
pub const MAX_CHUNK_SIZE: usize = 1073741824;

/// Entity index stored in a chunk's back-index column.
#[derive(Clone, Copy, Debug, PartialEq, Eq, Structural)]
pub struct EntityIndex(pub u64);

/// The number the decimal digits `t` denote.
pub open spec fn digits_value(t: Seq<char>) -> int
    decreases t.len(),
{
    if t.len() == 0 {
        0
    } else {
        digits_value(t.drop_last()) * 10 + (t.last() as u32 - '0' as u32)
    }
}

/// What `str::parse::<usize>` accepts: an optional `+`, then one or more
/// ASCII digits, denoting a number that fits `usize`.
pub open spec fn parsed_usize(s: Seq<char>) -> Option<usize> {
    let t = if s.len() > 0 && s[0] == '+' {
        s.drop_first()
    } else {
        s
    };
    if t.len() > 0 && (forall|i: int| 0 <= i < t.len() ==> '0' <= #[trigger] t[i] <= '9') && digits_value(t)
        <= usize::MAX {
        Some(digits_value(t) as usize)
    } else {
        None
    }
}

/// Relies on `str::parse::<usize>`, which reads an optional `+` and then
/// decimal digits, and fails on anything else and on overflow.
#[verifier::external_body]
fn parse_usize(s: &str) -> (r: Option<usize>)
    ensures
        r == parsed_usize(s@),
{
    s.parse::<usize>().ok()
}

/// The configured smallest chunk size: `setting` where it is a number,
/// else 512.
pub fn chunk_lower_limit(setting: Option<&str>) -> (r: usize)
    ensures
        r == match setting {
            Some(s) => match parsed_usize(s@) {
                Some(v) => v,
                None => DEFAULT_CHUNK_LOWER_LIMIT,
            },
            None => DEFAULT_CHUNK_LOWER_LIMIT,
        },
{
    match setting {
        Some(s) => match parse_usize(s) {
            Some(v) => v,
            None => DEFAULT_CHUNK_LOWER_LIMIT,
        },
        None => DEFAULT_CHUNK_LOWER_LIMIT,
    }
}

/// The configured largest chunk size: `setting` where it is a number,
/// else 65536.
pub fn chunk_upper_limit(setting: Option<&str>) -> (r: usize)
    ensures
        r == match setting {
            Some(s) => match parsed_usize(s@) {
                Some(v) => v,
                None => DEFAULT_CHUNK_UPPER_LIMIT,
            },
            None => DEFAULT_CHUNK_UPPER_LIMIT,
        },
{
    match setting {
        Some(s) => match parse_usize(s) {
            Some(v) => v,
            None => DEFAULT_CHUNK_UPPER_LIMIT,
        },
        None => DEFAULT_CHUNK_UPPER_LIMIT,
    }
}

/// Bounds on the size of one chunk, in bytes.
#[derive(Clone, Copy, Debug)]
pub struct ChunkLimits {
    lower: usize,
    upper: usize,
}

impl ChunkLimits {
    #[verifier::type_invariant]
    spec fn bounds_are_ordered(self) -> bool {
        1 <= self.lower <= self.upper <= MAX_CHUNK_SIZE
    }

    pub closed spec fn spec_lower(self) -> int {
        self.lower as int
    }

    pub closed spec fn spec_upper(self) -> int {
        self.upper as int
    }

    /// Limits of `lower` to `upper` bytes; `None` unless
    /// `1 <= lower <= upper <= MAX_CHUNK_SIZE`.
    pub fn new(lower: usize, upper: usize) -> (r: Option<ChunkLimits>)
        ensures
            r.is_some() <==> 1 <= lower <= upper <= MAX_CHUNK_SIZE,
            r.is_some() ==> r.unwrap().spec_lower() == lower && r.unwrap().spec_upper() == upper,
    {
        if 1 <= lower && lower <= upper && upper <= MAX_CHUNK_SIZE {
            Some(ChunkLimits { lower, upper })
        } else {
            None
        }
    }

    /// The default limits: 512 to 65536 bytes.
    pub fn standard() -> (r: ChunkLimits)
        ensures
            r.spec_lower() == DEFAULT_CHUNK_LOWER_LIMIT,
            r.spec_upper() == DEFAULT_CHUNK_UPPER_LIMIT,
    {
        ChunkLimits { lower: DEFAULT_CHUNK_LOWER_LIMIT, upper: DEFAULT_CHUNK_UPPER_LIMIT }
    }

    /// Limits from the two settings, as `chunk_lower_limit` and
    /// `chunk_upper_limit` read them; the default limits where the pair is
    /// not valid.
    pub fn from_settings(lower: Option<&str>, upper: Option<&str>) -> (r: ChunkLimits)
        ensures
            ({
                let lo = match lower {
                    Some(s) => match parsed_usize(s@) {
                        Some(v) => v,
                        None => DEFAULT_CHUNK_LOWER_LIMIT,
                    },
                    None => DEFAULT_CHUNK_LOWER_LIMIT,
                };
                let hi = match upper {
                    Some(s) => match parsed_usize(s@) {
                        Some(v) => v,
                        None => DEFAULT_CHUNK_UPPER_LIMIT,
                    },
                    None => DEFAULT_CHUNK_UPPER_LIMIT,
                };
                if 1 <= lo <= hi <= MAX_CHUNK_SIZE {
                    r.spec_lower() == lo && r.spec_upper() == hi
                } else {
                    r.spec_lower() == DEFAULT_CHUNK_LOWER_LIMIT && r.spec_upper() == DEFAULT_CHUNK_UPPER_LIMIT
                }
            }),
    {
        let lo = chunk_lower_limit(lower);
        let hi = chunk_upper_limit(upper);
        match ChunkLimits::new(lo, hi) {
            Some(limits) => limits,
            None => ChunkLimits::standard(),
        }
    }

    pub fn lower(&self) -> (r: usize)
        ensures
            r == self.spec_lower(),
            1 <= r <= self.spec_upper() <= MAX_CHUNK_SIZE,
    {
        proof {
            use_type_invariant(self);
        }
        self.lower
    }

    pub fn upper(&self) -> (r: usize)
        ensures
            r == self.spec_upper(),
            1 <= self.spec_lower() <= r <= MAX_CHUNK_SIZE,
    {
        proof {
            use_type_invariant(self);
        }
        self.upper
    }
}

/// One column of an archetype: the component and where its column starts.
#[derive(Clone, Copy, Debug)]
pub struct Component {
    pub id: ComponentId,
    pub offset: usize,
    pub size: usize,
    pub align: usize,
    pub name: &'static str,
}

#[derive(Clone, Copy, Debug, PartialEq, Eq, Structural)]
pub enum ArchetypeError {
    /// The entity does not fit in a chunk under the configured limits.
    EntityIsTooLarge,
}

/// Total size of the components in `s`.
pub open spec fn sum_sizes(s: Seq<ComponentInfo>) -> int
    decreases s.len(),
{
    if s.len() == 0 {
        0
    } else {
        sum_sizes(s.drop_last()) + s.last().spec_layout().size
    }
}

/// Alignment needed by a row: the largest alignment in `s` and of the back index.
pub open spec fn max_align(s: Seq<ComponentInfo>) -> int
    decreases s.len(),
{
    if s.len() == 0 {
        BACK_INDEX_ALIGN as int
    } else {
        let m = max_align(s.drop_last());
        let a = s.last().spec_layout().align as int;
        if a > m {
            a
        } else {
            m
        }
    }
}

/// Bytes taken by one row: its back-index entry and its components.
pub open spec fn entity_size(s: Seq<ComponentInfo>) -> int {
    BACK_INDEX_SIZE + sum_sizes(s)
}

/// `x` rounded up to a multiple of `a`.
pub open spec fn align_up(x: int, a: int) -> int {
    ((x + a - 1) / a) * a
}

/// Where the columns before `s[k]` end in a chunk of `c` rows: the
/// back-index column comes first, then each column in the order of `s`,
/// starting at the next multiple of its alignment.
pub open spec fn col_end(s: Seq<ComponentInfo>, c: int, k: int) -> int
    decreases k, 0int,
{
    if k <= 0 {
        c * BACK_INDEX_SIZE
    } else {
        column_offset(s, c, k - 1) + c * s[k - 1].spec_layout().size
    }
}

/// Byte offset of the column of `s[k]` in a chunk of `c` rows.
pub open spec fn column_offset(s: Seq<ComponentInfo>, c: int, k: int) -> int
    decreases k, 1int,
{
    align_up(col_end(s, c, k), s[k].spec_layout().align as int)
}

/// Bytes a chunk of `c` rows of the archetype of `s` takes.
pub open spec fn chunk_end(s: Seq<ComponentInfo>, c: int) -> int {
    col_end(s, c, s.len() as int)
}

/// Rows per chunk, from `c` on by doubling: stop once the chunk reaches the
/// lower limit, or where doubling again would pass the upper limit.
pub open spec fn capacity_from(s: Seq<ComponentInfo>, c: int, lower: int, upper: int) -> int
    decreases 2 * upper - c,
{
    if c < 1 || c >= upper || chunk_end(s, c) >= lower || chunk_end(s, 2 * c) > upper {
        c
    } else {
        capacity_from(s, 2 * c, lower, upper)
    }
}

/// Rows per chunk of the archetype of `s`: the smallest power of two whose
/// chunk reaches the lower limit, or the largest whose chunk stays within
/// the upper limit, whichever is smaller; at least one.
pub open spec fn capacity_of(s: Seq<ComponentInfo>, limits: ChunkLimits) -> int {
    capacity_from(s, 1, limits.spec_lower(), limits.spec_upper())
}

/// A chunk of one row of the archetype of `s` stays within the upper limit.
pub open spec fn layout_fits(s: Seq<ComponentInfo>, limits: ChunkLimits) -> bool {
    chunk_end(s, 1) <= limits.spec_upper()
}

/// Every layout in `s` is well formed.
pub open spec fn valid_layouts(s: Seq<ComponentInfo>) -> bool {
    forall|i: int| 0 <= i < s.len() ==> (#[trigger] s[i]).spec_layout().wf()
}

/// Identifiers strictly increase along `s`.
pub open spec fn sorted_by_id(s: Seq<ComponentInfo>) -> bool {
    forall|i: int, j: int| 0 <= i < j < s.len() ==> s[i].spec_id().0 < s[j].spec_id().0
}

/// Identifiers of the components in `s`, in order.
pub open spec fn ids_of(s: Seq<ComponentInfo>) -> Seq<ComponentId> {
    s.map_values(|c: ComponentInfo| c.spec_id())
}

/// Column `c` is the column of `info` starting at `offset`.
pub open spec fn column_matches(c: Component, info: ComponentInfo, offset: int) -> bool {
    &&& c.id == info.spec_id()
    &&& c.offset == offset
    &&& c.size == info.spec_layout().size
    &&& c.align == info.spec_layout().align
    &&& c.name@ == info.spec_name()
}

proof fn lemma_take_step(s: Seq<ComponentInfo>, k: int)
    requires
        0 <= k < s.len(),
    ensures
        s.take(k + 1).drop_last() == s.take(k),
        s.take(k + 1).last() == s[k],
        sum_sizes(s.take(k + 1)) == sum_sizes(s.take(k)) + s[k].spec_layout().size,
        max_align(s.take(k + 1)) == if s[k].spec_layout().align as int > max_align(s.take(k)) {
            s[k].spec_layout().align as int
        } else {
            max_align(s.take(k))
        },
{
    assert(s.take(k + 1).drop_last() =~= s.take(k));
}

proof fn lemma_sum_prefix_le(s: Seq<ComponentInfo>, k: int)
    requires
        0 <= k <= s.len(),
    ensures
        0 <= sum_sizes(s.take(k)) <= sum_sizes(s),
    decreases s.len() - k,
{
    if k == s.len() {
        assert(s.take(k) =~= s);
        lemma_sum_nonneg(s);
    } else {
        lemma_take_step(s, k);
        lemma_sum_prefix_le(s, k + 1);
        lemma_sum_nonneg(s.take(k));
    }
}

proof fn lemma_sum_nonneg(s: Seq<ComponentInfo>)
    ensures
        sum_sizes(s) >= 0,
    decreases s.len(),
{
    if s.len() > 0 {
        lemma_sum_nonneg(s.drop_last());
    }
}

proof fn lemma_max_align_pow2(s: Seq<ComponentInfo>)
    requires
        forall|i: int| 0 <= i < s.len() ==> (#[trigger] s[i]).spec_layout().wf(),
    ensures
        is_pow2(max_align(s)),
        BACK_INDEX_ALIGN <= max_align(s) <= MAX_ALIGN,
        forall|i: int| 0 <= i < s.len() ==> (#[trigger] s[i]).spec_layout().align <= max_align(s),
    decreases s.len(),
{
    if s.len() == 0 {
        assert(is_pow2(1));
        assert(is_pow2(2));
        assert(is_pow2(4));
        assert(is_pow2(8));
    } else {
        let t = s.drop_last();
        assert forall|i: int| 0 <= i < t.len() implies (#[trigger] t[i]).spec_layout().wf() by {
            assert(t[i] == s[i]);
        }
        lemma_max_align_pow2(t);
        assert(s.last() == s[s.len() - 1]);
        assert forall|i: int| 0 <= i < s.len() implies (#[trigger] s[i]).spec_layout().align
            <= max_align(s) by {
            if i < s.len() - 1 {
                assert(t[i] == s[i]);
            }
        }
    }
}


proof fn lemma_pow2_ge1(n: int)
    requires
        is_pow2(n),
    ensures
        n >= 1,
{
}

proof fn lemma_align_up(x: int, a: int)
    requires
        x >= 0,
        a >= 1,
    ensures
        x <= align_up(x, a) < x + a,
        align_up(x, a) % a == 0,
{
    let q = (x + a - 1) / a;
    assert(x <= q * a < x + a) by (nonlinear_arith)
        requires
            a >= 1,
            x >= 0,
            q == (x + a - 1) / a,
    ;
    vstd::arithmetic::div_mod::lemma_mod_multiples_basic(q, a);
}

/// One column: it starts at or after where the previous ones end, aligned,
/// and the next ones start after it.
proof fn lemma_column_step(s: Seq<ComponentInfo>, c: int, k: int)
    requires
        valid_layouts(s),
        c >= 1,
        0 <= k < s.len(),
    ensures
        c * BACK_INDEX_SIZE <= col_end(s, c, k) <= column_offset(s, c, k),
        column_offset(s, c, k) % (s[k].spec_layout().align as int) == 0,
        col_end(s, c, k + 1) == column_offset(s, c, k) + c * s[k].spec_layout().size,
        column_offset(s, c, k) <= col_end(s, c, k + 1),
    decreases k,
{
    let a = s[k].spec_layout().align as int;
    lemma_pow2_ge1(a);
    if k > 0 {
        lemma_column_step(s, c, k - 1);
    }
    lemma_align_up(col_end(s, c, k), a);
    assert(0 <= c * s[k].spec_layout().size) by (nonlinear_arith)
        requires
            c >= 1,
    ;
}

proof fn lemma_col_end_le(s: Seq<ComponentInfo>, c: int, k: int, m: int)
    requires
        valid_layouts(s),
        c >= 1,
        0 <= k <= m <= s.len(),
    ensures
        col_end(s, c, k) <= col_end(s, c, m),
    decreases m - k,
{
    if k < m {
        lemma_column_step(s, c, k);
        lemma_col_end_le(s, c, k + 1, m);
    }
}

/// A row with no padding is no larger than a one-row chunk.
proof fn lemma_row_le_end(s: Seq<ComponentInfo>, k: int)
    requires
        valid_layouts(s),
        0 <= k <= s.len(),
    ensures
        BACK_INDEX_SIZE + sum_sizes(s.take(k)) <= col_end(s, 1, k),
    decreases k,
{
    if k > 0 {
        lemma_row_le_end(s, k - 1);
        lemma_take_step(s, k - 1);
        lemma_column_step(s, 1, k - 1);
    } else {
        assert(s.take(0) =~= Seq::<ComponentInfo>::empty());
    }
}

fn check_layouts(s: &Vec<ComponentInfo>)
    ensures
        valid_layouts(s@),
{
    let mut i: usize = 0;
    while i < s.len()
        invariant
            0 <= i <= s@.len(),
            forall|j: int| 0 <= j < i ==> (#[trigger] s@[j]).spec_layout().wf(),
        decreases s@.len() - i,
    {
        let _ = s[i].layout();
        i = i + 1;
    }
}

/// Bytes a chunk of `c` rows takes, where that is within `upper`.
fn chunk_end_exec(s: &Vec<ComponentInfo>, c: usize, upper: usize) -> (r: Option<usize>)
    requires
        valid_layouts(s@),
        1 <= c,
        upper <= MAX_CHUNK_SIZE,
    ensures
        r.is_some() <==> chunk_end(s@, c as int) <= upper,
        r.is_some() ==> r.unwrap() == chunk_end(s@, c as int),
{
    let n = s.len();
    proof {
        lemma_col_end_le(s@, c as int, 0, n as int);
    }
    if c > upper / BACK_INDEX_SIZE {
        assert(c * BACK_INDEX_SIZE > upper) by (nonlinear_arith)
            requires
                c > upper / 8,
        ;
        return None;
    }
    assert(c * BACK_INDEX_SIZE <= upper) by (nonlinear_arith)
        requires
            c <= upper / 8,
    ;
    let mut end: usize = c * BACK_INDEX_SIZE;
    let mut k: usize = 0;
    while k < n
        invariant
            0 <= k <= n,
            n == s@.len(),
            valid_layouts(s@),
            1 <= c,
            upper <= MAX_CHUNK_SIZE,
            end == col_end(s@, c as int, k as int),
            end <= upper,
        decreases n - k,
    {
        let l = s[k].layout();
        let a = l.align;
        proof {
            lemma_column_step(s@, c as int, k as int);
            lemma_col_end_le(s@, c as int, k + 1, n as int);
            lemma_pow2_ge1(a as int);
        }
        assert(a <= MAX_ALIGN);
        assert(((end + a - 1) / (a as int)) * a <= end + a) by (nonlinear_arith)
            requires
                a >= 1,
                end >= 0,
        ;
        let off = (end + a - 1) / a * a;
        assert(off == column_offset(s@, c as int, k as int));
        if off > upper {
            return None;
        }
        if l.size > (upper - off) / c {
            assert(c * l.size > upper - off) by (nonlinear_arith)
                requires
                    l.size > (upper - off) / (c as int),
                    c >= 1,
                    off <= upper,
            ;
            return None;
        }
        assert(c * l.size <= upper - off) by (nonlinear_arith)
            requires
                l.size <= (upper - off) / (c as int),
                c >= 1,
                off <= upper,
        ;
        end = off + c * l.size;
        k = k + 1;
    }
    Some(end)
}

/// Rows per chunk of the archetype of the components `s`, in order: see
/// `capacity_of`. `None` where not even one row fits under the upper limit.
pub fn chunk_capacity(s: &Vec<ComponentInfo>, limits: &ChunkLimits) -> (r: Option<usize>)
    ensures
        r.is_some() <==> layout_fits(s@, *limits),
        r.is_some() ==> r.unwrap() == capacity_of(s@, *limits) && chunk_end(s@, r.unwrap() as int)
            <= limits.spec_upper() && r.unwrap() >= 1,
{
    check_layouts(s);
    let lower = limits.lower();
    let upper = limits.upper();
    let n = s.len();
    let mut e = match chunk_end_exec(s, 1, upper) {
        None => {
            return None;
        },
        Some(e) => e,
    };
    proof {
        lemma_col_end_le(s@, 1, 0, n as int);
    }
    let mut c: usize = 1;
    let mut stop = false;
    while !stop
        invariant
            valid_layouts(s@),
            n == s@.len(),
            1 <= c,
            lower == limits.spec_lower(),
            upper == limits.spec_upper(),
            1 <= lower <= upper <= MAX_CHUNK_SIZE,
            e == chunk_end(s@, c as int),
            e <= upper,
            c * BACK_INDEX_SIZE <= e,
            capacity_from(s@, c as int, lower as int, upper as int) == capacity_of(s@, *limits),
            stop ==> capacity_from(s@, c as int, lower as int, upper as int) == c,
        decreases upper - c, if stop { 0int } else { 1int },
    {
        if e >= lower {
            stop = true;
        } else {
            match chunk_end_exec(s, 2 * c, upper) {
                None => {
                    stop = true;
                },
                Some(e2) => {
                    proof {
                        lemma_col_end_le(s@, 2 * c, 0, n as int);
                    }
                    c = 2 * c;
                    e = e2;
                },
            }
        }
    }
    Some(c)
}

/// Descriptor of one component signature: its columns sorted by identifier,
/// the size and alignment of a row, rows per chunk and the chunk layout.
#[derive(Debug)]
pub struct Archetype {
    components: Vec<Component>,
    entity_size: usize,
    entity_align: usize,
    chunk_capacity: usize,
    chunk_layout: Layout,
}

impl Archetype {
    pub closed spec fn spec_components(&self) -> Seq<Component> {
        self.components@
    }

    pub closed spec fn spec_entity_size(&self) -> int {
        self.entity_size as int
    }

    pub closed spec fn spec_entity_align(&self) -> int {
        self.entity_align as int
    }

    pub closed spec fn spec_capacity(&self) -> int {
        self.chunk_capacity as int
    }

    pub closed spec fn spec_chunk_layout(&self) -> Layout {
        self.chunk_layout
    }

    /// Identifiers of the columns, in order.
    pub open spec fn spec_ids(&self) -> Seq<ComponentId> {
        self.spec_components().map_values(|c: Component| c.id)
    }

    /// This is the archetype of the sorted components `s` under `limits`.
    /// This is the archetype of the sorted components `s` under `limits`.
    pub open spec fn describes(&self, s: Seq<ComponentInfo>, limits: ChunkLimits) -> bool {
        let cap = capacity_of(s, limits);
        &&& self.spec_components().len() == s.len()
        &&& forall|k: int|
            0 <= k < s.len() ==> column_matches(
                #[trigger] self.spec_components()[k],
                s[k],
                column_offset(s, cap, k),
            )
        &&& self.spec_entity_size() == entity_size(s)
        &&& self.spec_entity_align() == max_align(s)
        &&& self.spec_capacity() == cap
        &&& self.spec_chunk_layout() == (Layout { size: chunk_end(s, cap) as usize, align: max_align(s) as usize })
    }

    /// Well-formed descriptor: what `new` establishes, over the descriptor
    /// alone. The back-index column comes first; the columns are sorted by
    /// identifier, lie inside the chunk without overlapping, and start at a
    /// multiple of their alignment; the chunk is aligned for every column.
    pub open spec fn wf(&self) -> bool {
        let cap = self.spec_capacity();
        let layout = self.spec_chunk_layout();
        &&& 1 <= cap
        &&& self.spec_entity_size() >= BACK_INDEX_SIZE
        &&& cap * BACK_INDEX_SIZE <= layout.size <= MAX_CHUNK_SIZE
        &&& is_pow2(layout.align as int)
        &&& BACK_INDEX_ALIGN <= layout.align <= MAX_ALIGN
        &&& forall|i: int, j: int|
            0 <= i < j < self.spec_components().len() ==> (#[trigger] self.spec_components()[i]).id.0
                < (#[trigger] self.spec_components()[j]).id.0
        &&& forall|k: int|
            0 <= k < self.spec_components().len() ==> {
                let c = #[trigger] self.spec_components()[k];
                &&& cap * BACK_INDEX_SIZE <= c.offset
                &&& c.offset + cap * c.size <= layout.size
                &&& is_pow2(c.align as int)
                &&& c.align <= layout.align
                &&& (c.offset as int) % (c.align as int) == 0
            }
        &&& forall|i: int, j: int|
            0 <= i < j < self.spec_components().len() ==> (#[trigger] self.spec_components()[i]).offset
                + cap * self.spec_components()[i].size <= (#[trigger] self.spec_components()[j]).offset
    }

    /// Columns of the archetype, sorted by identifier.
    pub fn components(&self) -> (r: &Vec<Component>)
        ensures
            r@ == self.spec_components(),
    {
        &self.components
    }

    /// Identifiers of the columns, in order.
    pub fn ids(&self) -> (r: Vec<ComponentId>)
        ensures
            r@ == self.spec_ids(),
    {
        let mut r: Vec<ComponentId> = Vec::new();
        let mut i: usize = 0;
        while i < self.components.len()
            invariant
                0 <= i <= self.components@.len(),
                r@ =~= self.spec_ids().take(i as int),
            decreases self.components@.len() - i,
        {
            r.push(self.components[i].id);
            i = i + 1;
        }
        assert(self.spec_ids().take(i as int) =~= self.spec_ids());
        r
    }

    /// Display names of the columns, in order.
    pub fn names(&self) -> (r: Vec<&'static str>)
        ensures
            r@.len() == self.spec_components().len(),
            forall|k: int| 0 <= k < r@.len() ==> r@[k] == self.spec_components()[k].name,
    {
        let mut r: Vec<&'static str> = Vec::new();
        let mut i: usize = 0;
        while i < self.components.len()
            invariant
                0 <= i <= self.components@.len(),
                r@.len() == i,
                forall|k: int| 0 <= k < i ==> r@[k] == self.components@[k].name,
            decreases self.components@.len() - i,
        {
            r.push(self.components[i].name);
            i = i + 1;
        }
        r
    }

    /// Rows per chunk.
    pub fn chunk_capacity(&self) -> (r: usize)
        ensures
            r == self.spec_capacity(),
    {
        self.chunk_capacity
    }

    /// Size and alignment of one chunk.
    pub fn chunk_layout(&self) -> (r: Layout)
        ensures
            r == self.spec_chunk_layout(),
    {
        self.chunk_layout
    }

    /// Bytes taken by one row, its back-index entry included.
    pub fn entity_size(&self) -> (r: usize)
        ensures
            r == self.spec_entity_size(),
    {
        self.entity_size
    }

    /// Position of the column of `id`, if the archetype has it.
    pub fn component_index(&self, id: ComponentId) -> (r: Option<usize>)
        ensures
            r.is_some() <==> self.spec_ids().contains(id),
            r.is_some() ==> r.unwrap() < self.spec_components().len()
                && self.spec_components()[r.unwrap() as int].id == id,
    {
        let mut i: usize = 0;
        while i < self.components.len()
            invariant
                0 <= i <= self.components@.len(),
                forall|k: int| 0 <= k < i ==> (#[trigger] self.components@[k]).id != id,
            decreases self.components@.len() - i,
        {
            if self.components[i].id.0 == id.0 {
                assert(self.spec_ids()[i as int] == id);
                return Some(i);
            }
            i = i + 1;
        }
        assert(!self.spec_ids().contains(id)) by {
            if self.spec_ids().contains(id) {
                let k = choose|k: int| 0 <= k < self.spec_ids().len() && self.spec_ids()[k] == id;
                assert(self.components@[k].id == id);
            }
        }
        None
    }

    /// Returns true if the archetype has the component `id`.
    pub fn has(&self, id: ComponentId) -> (r: bool)
        ensures
            r == self.spec_ids().contains(id),
    {
        self.component_index(id).is_some()
    }

    /// Offset of the column of `id` in a chunk, if the archetype has it.
    pub fn component_offset(&self, id: ComponentId) -> (r: Option<usize>)
        requires
            self.wf(),
        ensures
            r.is_some() <==> self.spec_ids().contains(id),
            r.is_some() ==> r.unwrap() == self.spec_components()[self.spec_ids().index_of(id)].offset,
    {
        match self.component_index(id) {
            Some(k) => {
                proof {
                    self.lemma_index_of(k as int);
                }
                Some(self.components[k].offset)
            },
            None => None,
        }
    }

    /// Identifiers are unique, so the column of `id` is the one at `k`.
    pub proof fn lemma_index_of(&self, k: int)
        requires
            self.wf(),
            0 <= k < self.spec_components().len(),
        ensures
            self.spec_ids().contains(self.spec_components()[k].id),
            self.spec_ids().index_of(self.spec_components()[k].id) == k,
    {
        let id = self.spec_components()[k].id;
        assert(self.spec_ids()[k] == id);
        let j = self.spec_ids().index_of(id);
        if j != k {
            if j < k {
                assert(self.spec_components()[j].id.0 < self.spec_components()[k].id.0);
            } else {
                assert(self.spec_components()[k].id.0 < self.spec_components()[j].id.0);
            }
        }
    }

    /// Returns true if the archetype's columns are exactly `ids`, in order.
    pub fn is(&self, ids: &Vec<ComponentId>) -> (r: bool)
        ensures
            r == (ids@ == self.spec_ids()),
    {
        if ids.len() != self.components.len() {
            return false;
        }
        let mut i: usize = 0;
        while i < ids.len()
            invariant
                ids@.len() == self.components@.len(),
                0 <= i <= ids@.len(),
                forall|k: int| 0 <= k < i ==> ids@[k] == self.spec_ids()[k],
            decreases ids@.len() - i,
        {
            if ids[i].0 != self.components[i].id.0 {
                return false;
            }
            i = i + 1;
        }
        assert(ids@ =~= self.spec_ids());
        true
    }

    /// Builds the descriptor of the components `infos`, which may come in
    /// any order: they are sorted by identifier. Fails with
    /// `EntityIsTooLarge` exactly where a chunk of one row, its columns
    /// aligned, exceeds the upper limit.
    pub fn new(infos: &Vec<ComponentInfo>, limits: &ChunkLimits) -> (r: Result<Archetype, ArchetypeError>)
        requires
            distinct_ids(infos@),
        ensures
            forall|s: Seq<ComponentInfo>|
                sorted_by_id(s) && s.to_multiset() == infos@.to_multiset() ==> (r.is_ok() <==> layout_fits(
                    s,
                    *limits,
                )) && (r.is_ok() ==> r.unwrap().describes(s, *limits)),
            r.is_ok() ==> r.unwrap().wf(),
            r.is_err() ==> r == Err::<Archetype, ArchetypeError>(ArchetypeError::EntityIsTooLarge),
    {
        let sorted = sort_components(infos);
        let ghost s = sorted@;
        proof {
            assert forall|t: Seq<ComponentInfo>| sorted_by_id(t) && t.to_multiset() == infos@.to_multiset() implies t
                == s by {
                lemma_sorted_unique(t, s);
            }
        }
        check_layouts(&sorted);
        let upper = limits.upper();
        let cap = match chunk_capacity(&sorted, limits) {
            None => {
                return Err(ArchetypeError::EntityIsTooLarge);
            },
            Some(c) => c,
        };
        let n = sorted.len();
        proof {
            lemma_max_align_pow2(s);
        }
        // Row size and alignment.
        let mut acc: usize = BACK_INDEX_SIZE;
        let mut align: usize = BACK_INDEX_ALIGN;
        let mut i: usize = 0;
        assert(s.take(0) =~= Seq::<ComponentInfo>::empty());
        while i < n
            invariant
                n == s.len(),
                s == sorted@,
                valid_layouts(s),
                layout_fits(s, *limits),
                upper == limits.spec_upper() <= MAX_CHUNK_SIZE,
                0 <= i <= n,
                acc == entity_size(s.take(i as int)),
                align == max_align(s.take(i as int)),
                BACK_INDEX_ALIGN <= align <= MAX_ALIGN,
            decreases n - i,
        {
            let layout = sorted[i].layout();
            proof {
                lemma_take_step(s, i as int);
                lemma_row_le_end(s, i + 1);
                lemma_col_end_le(s, 1, i + 1, n as int);
            }
            acc = acc + layout.size;
            if layout.align > align {
                align = layout.align;
            }
            i = i + 1;
        }
        assert(s.take(n as int) =~= s);
        let chunk_size = chunk_end_exec(&sorted, cap, upper).unwrap();
        proof {
            lemma_col_end_le(s, cap as int, 0, n as int);
        }
        // Columns.
        let mut components: Vec<Component> = Vec::new();
        let mut end: usize = cap * BACK_INDEX_SIZE;
        let mut k: usize = 0;
        while k < n
            invariant
                n == s.len(),
                s == sorted@,
                valid_layouts(s),
                0 <= k <= n,
                cap >= 1,
                cap == capacity_of(s, *limits),
                chunk_size == chunk_end(s, cap as int),
                chunk_size <= MAX_CHUNK_SIZE,
                end == col_end(s, cap as int, k as int),
                cap * BACK_INDEX_SIZE <= end <= chunk_size,
                align == max_align(s),
                forall|j: int| 0 <= j < n ==> (#[trigger] s[j]).spec_layout().align <= align,
                components@.len() == k,
                forall|j: int|
                    0 <= j < k ==> column_matches(#[trigger] components@[j], s[j], column_offset(s, cap as int, j)),
                forall|j: int|
                    0 <= j < k ==> {
                        let c = #[trigger] components@[j];
                        &&& cap * BACK_INDEX_SIZE <= c.offset
                        &&& c.offset + cap * c.size <= end
                        &&& is_pow2(c.align as int)
                        &&& c.align <= align
                        &&& (c.offset as int) % (c.align as int) == 0
                    },
                forall|a: int, b: int|
                    0 <= a < b < k ==> (#[trigger] components@[a]).offset + cap * components@[a].size
                        <= (#[trigger] components@[b]).offset,
            decreases n - k,
        {
            let info = sorted[k];
            let layout = info.layout();
            proof {
                lemma_column_step(s, cap as int, k as int);
                lemma_col_end_le(s, cap as int, k + 1, n as int);
                lemma_pow2_ge1(layout.align as int);
            }
            assert(((end + layout.align - 1) / (layout.align as int)) * layout.align <= end + layout.align) by (nonlinear_arith)
                requires
                    layout.align >= 1,
                    end >= 0,
            ;
            let offset = (end + layout.align - 1) / layout.align * layout.align;
            assert(offset == column_offset(s, cap as int, k as int));
            let ghost old_end = end as int;
            components.push(
                Component { id: info.id(), offset, size: layout.size, align: layout.align, name: info.name() },
            );
            end = offset + cap * layout.size;
            k = k + 1;
            proof {
                assert forall|j: int| 0 <= j < k implies {
                    let c = #[trigger] components@[j];
                    &&& cap * BACK_INDEX_SIZE <= c.offset
                    &&& c.offset + cap * c.size <= end
                    &&& is_pow2(c.align as int)
                    &&& c.align <= align
                    &&& (c.offset as int) % (c.align as int) == 0
                } by {}
                assert forall|a: int, b: int| 0 <= a < b < k implies (#[trigger] components@[a]).offset + cap
                    * components@[a].size <= (#[trigger] components@[b]).offset by {}
            }
        }
        proof {
            lemma_row_le_end(s, 0);
            assert(end == chunk_size);
            assert(acc >= BACK_INDEX_SIZE) by {
                lemma_sum_nonneg(s);
            }
        }
        let chunk_layout = Layout { size: chunk_size, align };
        let r = Archetype { components, entity_size: acc, entity_align: align, chunk_capacity: cap, chunk_layout };
        assert forall|i: int, j: int|
            0 <= i < j < r.spec_components().len() implies (#[trigger] r.spec_components()[i]).id.0
            < (#[trigger] r.spec_components()[j]).id.0 by {
            assert(r.spec_components()[i].id == s[i].spec_id());
            assert(r.spec_components()[j].id == s[j].spec_id());
        }
        Ok(r)
    }

}

/// Identifiers in `s` are pairwise distinct.
pub open spec fn distinct_ids(s: Seq<ComponentInfo>) -> bool {
    forall|i: int, j: int|
        0 <= i < s.len() && 0 <= j < s.len() && i != j ==> s[i].spec_id() != s[j].spec_id()
}

/// Returns the components `infos` sorted by identifier.
pub fn sort_components(infos: &Vec<ComponentInfo>) -> (r: Vec<ComponentInfo>)
    requires
        distinct_ids(infos@),
    ensures
        sorted_by_id(r@),
        r@.to_multiset() == infos@.to_multiset(),
        r@.len() == infos@.len(),
{
    broadcast use vstd::seq_lib::group_to_multiset_ensures;

    let ghost s = infos@;
    let mut out: Vec<ComponentInfo> = Vec::new();
    let mut i: usize = 0;
    assert(s.take(0) =~= Seq::<ComponentInfo>::empty());
    while i < infos.len()
        invariant
            s == infos@,
            distinct_ids(s),
            0 <= i <= s.len(),
            sorted_by_id(out@),
            out@.to_multiset() == s.take(i as int).to_multiset(),
            out@.len() == i,
        decreases s.len() - i,
    {
        let x = infos[i];
        let xid = x.id().0;
        let mut pos: usize = 0;
        while pos < out.len() && out[pos].id().0 < xid
            invariant
                0 <= pos <= out@.len(),
                forall|j: int| 0 <= j < pos ==> (#[trigger] out@[j]).spec_id().0 < xid,
            decreases out@.len() - pos,
        {
            pos = pos + 1;
        }
        assert forall|j: int| 0 <= j < out@.len() implies (#[trigger] out@[j]).spec_id() != x.spec_id() by {
            vstd::seq_lib::to_multiset_contains(out@, out@[j]);
            vstd::seq_lib::to_multiset_contains(s.take(i as int), out@[j]);
            assert(out@.contains(out@[j]));
            assert(s.take(i as int).contains(out@[j]));
            let k = choose|k: int| 0 <= k < i && s.take(i as int)[k] == out@[j];
            assert(s[k] == out@[j]);
        }
        let ghost old_out = out@;
        out.insert(pos, x);
        proof {
            assert(s.take(i as int + 1) =~= s.take(i as int).push(x));
            vstd::seq_lib::to_multiset_insert(old_out, pos as int, x);
            vstd::seq_lib::to_multiset_build(s.take(i as int), x);
            assert(out@ == old_out.insert(pos as int, x));
            assert forall|a: int, b: int| 0 <= a < b < out@.len() implies out@[a].spec_id().0
                < out@[b].spec_id().0 by {
                if b < pos {
                } else if b == pos {
                    assert(out@[a] == old_out[a]);
                } else if a < pos {
                    assert(out@[b] == old_out[b - 1]);
                    assert(old_out[b - 1].spec_id() != x.spec_id());
                    if pos < old_out.len() {
                        assert(old_out[pos as int].spec_id().0 >= xid);
                    }
                } else if a == pos {
                    assert(out@[b] == old_out[b - 1]);
                    assert(old_out[b - 1].spec_id() != x.spec_id());
                    assert(old_out[pos as int].spec_id().0 >= xid);
                } else {
                    assert(out@[b] == old_out[b - 1]);
                    assert(out@[a] == old_out[a - 1]);
                }
            }
        }
        i = i + 1;
    }
    assert(s.take(s.len() as int) =~= s);
    out
}

/// Sorting is unique: two sequences sorted by identifier with the same
/// elements are equal.
pub proof fn lemma_sorted_unique(s: Seq<ComponentInfo>, t: Seq<ComponentInfo>)
    requires
        sorted_by_id(s),
        sorted_by_id(t),
        s.to_multiset() == t.to_multiset(),
    ensures
        s == t,
    decreases s.len(),
{
    broadcast use vstd::seq_lib::group_to_multiset_ensures;

    vstd::seq_lib::to_multiset_len(s);
    vstd::seq_lib::to_multiset_len(t);
    assert(s.len() == t.len());
    if s.len() > 0 {
        vstd::seq_lib::to_multiset_contains(s, t[0]);
        vstd::seq_lib::to_multiset_contains(t, s[0]);
        assert(t.contains(t[0]));
        assert(s.contains(s[0]));
        let i = choose|i: int| 0 <= i < s.len() && s[i] == t[0];
        let j = choose|j: int| 0 <= j < t.len() && t[j] == s[0];
        if i != 0 {
            assert(s[0].spec_id().0 < s[i].spec_id().0);
            if j != 0 {
                assert(t[0].spec_id().0 < t[j].spec_id().0);
            }
        }
        if j != 0 {
            assert(t[0].spec_id().0 < t[j].spec_id().0);
        }
        assert(s[0] == t[0]);
        vstd::seq_lib::to_multiset_remove(s, 0);
        vstd::seq_lib::to_multiset_remove(t, 0);
        assert(s.remove(0) =~= s.drop_first());
        assert(t.remove(0) =~= t.drop_first());
        lemma_sorted_unique(s.drop_first(), t.drop_first());
        assert(s =~= seq![s[0]] + s.drop_first());
        assert(t =~= seq![t[0]] + t.drop_first());
    }
}

} // verus!
