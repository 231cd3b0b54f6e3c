//! Queries (views): what a system reads and writes, which archetypes it visits, and
//! what it sees of each row.

use vstd::prelude::*;
use crate::access::{Access, ComponentAccess};
use crate::archetype::Archetype;
use crate::component::ComponentId;
use crate::storage::ArchetypeStorage;

verus! {

/// Reads component `component`; visits archetypes that have it.
#[derive(Clone, Copy, Debug, PartialEq, Eq, Structural)]
pub struct Read {
    pub component: ComponentId,
}

/// Writes component `component`; visits archetypes that have it.
#[derive(Clone, Copy, Debug, PartialEq, Eq, Structural)]
pub struct Write {
    pub component: ComponentId,
}

/// Reads component `component` where present; visits every archetype.
#[derive(Clone, Copy, Debug, PartialEq, Eq, Structural)]
pub struct TryRead {
    pub component: ComponentId,
}

/// Writes component `component` where present; visits every archetype.
#[derive(Clone, Copy, Debug, PartialEq, Eq, Structural)]
pub struct TryWrite {
    pub component: ComponentId,
}

/// Visits archetypes that have component `component`; reads nothing.
#[derive(Clone, Copy, Debug, PartialEq, Eq, Structural)]
pub struct With {
    pub component: ComponentId,
}

/// Visits archetypes that lack component `component`; reads nothing.
#[derive(Clone, Copy, Debug, PartialEq, Eq, Structural)]
pub struct Without {
    pub component: ComponentId,
}

/// All parts at once: visits archetypes every part visits.
#[derive(Debug)]
pub struct And {
    pub parts: Vec<Query>,
}

/// Any of the parts: visits archetypes some part visits; each row shows
/// the parts whose filter matches.
#[derive(Debug)]
pub struct Or {
    pub parts: Vec<Query>,
}

/// A view restricted further by a filter view.
#[derive(Debug)]
pub struct Filtered {
    pub inner: Box<Query>,
    pub filter: Box<Query>,
}

/// A query (a view of the world): access intent, archetype filter and row
/// shape in one value.
#[derive(Debug)]
pub enum Query {
    Read(Read),
    Write(Write),
    TryRead(TryRead),
    TryWrite(TryWrite),
    With(With),
    Without(Without),
    And(And),
    Or(Or),
    Filtered(Filtered),
}

impl Read {
    pub fn new(component: ComponentId) -> (r: Read)
        ensures
            r.component == component,
    {
        Read { component }
    }
}

impl Write {
    pub fn new(component: ComponentId) -> (r: Write)
        ensures
            r.component == component,
    {
        Write { component }
    }
}

impl TryRead {
    pub fn new(component: ComponentId) -> (r: TryRead)
        ensures
            r.component == component,
    {
        TryRead { component }
    }
}

impl TryWrite {
    pub fn new(component: ComponentId) -> (r: TryWrite)
        ensures
            r.component == component,
    {
        TryWrite { component }
    }
}

impl With {
    pub fn new(component: ComponentId) -> (r: With)
        ensures
            r.component == component,
    {
        With { component }
    }
}

impl Without {
    pub fn new(component: ComponentId) -> (r: Without)
        ensures
            r.component == component,
    {
        Without { component }
    }
}

impl And {
    /// The conjunction of no parts: visits every archetype.
    pub fn new() -> (r: And)
        ensures
            r.parts@.len() == 0,
    {
        And { parts: Vec::new() }
    }

    /// Adds `part` to the conjunction.
    pub fn and(self, part: Query) -> (r: And)
        ensures
            r.parts@ == self.parts@.push(part),
    {
        let mut parts = self.parts;
        parts.push(part);
        And { parts }
    }
}

impl Or {
    /// The alternative of `first` alone.
    pub fn new(first: Query) -> (r: Or)
        ensures
            r.parts@ == seq![first],
    {
        let mut parts = Vec::new();
        parts.push(first);
        Or { parts }
    }

    /// Adds `part` as a further alternative.
    pub fn or(self, part: Query) -> (r: Or)
        ensures
            r.parts@ == self.parts@.push(part),
    {
        let mut parts = self.parts;
        parts.push(part);
        Or { parts }
    }
}

impl Filtered {
    pub fn new(inner: Query, filter: Query) -> (r: Filtered)
        ensures
            *r.inner == inner,
            *r.filter == filter,
    {
        Filtered { inner: Box::new(inner), filter: Box::new(filter) }
    }
}

/// Returns a view reading `component`.
pub fn read(component: ComponentId) -> (r: Query)
    ensures
        r == Query::Read(Read { component }),
{
    Query::Read(Read::new(component))
}

/// Returns a view writing `component`.
pub fn write(component: ComponentId) -> (r: Query)
    ensures
        r == Query::Write(Write { component }),
{
    Query::Write(Write::new(component))
}

/// Returns a view reading `component` where present.
pub fn try_read(component: ComponentId) -> (r: Query)
    ensures
        r == Query::TryRead(TryRead { component }),
{
    Query::TryRead(TryRead::new(component))
}

/// Returns a view writing `component` where present.
pub fn try_write(component: ComponentId) -> (r: Query)
    ensures
        r == Query::TryWrite(TryWrite { component }),
{
    Query::TryWrite(TryWrite::new(component))
}

impl Query {
    /// The view visits an archetype with components `ids`.
    pub open spec fn spec_filter(&self, ids: Seq<ComponentId>) -> bool
        decreases self,
    {
        match self {
            Query::Read(r) => ids.contains(r.component),
            Query::Write(w) => ids.contains(w.component),
            Query::TryRead(_) => true,
            Query::TryWrite(_) => true,
            Query::With(w) => ids.contains(w.component),
            Query::Without(w) => !ids.contains(w.component),
            Query::And(a) => forall|i: int|
                0 <= i < a.parts@.len() ==> (#[trigger] a.parts@[i]).spec_filter(ids),
            Query::Or(o) => exists|i: int|
                0 <= i < o.parts@.len() && (#[trigger] o.parts@[i]).spec_filter(ids),
            Query::Filtered(f) => f.inner.spec_filter(ids) && f.filter.spec_filter(ids),
        }
    }

    /// Returns true if the view visits `archetype`.
    pub fn filter_archetype(&self, archetype: &Archetype) -> (r: bool)
        ensures
            r == self.spec_filter(archetype.spec_ids()),
        decreases self,
    {
        match self {
            Query::Read(r) => archetype.has(r.component),
            Query::Write(w) => archetype.has(w.component),
            Query::TryRead(_) => true,
            Query::TryWrite(_) => true,
            Query::With(w) => archetype.has(w.component),
            Query::Without(w) => !archetype.has(w.component),
            Query::And(a) => Self::filter_parts(&a.parts, archetype, true),
            Query::Or(o) => Self::filter_parts(&o.parts, archetype, false),
            Query::Filtered(f) => f.inner.filter_archetype(archetype) && f.filter.filter_archetype(archetype),
        }
    }

    /// With `all`, returns true if every part visits `archetype`; otherwise
    /// if some part does.
    fn filter_parts(parts: &Vec<Query>, archetype: &Archetype, all: bool) -> (r: bool)
        ensures
            all ==> (r <==> forall|j: int| 0 <= j < parts@.len() ==> (#[trigger] parts@[j]).spec_filter(archetype.spec_ids())),
            !all ==> (r <==> exists|j: int| 0 <= j < parts@.len() && (#[trigger] parts@[j]).spec_filter(archetype.spec_ids())),
        decreases parts,
    {
        let mut i: usize = 0;
        while i < parts.len()
            invariant
                0 <= i <= parts@.len(),
                all ==> forall|j: int| 0 <= j < i ==> (#[trigger] parts@[j]).spec_filter(archetype.spec_ids()),
                !all ==> forall|j: int| 0 <= j < i ==> !(#[trigger] parts@[j]).spec_filter(archetype.spec_ids()),
            decreases parts@.len() - i,
        {
            proof {
                vstd::std_specs::vec::axiom_vec_index_decreases(*parts, i as int);
            }
            let matched = parts[i].filter_archetype(archetype);
            if all && !matched {
                return false;
            }
            if !all && matched {
                return true;
            }
            i = i + 1;
        }
        all
    }
}

/// The access a leaf query asks for on an archetype with columns `cols`.
pub open spec fn leaf_access(cols: Seq<crate::archetype::Component>, ids: Seq<ComponentId>, c: ComponentId, access: Access) -> Seq<ComponentAccess> {
    if ids.contains(c) {
        seq![ComponentAccess { component: c, access, offset: cols[ids.index_of(c)].offset }]
    } else {
        Seq::empty()
    }
}

impl Query {
    /// The access the query declares on archetype `a`, in order: a read or
    /// write per component it touches that `a` has; the parts' lists one
    /// after another for `And` and `Or`; nothing where a filter rejects `a`.
    pub open spec fn spec_access_types(&self, a: Archetype) -> Seq<ComponentAccess>
        decreases self, 0int,
    {
        let cols = a.spec_components();
        let ids = a.spec_ids();
        match self {
            Query::Read(r) => leaf_access(cols, ids, r.component, Access::Read),
            Query::Write(w) => leaf_access(cols, ids, w.component, Access::Write),
            Query::TryRead(r) => leaf_access(cols, ids, r.component, Access::Read),
            Query::TryWrite(w) => leaf_access(cols, ids, w.component, Access::Write),
            Query::With(_) => Seq::empty(),
            Query::Without(_) => Seq::empty(),
            Query::And(x) => parts_access(x.parts, a, x.parts@.len() as int),
            Query::Or(x) => parts_access(x.parts, a, x.parts@.len() as int),
            Query::Filtered(f) => if f.filter.spec_filter(ids) {
                f.inner.spec_access_types(a)
            } else {
                Seq::empty()
            },
        }
    }

    /// Appends the access of `part` for `archetype` to `out`.
    fn push_access(&self, archetype: &Archetype, out: &mut Vec<ComponentAccess>)
        requires
            archetype.wf(),
        ensures
            final(out)@ == old(out)@ + self.spec_access_types(*archetype),
        decreases self, 0int,
    {
        match self {
            Query::Read(r) => push_leaf(archetype, r.component, Access::Read, out),
            Query::Write(w) => push_leaf(archetype, w.component, Access::Write, out),
            Query::TryRead(r) => push_leaf(archetype, r.component, Access::Read, out),
            Query::TryWrite(w) => push_leaf(archetype, w.component, Access::Write, out),
            Query::With(_) => {
                assert(out@ =~= out@ + Seq::<ComponentAccess>::empty());
            },
            Query::Without(_) => {
                assert(out@ =~= out@ + Seq::<ComponentAccess>::empty());
            },
            Query::And(x) => Self::push_parts_access(&x.parts, archetype, out),
            Query::Or(x) => Self::push_parts_access(&x.parts, archetype, out),
            Query::Filtered(f) => {
                if f.filter.filter_archetype(archetype) {
                    f.inner.push_access(archetype, out);
                } else {
                    assert(out@ =~= out@ + Seq::<ComponentAccess>::empty());
                }
            },
        }
    }

    fn push_parts_access(parts: &Vec<Query>, archetype: &Archetype, out: &mut Vec<ComponentAccess>)
        requires
            archetype.wf(),
        ensures
            final(out)@ == old(out)@ + parts_access(*parts, *archetype, parts@.len() as int),
        decreases parts, parts@.len(),
    {
        let mut i: usize = 0;
        assert(old(out)@ =~= old(out)@ + parts_access(*parts, *archetype, 0));
        while i < parts.len()
            invariant
                0 <= i <= parts@.len(),
                archetype.wf(),
                out@ == old(out)@ + parts_access(*parts, *archetype, i as int),
            decreases parts@.len() - i,
        {
            proof {
                vstd::std_specs::vec::axiom_vec_index_decreases(*parts, i as int);
            }
            let ghost before = out@;
            parts[i].push_access(archetype, out);
            assert(out@ =~= old(out)@ + parts_access(*parts, *archetype, i + 1));
            i = i + 1;
        }
    }

    /// The access the query declares on `archetype`.
    pub fn access_types(&self, archetype: &Archetype) -> (r: Vec<ComponentAccess>)
        requires
            archetype.wf(),
        ensures
            r@ == self.spec_access_types(*archetype),
    {
        let mut out: Vec<ComponentAccess> = Vec::new();
        self.push_access(archetype, &mut out);
        assert(out@ =~= self.spec_access_types(*archetype));
        out
    }
}

/// The access lists of the first `n` parts, one after another.
pub open spec fn parts_access(parts: Vec<Query>, a: Archetype, n: int) -> Seq<ComponentAccess>
    decreases parts, n,
{
    if n <= 0 || n > parts@.len() {
        Seq::empty()
    } else {
        parts_access(parts, a, n - 1) + parts@[n - 1].spec_access_types(a)
    }
}

fn push_leaf(archetype: &Archetype, c: ComponentId, access: Access, out: &mut Vec<ComponentAccess>)
    requires
        archetype.wf(),
    ensures
        final(out)@ == old(out)@ + leaf_access(archetype.spec_components(), archetype.spec_ids(), c, access),
{
    match archetype.component_offset(c) {
        Some(offset) => {
            out.push(ComponentAccess { component: c, access, offset });
            assert(out@ =~= old(out)@ + leaf_access(archetype.spec_components(), archetype.spec_ids(), c, access));
        },
        None => {
            assert(out@ =~= old(out)@ + leaf_access(archetype.spec_components(), archetype.spec_ids(), c, access));
        },
    }
}

/// What a query shows of one row.
#[derive(Debug)]
pub enum Fetched {
    /// The bytes of a read or written component.
    Value(Vec<u8>),
    /// The bytes of a component read or written where present.
    Maybe(Option<Vec<u8>>),
    /// A pure filter shows nothing.
    Unit,
    /// One item per part of an `And`.
    All(Vec<Fetched>),
    /// One item per part of an `Or`: present exactly where the part's
    /// filter matches the archetype.
    Any(Vec<Option<Fetched>>),
}

/// Bytes of component `c` in row `row` of `st`, if `st` has it.
pub open spec fn column_bytes(st: ArchetypeStorage, row: int, c: ComponentId) -> Option<Seq<u8>> {
    if st.spec_ids().contains(c) {
        Some(st.spec_value(row, st.spec_ids().index_of(c)))
    } else {
        None
    }
}

/// `o` holds the bytes `b`, or both are absent.
pub open spec fn maybe_bytes(o: Option<Vec<u8>>, b: Option<Seq<u8>>) -> bool {
    match o {
        Some(v) => b == Some(v@),
        None => b.is_none(),
    }
}

/// `f` is what query `q` shows of row `row` of `st`.
pub open spec fn fetched_by(q: Query, st: ArchetypeStorage, row: int, f: Fetched) -> bool
    decreases q,
{
    match q {
        Query::Read(r) => f matches Fetched::Value(b) && Some(b@) == column_bytes(st, row, r.component),
        Query::Write(w) => f matches Fetched::Value(b) && Some(b@) == column_bytes(st, row, w.component),
        Query::TryRead(r) => f matches Fetched::Maybe(o) && maybe_bytes(o, column_bytes(st, row, r.component)),
        Query::TryWrite(w) => f matches Fetched::Maybe(o) && maybe_bytes(o, column_bytes(st, row, w.component)),
        Query::With(_) => f matches Fetched::Unit,
        Query::Without(_) => f matches Fetched::Unit,
        Query::And(x) => match f {
            Fetched::All(fs) => fs@.len() == x.parts@.len() && forall|i: int|
                0 <= i < x.parts@.len() ==> fetched_by(#[trigger] x.parts@[i], st, row, fs@[i]),
            _ => false,
        },
        Query::Or(x) => match f {
            Fetched::Any(fs) => fs@.len() == x.parts@.len() && forall|i: int|
                0 <= i < x.parts@.len() ==> {
                    &&& (fs@[i].is_some() <==> (#[trigger] x.parts@[i]).spec_filter(st.spec_ids()))
                    &&& (fs@[i].is_some() ==> fetched_by(x.parts@[i], st, row, fs@[i].unwrap()))
                },
            _ => false,
        },
        Query::Filtered(fl) => fetched_by(*fl.inner, st, row, f),
    }
}

/// Each row of an `Or` query shows, for every part, a present item exactly
/// where that part's filter matches the row's archetype.
pub proof fn lemma_or_rows(q: Query, st: ArchetypeStorage, row: int, f: Fetched, i: int)
    requires
        q matches Query::Or(_),
        fetched_by(q, st, row, f),
        0 <= i < q->Or_0.parts@.len(),
    ensures
        f matches Fetched::Any(fs) && fs@.len() == q->Or_0.parts@.len() && (fs@[i].is_some()
            <==> q->Or_0.parts@[i].spec_filter(st.spec_ids())),
{
    let x = q->Or_0;
    assert(x.parts@[i].spec_filter(st.spec_ids()) == x.parts@[i].spec_filter(st.spec_ids()));
}

fn copy_bytes(b: &[u8]) -> (r: Vec<u8>)
    ensures
        r@ == b@,
{
    let mut r: Vec<u8> = Vec::new();
    let mut i: usize = 0;
    while i < b.len()
        invariant
            0 <= i <= b@.len(),
            r@ =~= b@.take(i as int),
        decreases b@.len() - i,
    {
        r.push(b[i]);
        i = i + 1;
    }
    assert(b@.take(b@.len() as int) =~= b@);
    r
}

fn fetch_column(st: &ArchetypeStorage, row: usize, c: ComponentId) -> (r: Option<Vec<u8>>)
    requires
        st.wf(),
        row < st.spec_len(),
    ensures
        maybe_bytes(r, column_bytes(*st, row as int, c)),
{
    match st.get_component_ref(row, c) {
        Some(b) => Some(copy_bytes(b)),
        None => None,
    }
}

impl Query {
    /// What the query shows of row `row` of `st`, an archetype it visits.
    pub fn fetch(&self, st: &ArchetypeStorage, row: usize) -> (r: Fetched)
        requires
            st.wf(),
            row < st.spec_len(),
            self.spec_filter(st.spec_ids()),
        ensures
            fetched_by(*self, *st, row as int, r),
        decreases self, 0int,
    {
        match self {
            Query::Read(x) => Fetched::Value(fetch_column(st, row, x.component).unwrap()),
            Query::Write(x) => Fetched::Value(fetch_column(st, row, x.component).unwrap()),
            Query::TryRead(x) => Fetched::Maybe(fetch_column(st, row, x.component)),
            Query::TryWrite(x) => Fetched::Maybe(fetch_column(st, row, x.component)),
            Query::With(_) => Fetched::Unit,
            Query::Without(_) => Fetched::Unit,
            Query::And(x) => Fetched::All(Self::fetch_all(&x.parts, st, row)),
            Query::Or(x) => Fetched::Any(Self::fetch_any(&x.parts, st, row)),
            Query::Filtered(f) => f.inner.fetch(st, row),
        }
    }

    fn fetch_all(parts: &Vec<Query>, st: &ArchetypeStorage, row: usize) -> (r: Vec<Fetched>)
        requires
            st.wf(),
            row < st.spec_len(),
            forall|j: int| 0 <= j < parts@.len() ==> (#[trigger] parts@[j]).spec_filter(st.spec_ids()),
        ensures
            r@.len() == parts@.len(),
            forall|j: int| 0 <= j < parts@.len() ==> fetched_by(#[trigger] parts@[j], *st, row as int, r@[j]),
        decreases parts, 0int,
    {
        let mut r: Vec<Fetched> = Vec::new();
        let mut i: usize = 0;
        while i < parts.len()
            invariant
                0 <= i <= parts@.len(),
                st.wf(),
                row < st.spec_len(),
                forall|j: int| 0 <= j < parts@.len() ==> (#[trigger] parts@[j]).spec_filter(st.spec_ids()),
                r@.len() == i,
                forall|j: int| 0 <= j < i ==> fetched_by(#[trigger] parts@[j], *st, row as int, r@[j]),
            decreases parts@.len() - i,
        {
            proof {
                vstd::std_specs::vec::axiom_vec_index_decreases(*parts, i as int);
            }
            let f = parts[i].fetch(st, row);
            r.push(f);
            i = i + 1;
        }
        r
    }

    fn fetch_any(parts: &Vec<Query>, st: &ArchetypeStorage, row: usize) -> (r: Vec<Option<Fetched>>)
        requires
            st.wf(),
            row < st.spec_len(),
        ensures
            r@.len() == parts@.len(),
            forall|j: int|
                0 <= j < parts@.len() ==> {
                    &&& (r@[j].is_some() <==> (#[trigger] parts@[j]).spec_filter(st.spec_ids()))
                    &&& (r@[j].is_some() ==> fetched_by(parts@[j], *st, row as int, r@[j].unwrap()))
                },
        decreases parts, 0int,
    {
        let mut r: Vec<Option<Fetched>> = Vec::new();
        let mut i: usize = 0;
        while i < parts.len()
            invariant
                0 <= i <= parts@.len(),
                st.wf(),
                row < st.spec_len(),
                r@.len() == i,
                forall|j: int|
                    0 <= j < i ==> {
                        &&& (r@[j].is_some() <==> (#[trigger] parts@[j]).spec_filter(st.spec_ids()))
                        &&& (r@[j].is_some() ==> fetched_by(parts@[j], *st, row as int, r@[j].unwrap()))
                    },
            decreases parts@.len() - i,
        {
            proof {
                vstd::std_specs::vec::axiom_vec_index_decreases(*parts, i as int);
            }
            if parts[i].filter_archetype(st.archetype()) {
                let f = parts[i].fetch(st, row);
                r.push(Some(f));
            } else {
                r.push(None);
            }
            i = i + 1;
        }
        r
    }
}

} // verus!
