//! Bundles: the components a new entity is spawned with, and the slots a
//! bundle writes them into.

use vstd::prelude::*;
use crate::archetype::{distinct_ids, Component};
use crate::component::{ComponentId, ComponentInfo};

verus! {

/// The view of one slot: the bytes written into it, if any.
pub open spec fn place_view(p: Option<Vec<u8>>) -> Option<Seq<u8>> {
    match p {
        Some(v) => Some(v@),
        None => None,
    }
}

/// Slots for the components of one new row, one per column, filled by a
/// bundle. A slot accepts one value of its column's size.
pub struct UninitComponents {
    columns: Vec<Component>,
    places: Vec<Option<Vec<u8>>>,
}

impl UninitComponents {
    /// Each slot matches its column, and column identifiers are distinct.
    pub closed spec fn wf(&self) -> bool {
        &&& self.places@.len() == self.columns@.len()
        &&& forall|k: int|
            0 <= k < self.places@.len() && (#[trigger] self.places@[k]).is_some() ==> self.places@[k].unwrap()@.len()
                == self.columns@[k].size
        &&& forall|i: int, j: int|
            0 <= i < self.columns@.len() && 0 <= j < self.columns@.len() && i != j ==> (#[trigger] self.columns@[i]).id
                != (#[trigger] self.columns@[j]).id
    }

    pub closed spec fn spec_columns(&self) -> Seq<Component> {
        self.columns@
    }

    pub closed spec fn spec_places(&self) -> Seq<Option<Seq<u8>>> {
        self.places@.map_values(|p: Option<Vec<u8>>| place_view(p))
    }

    /// No slot holds a value yet.
    pub open spec fn is_vacant(&self) -> bool {
        &&& self.spec_places().len() == self.spec_columns().len()
        &&& forall|k: int| 0 <= k < self.spec_places().len() ==> (#[trigger] self.spec_places()[k]).is_none()
    }

    /// Vacant slots for the columns `columns`, whose identifiers are distinct.
    pub fn new(columns: &Vec<Component>) -> (r: UninitComponents)
        requires
            forall|i: int, j: int|
                0 <= i < columns@.len() && 0 <= j < columns@.len() && i != j ==> (#[trigger] columns@[i]).id
                    != (#[trigger] columns@[j]).id,
        ensures
            r.spec_columns() == columns@,
            r.is_vacant(),
            r.wf(),
    {
        let mut places: Vec<Option<Vec<u8>>> = Vec::new();
        let mut k: usize = 0;
        while k < columns.len()
            invariant
                0 <= k <= columns@.len(),
                places@.len() == k,
                forall|j: int| 0 <= j < k ==> (#[trigger] places@[j]).is_none(),
            decreases columns@.len() - k,
        {
            places.push(None);
            k = k + 1;
        }
        let r = UninitComponents { columns: columns.clone(), places };
        assert(r.columns@ == columns@);
        r
    }

    /// Writes `value` into the slot of component `id`. The write is refused,
    /// and `false` returned, where there is no such slot, the slot already
    /// holds a value, or `value` does not have the column's size.
    pub fn init_some(&mut self, id: ComponentId, value: Vec<u8>) -> (r: bool)
        requires
            old(self).wf(),
        ensures
            final(self).wf(),
            final(self).spec_columns() == old(self).spec_columns(),
            r == exists|k: int|
                0 <= k < old(self).spec_columns().len() && old(self).spec_columns()[k].id == id
                    && old(self).spec_places()[k].is_none() && value@.len()
                    == old(self).spec_columns()[k].size,
            final(self).spec_places() == fill_slot(old(self).spec_columns(), old(self).spec_places(), id, value@),
    {
        let mut k: usize = 0;
        while k < self.columns.len()
            invariant
                0 <= k <= self.columns@.len(),
                self.columns@ == old(self).columns@,
                self.places@ == old(self).places@,
                old(self).wf(),
                self.places@.len() == self.columns@.len(),
                forall|j: int| 0 <= j < k ==> (#[trigger] self.columns@[j]).id != id,
            decreases self.columns@.len() - k,
        {
            if self.columns[k].id.0 == id.0 {
                if self.places[k].is_none() && value.len() == self.columns[k].size {
                    let ghost v = value@;
                    self.places.set(k, Some(value));
                    proof {
                        assert(self.spec_places() =~= old(self).spec_places().update(k as int, Some(v)));
                        assert(self.places@ == old(self).places@.update(k as int, Some(value)));
                        lemma_fill_slot_at(old(self).spec_columns(), old(self).spec_places(), id, v, k as int);
                    }
                    return true;
                } else {
                    proof {
                        assert(self.spec_places() =~= old(self).spec_places());
                        lemma_fill_slot_at(old(self).spec_columns(), old(self).spec_places(), id, value@, k as int);
                    }
                    return false;
                }
            }
            k = k + 1;
        }
        proof {
            assert(self.spec_places() =~= old(self).spec_places());
            assert(fill_slot(old(self).spec_columns(), old(self).spec_places(), id, value@) =~= old(self).spec_places());
        }
        false
    }

    /// Hands out the values where every slot is filled; otherwise drops the
    /// values written so far and returns the identifiers of their components.
    pub fn finish(self) -> (r: Result<Vec<Vec<u8>>, Vec<ComponentId>>)
        requires
            self.wf(),
        ensures
            self.spec_places().len() == self.spec_columns().len(),
            r.is_ok() <==> forall|k: int| 0 <= k < self.spec_places().len() ==> (#[trigger] self.spec_places()[k]).is_some(),
            r.is_ok() ==> r.unwrap()@.len() == self.spec_columns().len() && forall|k: int|
                0 <= k < self.spec_columns().len() ==> Some((#[trigger] r.unwrap()@[k])@) == self.spec_places()[k]
                    && r.unwrap()@[k]@.len() == self.spec_columns()[k].size,
            r.is_err() ==> r.unwrap_err()@ == written_ids(self.spec_columns(), self.spec_places()),
    {
        let ghost pv = self.spec_places();
        let n = self.places.len();
        let mut values: Vec<Vec<u8>> = Vec::new();
        let mut written: Vec<ComponentId> = Vec::new();
        let mut complete = true;
        let mut k: usize = 0;
        while k < n
            invariant
                0 <= k <= n,
                n == self.columns@.len(),
                self.wf(),
                pv == self.spec_places(),
                complete ==> values@.len() == k && forall|j: int|
                    0 <= j < k ==> Some((#[trigger] values@[j])@) == pv[j] && values@[j]@.len()
                        == self.columns@[j].size,
                complete <==> forall|j: int| 0 <= j < k ==> (#[trigger] pv[j]).is_some(),
                written@ == written_ids(self.columns@.take(k as int), pv.take(k as int)),
            decreases n - k,
        {
            proof {
                assert(self.columns@.take(k + 1).drop_last() =~= self.columns@.take(k as int));
                assert(pv.take(k + 1).drop_last() =~= pv.take(k as int));
                assert(pv[k as int] == place_view(self.places@[k as int]));
            }
            if self.places[k].is_some() {
                written.push(self.columns[k].id);
                if complete {
                    let v = self.places[k].as_ref().unwrap().clone();
                    assert(v@ =~= self.places@[k as int].unwrap()@);
                    values.push(v);
                }
            } else {
                complete = false;
            }
            k = k + 1;
        }
        proof {
            assert(self.columns@.take(n as int) =~= self.columns@);
            assert(pv.take(n as int) =~= pv);
        }
        if complete {
            Ok(values)
        } else {
            Err(written)
        }
    }
}

/// `places` after writing `v` into the slot of `id`, where that slot is
/// vacant and `v` has the column's size.
pub open spec fn fill_slot(
    columns: Seq<Component>,
    places: Seq<Option<Seq<u8>>>,
    id: ComponentId,
    v: Seq<u8>,
) -> Seq<Option<Seq<u8>>> {
    Seq::new(
        places.len(),
        |k: int|
            if columns[k].id == id && places[k].is_none() && v.len() == columns[k].size {
                Some(v)
            } else {
                places[k]
            },
    )
}

proof fn lemma_fill_slot_at(
    columns: Seq<Component>,
    places: Seq<Option<Seq<u8>>>,
    id: ComponentId,
    v: Seq<u8>,
    k: int,
)
    requires
        places.len() == columns.len(),
        0 <= k < columns.len(),
        columns[k].id == id,
        forall|i: int, j: int|
            0 <= i < columns.len() && 0 <= j < columns.len() && i != j ==> (#[trigger] columns[i]).id
                != (#[trigger] columns[j]).id,
    ensures
        fill_slot(columns, places, id, v) == if places[k].is_none() && v.len() == columns[k].size {
            places.update(k, Some(v))
        } else {
            places
        },
{
    if places[k].is_none() && v.len() == columns[k].size {
        assert(fill_slot(columns, places, id, v) =~= places.update(k, Some(v)));
    } else {
        assert(fill_slot(columns, places, id, v) =~= places);
    }
}

/// Identifiers of the columns whose slot holds a value, in column order.
pub open spec fn written_ids(columns: Seq<Component>, places: Seq<Option<Seq<u8>>>) -> Seq<ComponentId>
    decreases columns.len(),
{
    if columns.len() == 0 || places.len() == 0 {
        Seq::empty()
    } else {
        let rest = written_ids(columns.drop_last(), places.drop_last());
        if places.last().is_some() {
            rest.push(columns.last().id)
        } else {
            rest
        }
    }
}


/// A bundle left some of its components unwritten. The components it did
/// write were dropped; `dropped` lists them in column order.
#[derive(Debug)]
pub struct IncompleteBundle {
    pub dropped: Vec<ComponentId>,
}

/// The components a new entity is spawned with. The components must be
/// distinct. `init_components` writes each component into its slot.
pub trait Bundle: Sized {
    /// The components, in any order.
    spec fn spec_components(&self) -> Seq<ComponentInfo>;

    /// The slots `init_components` leaves, starting from vacant slots for
    /// the columns `columns`.
    spec fn spec_init(&self, columns: Seq<Component>) -> Seq<Option<Seq<u8>>>;

    fn with_components(&self) -> (r: Vec<ComponentInfo>)
        ensures
            r@ == self.spec_components(),
    ;

    fn init_components(self, uninit: &mut UninitComponents)
        requires
            old(uninit).wf(),
            old(uninit).is_vacant(),
        ensures
            final(uninit).wf(),
            final(uninit).spec_columns() == old(uninit).spec_columns(),
            final(uninit).spec_places() == self.spec_init(old(uninit).spec_columns()),
    ;
}

/// The value written for `id`, of `size` bytes, by the first `j` entries.
pub open spec fn value_upto(
    components: Seq<ComponentInfo>,
    values: Seq<Option<Seq<u8>>>,
    j: int,
    id: ComponentId,
    size: int,
) -> Option<Seq<u8>>
    decreases j,
{
    if j <= 0 {
        None
    } else if components[j - 1].spec_id() == id && values[j - 1].is_some() && values[j - 1].unwrap().len()
        == size {
        values[j - 1]
    } else {
        value_upto(components, values, j - 1, id, size)
    }
}

proof fn lemma_value_upto_absent(
    components: Seq<ComponentInfo>,
    values: Seq<Option<Seq<u8>>>,
    j: int,
    id: ComponentId,
    size: int,
)
    requires
        forall|i: int| 0 <= i < j ==> (#[trigger] components[i]).spec_id() != id,
    ensures
        value_upto(components, values, j, id, size).is_none(),
    decreases j,
{
    if j > 0 {
        lemma_value_upto_absent(components, values, j - 1, id, size);
    }
}

/// A bundle assembled at run time from components and their bytes.
pub struct DynamicBundle {
    components: Vec<ComponentInfo>,
    values: Vec<Option<Vec<u8>>>,
}

impl DynamicBundle {
    #[verifier::type_invariant]
    spec fn entries_are_distinct(self) -> bool {
        &&& self.values@.len() == self.components@.len()
        &&& distinct_ids(self.components@)
    }

    pub closed spec fn spec_values(&self) -> Seq<Option<Seq<u8>>> {
        self.values@.map_values(|p: Option<Vec<u8>>| place_view(p))
    }

    /// An empty bundle.
    pub fn new() -> (r: DynamicBundle)
        ensures
            r.spec_components() == Seq::<ComponentInfo>::empty(),
    {
        let r = DynamicBundle { components: Vec::new(), values: Vec::new() };
        assert(r.spec_values() =~= Seq::<Option<Seq<u8>>>::empty());
        r
    }

    /// Adds component `info` with the bytes `value`.
    pub fn with(self, info: ComponentInfo, value: Vec<u8>) -> (r: DynamicBundle)
        requires
            !ids_of_infos(self.spec_components()).contains(info.spec_id()),
        ensures
            r.spec_components() == self.spec_components().push(info),
            r.spec_values() == self.spec_values().push(Some(value@)),
    {
        self.push_entry(info, Some(value))
    }

    /// Adds component `info` and leaves it unwritten: spawning such a
    /// bundle fails.
    pub fn with_unset(self, info: ComponentInfo) -> (r: DynamicBundle)
        requires
            !ids_of_infos(self.spec_components()).contains(info.spec_id()),
        ensures
            r.spec_components() == self.spec_components().push(info),
            r.spec_values() == self.spec_values().push(None),
    {
        self.push_entry(info, None)
    }

    fn push_entry(self, info: ComponentInfo, value: Option<Vec<u8>>) -> (r: DynamicBundle)
        requires
            !ids_of_infos(self.spec_components()).contains(info.spec_id()),
        ensures
            r.spec_components() == self.spec_components().push(info),
            r.spec_values() == self.spec_values().push(place_view(value)),
    {
        proof {
            use_type_invariant(&self);
        }
        let DynamicBundle { mut components, mut values } = self;
        let ghost old_values = values@;
        let ghost old_components = components@;
        components.push(info);
        values.push(value);
        proof {
            assert forall|i: int, j: int|
                0 <= i < components@.len() && 0 <= j < components@.len() && i != j implies components@[i].spec_id()
                != components@[j].spec_id() by {
                if i == old_components.len() as int {
                    assert(ids_of_infos(old_components)[j] == old_components[j].spec_id());
                } else if j == old_components.len() as int {
                    assert(ids_of_infos(old_components)[i] == old_components[i].spec_id());
                }
            }
        }
        let r = DynamicBundle { components, values };
        proof {
            assert(r.spec_values() =~= old_values.map_values(|p: Option<Vec<u8>>| place_view(p)).push(
                place_view(value),
            ));
        }
        r
    }
}

/// Identifiers of `s`, in order.
pub open spec fn ids_of_infos(s: Seq<ComponentInfo>) -> Seq<ComponentId> {
    s.map_values(|c: ComponentInfo| c.spec_id())
}

impl Bundle for DynamicBundle {
    closed spec fn spec_components(&self) -> Seq<ComponentInfo> {
        self.components@
    }

    open spec fn spec_init(&self, columns: Seq<Component>) -> Seq<Option<Seq<u8>>> {
        Seq::new(
            columns.len(),
            |k: int|
                value_upto(
                    self.spec_components(),
                    self.spec_values(),
                    self.spec_components().len() as int,
                    columns[k].id,
                    columns[k].size as int,
                ),
        )
    }

    fn with_components(&self) -> (r: Vec<ComponentInfo>) {
        self.components.clone()
    }

    fn init_components(self, uninit: &mut UninitComponents) {
        proof {
            use_type_invariant(&self);
        }
        let ghost cols = uninit.spec_columns();
        let ghost comps = self.spec_components();
        let ghost vals = self.spec_values();
        let n = self.components.len();
        assert(uninit.spec_places() =~= Seq::new(
            cols.len(),
            |k: int| value_upto(comps, vals, 0, cols[k].id, cols[k].size as int),
        ));
        let mut j: usize = 0;
        while j < n
            invariant
                0 <= j <= n,
                n == comps.len(),
                comps == self.components@,
                vals == self.spec_values(),
                vals.len() == n,
                distinct_ids(comps),
                uninit.wf(),
                uninit.spec_columns() == cols,
                cols == old(uninit).spec_columns(),
                uninit.spec_places() == Seq::new(
                    cols.len(),
                    |k: int| value_upto(comps, vals, j as int, cols[k].id, cols[k].size as int),
                ),
            decreases n - j,
        {
            let ghost before = uninit.spec_places();
            let id = self.components[j].id();
            assert(vals[j as int] == place_view(self.values@[j as int]));
            if self.values[j].is_some() {
                let v = self.values[j].as_ref().unwrap().clone();
                assert(v@ =~= vals[j as int].unwrap());
                uninit.init_some(id, v);
                proof {
                    assert forall|i: int| 0 <= i < j implies (#[trigger] comps[i]).spec_id() != id by {}
                    lemma_value_upto_absent_all(comps, vals, j as int, id);
                    assert(uninit.spec_places() =~= Seq::new(
                        cols.len(),
                        |k: int| value_upto(comps, vals, j + 1, cols[k].id, cols[k].size as int),
                    ));
                }
            } else {
                assert(uninit.spec_places() =~= Seq::new(
                    cols.len(),
                    |k: int| value_upto(comps, vals, j + 1, cols[k].id, cols[k].size as int),
                ));
            }
            j = j + 1;
        }
    }
}

proof fn lemma_value_upto_absent_all(
    components: Seq<ComponentInfo>,
    values: Seq<Option<Seq<u8>>>,
    j: int,
    id: ComponentId,
)
    requires
        forall|i: int| 0 <= i < j ==> (#[trigger] components[i]).spec_id() != id,
    ensures
        forall|size: int| (#[trigger] value_upto(components, values, j, id, size)).is_none(),
{
    assert forall|size: int| (#[trigger] value_upto(components, values, j, id, size)).is_none() by {
        lemma_value_upto_absent(components, values, j, id, size);
    }
}

} // verus!
