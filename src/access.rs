//! Access grants: what a system may read or write in one archetype.

use vstd::prelude::*;
use crate::archetype::Archetype;
use crate::component::ComponentId;

verus! {

/// Kind of access: shared read or exclusive write.
#[derive(Clone, Copy, Debug, PartialEq, Eq, Structural)]
pub enum Access {
    Read,
    Write,
}

/// Access to one component of an archetype, with the offset of its column.
#[derive(Clone, Copy, Debug, PartialEq, Eq, Structural)]
pub struct ComponentAccess {
    pub component: ComponentId,
    pub access: Access,
    pub offset: usize,
}

impl ComponentAccess {
    /// Read access to `id` in `archetype`; `None` if the archetype lacks it.
    pub fn read(archetype: &Archetype, id: ComponentId) -> (r: Option<ComponentAccess>)
        requires
            archetype.wf(),
        ensures
            r.is_some() <==> archetype.spec_ids().contains(id),
            r.is_some() ==> r.unwrap() == (ComponentAccess {
                component: id,
                access: Access::Read,
                offset: archetype.spec_components()[archetype.spec_ids().index_of(id)].offset,
            }),
    {
        match archetype.component_offset(id) {
            Some(offset) => Some(ComponentAccess { component: id, access: Access::Read, offset }),
            None => None,
        }
    }

    /// Write access to `id` in `archetype`; `None` if the archetype lacks it.
    pub fn write(archetype: &Archetype, id: ComponentId) -> (r: Option<ComponentAccess>)
        requires
            archetype.wf(),
        ensures
            r.is_some() <==> archetype.spec_ids().contains(id),
            r.is_some() ==> r.unwrap() == (ComponentAccess {
                component: id,
                access: Access::Write,
                offset: archetype.spec_components()[archetype.spec_ids().index_of(id)].offset,
            }),
    {
        match archetype.component_offset(id) {
            Some(offset) => Some(ComponentAccess { component: id, access: Access::Write, offset }),
            None => None,
        }
    }
}

/// Position of the first grant for `c` in `g`, or `g.len()` if none.
pub open spec fn grant_index(g: Seq<ComponentAccess>, c: ComponentId) -> int
    decreases g.len(),
{
    if g.len() == 0 {
        0
    } else if g[0].component == c {
        0
    } else {
        1 + grant_index(g.drop_first(), c)
    }
}

/// The kind of access `g` grants on `c`, if any.
pub open spec fn granted(g: Seq<ComponentAccess>, c: ComponentId) -> Option<Access> {
    let i = grant_index(g, c);
    if i < g.len() {
        Some(g[i].access)
    } else {
        None
    }
}

proof fn lemma_grant_index(g: Seq<ComponentAccess>, c: ComponentId)
    ensures
        0 <= grant_index(g, c) <= g.len(),
        grant_index(g, c) < g.len() ==> g[grant_index(g, c)].component == c,
        forall|j: int| 0 <= j < grant_index(g, c) ==> g[j].component != c,
    decreases g.len(),
{
    if g.len() > 0 && g[0].component != c {
        lemma_grant_index(g.drop_first(), c);
        assert forall|j: int| 0 <= j < grant_index(g, c) implies g[j].component != c by {
            if j > 0 {
                assert(g[j] == g.drop_first()[j - 1]);
            }
        }
    }
}

/// Finds the first grant for `c`.
fn find_grant(g: &Vec<ComponentAccess>, c: ComponentId) -> (r: Option<usize>)
    ensures
        r.is_some() <==> grant_index(g@, c) < g@.len(),
        r.is_some() ==> r.unwrap() == grant_index(g@, c),
{
    proof {
        lemma_grant_index(g@, c);
    }
    let mut i: usize = 0;
    while i < g.len()
        invariant
            0 <= i <= g@.len(),
            forall|j: int| 0 <= j < i ==> g@[j].component != c,
            0 <= grant_index(g@, c) <= g@.len(),
            grant_index(g@, c) < g@.len() ==> g@[grant_index(g@, c)].component == c,
            forall|j: int| 0 <= j < grant_index(g@, c) ==> g@[j].component != c,
        decreases g@.len() - i,
    {
        if g[i].component.0 == c.0 {
            return Some(i);
        }
        i = i + 1;
    }
    None
}

/// Grants `g` after a request for `req`, and whether it was granted: a
/// read is granted against any grant and downgrades it to read; a write is
/// granted against a write, which moves out (the last grant takes its
/// place); a write against a read is refused.
pub open spec fn request_step(g: Seq<ComponentAccess>, req: ComponentAccess) -> (Seq<ComponentAccess>, bool) {
    let i = grant_index(g, req.component);
    if i >= g.len() {
        (g, false)
    } else if req.access == Access::Read {
        (g.update(i, ComponentAccess { access: Access::Read, ..g[i] }), true)
    } else if g[i].access == Access::Write {
        (g.update(i, g.last()).drop_last(), true)
    } else {
        (g, false)
    }
}

/// Grants `g` after the requests `reqs` in order, and the requests granted.
pub open spec fn take_all(g: Seq<ComponentAccess>, reqs: Seq<ComponentAccess>) -> (Seq<ComponentAccess>, Seq<ComponentAccess>)
    decreases reqs.len(),
{
    if reqs.len() == 0 {
        (g, Seq::empty())
    } else {
        let (g1, out) = take_all(g, reqs.drop_last());
        let (g2, ok) = request_step(g1, reqs.last());
        (g2, if ok {
            out.push(reqs.last())
        } else {
            out
        })
    }
}

/// Grants on one archetype, checked when a system borrows a column.
#[derive(Debug)]
pub struct ArchetypeAccess {
    archetype: usize,
    grants: Vec<ComponentAccess>,
}

impl ArchetypeAccess {
    pub closed spec fn spec_archetype(&self) -> int {
        self.archetype as int
    }

    pub closed spec fn spec_grants(&self) -> Seq<ComponentAccess> {
        self.grants@
    }

    /// Grants `grants` on the archetype with index `archetype`.
    pub fn new(archetype: usize, grants: Vec<ComponentAccess>) -> (r: ArchetypeAccess)
        ensures
            r.spec_archetype() == archetype,
            r.spec_grants() == grants@,
    {
        ArchetypeAccess { archetype, grants }
    }

    /// Index of the archetype.
    pub fn archetype(&self) -> (r: usize)
        ensures
            r == self.spec_archetype(),
    {
        self.archetype
    }

    /// The grants held.
    pub fn grants(&self) -> (r: &Vec<ComponentAccess>)
        ensures
            r@ == self.spec_grants(),
    {
        &self.grants
    }

    fn request(&mut self, req: ComponentAccess) -> (ok: bool)
        ensures
            final(self).spec_archetype() == old(self).spec_archetype(),
            (final(self).spec_grants(), ok) == request_step(old(self).spec_grants(), req),
    {
        match find_grant(&self.grants, req.component) {
            None => false,
            Some(i) => {
                let g = self.grants[i];
                match req.access {
                    Access::Read => {
                        self.grants.set(i, ComponentAccess { access: Access::Read, ..g });
                        true
                    },
                    Access::Write => match g.access {
                        Access::Write => {
                            self.grants.swap_remove(i);
                            true
                        },
                        Access::Read => false,
                    },
                }
            },
        }
    }

    /// Moves out the grants that `requested` asks for, by the rules of
    /// `request_step`, into a new token for the same archetype.
    pub fn take(&mut self, requested: &Vec<ComponentAccess>) -> (r: ArchetypeAccess)
        ensures
            final(self).spec_archetype() == old(self).spec_archetype(),
            r.spec_archetype() == old(self).spec_archetype(),
            (final(self).spec_grants(), r.spec_grants()) == take_all(old(self).spec_grants(), requested@),
    {
        let mut taken: Vec<ComponentAccess> = Vec::new();
        let mut k: usize = 0;
        assert(requested@.take(0) =~= Seq::<ComponentAccess>::empty());
        while k < requested.len()
            invariant
                0 <= k <= requested@.len(),
                self.spec_archetype() == old(self).spec_archetype(),
                (self.spec_grants(), taken@) == take_all(old(self).spec_grants(), requested@.take(k as int)),
            decreases requested@.len() - k,
        {
            let req = requested[k];
            proof {
                assert(requested@.take(k + 1).drop_last() =~= requested@.take(k as int));
                assert(requested@.take(k + 1).last() == req);
            }
            if self.request(req) {
                taken.push(req);
            }
            k = k + 1;
        }
        assert(requested@.take(requested@.len() as int) =~= requested@);
        ArchetypeAccess { archetype: self.archetype, grants: taken }
    }

    /// A copy of the grants that can be used while `self` is kept.
    pub fn reborrow(&self) -> (r: ArchetypeAccess)
        ensures
            r.spec_archetype() == self.spec_archetype(),
            r.spec_grants() == self.spec_grants(),
    {
        ArchetypeAccess { archetype: self.archetype, grants: self.grants.clone() }
    }

    /// Fetches `access` to `id` by the rules of `request_step`; returns the
    /// column offset where it is granted.
    pub fn access_component(&mut self, access: Access, id: ComponentId) -> (r: Option<usize>)
        ensures
            final(self).spec_archetype() == old(self).spec_archetype(),
            (final(self).spec_grants(), r.is_some()) == request_step(
                old(self).spec_grants(),
                ComponentAccess { component: id, access, offset: 0 },
            ),
            r.is_some() ==> r.unwrap() == old(self).spec_grants()[grant_index(old(self).spec_grants(), id)].offset,
    {
        let offset = match find_grant(&self.grants, id) {
            None => 0,
            Some(i) => self.grants[i].offset,
        };
        if self.request(ComponentAccess { component: id, access, offset: 0 }) {
            Some(offset)
        } else {
            None
        }
    }

    /// Offset of `id`'s column where any access to it is granted; the
    /// grant is kept as it is.
    pub fn borrow_read_component(&self, id: ComponentId) -> (r: Option<usize>)
        ensures
            r.is_some() <==> granted(self.spec_grants(), id).is_some(),
            r.is_some() ==> r.unwrap() == self.spec_grants()[grant_index(self.spec_grants(), id)].offset,
    {
        match find_grant(&self.grants, id) {
            None => None,
            Some(i) => Some(self.grants[i].offset),
        }
    }

    /// Offset of `id`'s column where write access to it is granted; the
    /// grant is kept as it is.
    pub fn borrow_write_component(&self, id: ComponentId) -> (r: Option<usize>)
        ensures
            r.is_some() <==> granted(self.spec_grants(), id) == Some(Access::Write),
            r.is_some() ==> r.unwrap() == self.spec_grants()[grant_index(self.spec_grants(), id)].offset,
    {
        match find_grant(&self.grants, id) {
            None => None,
            Some(i) => {
                if self.grants[i].access == Access::Write {
                    Some(self.grants[i].offset)
                } else {
                    None
                }
            },
        }
    }

    /// Read access to `id`: granted under any grant, which is downgraded to
    /// read.
    pub fn read_component(&mut self, id: ComponentId) -> (r: Option<usize>)
        ensures
            final(self).spec_archetype() == old(self).spec_archetype(),
            (final(self).spec_grants(), r.is_some()) == request_step(
                old(self).spec_grants(),
                ComponentAccess { component: id, access: Access::Read, offset: 0 },
            ),
            r.is_some() ==> r.unwrap() == old(self).spec_grants()[grant_index(old(self).spec_grants(), id)].offset,
    {
        self.access_component(Access::Read, id)
    }

    /// Write access to `id`: granted under a write grant, which is removed
    /// so that it cannot be fetched twice.
    pub fn write_component(&mut self, id: ComponentId) -> (r: Option<usize>)
        ensures
            final(self).spec_archetype() == old(self).spec_archetype(),
            (final(self).spec_grants(), r.is_some()) == request_step(
                old(self).spec_grants(),
                ComponentAccess { component: id, access: Access::Write, offset: 0 },
            ),
            r.is_some() ==> r.unwrap() == old(self).spec_grants()[grant_index(old(self).spec_grants(), id)].offset,
    {
        self.access_component(Access::Write, id)
    }
}

/// No component has two grants in `g`.
pub open spec fn unique_grants(g: Seq<ComponentAccess>) -> bool {
    forall|i: int, j: int| 0 <= i < j < g.len() ==> (#[trigger] g[i]).component != (#[trigger] g[j]).component
}

/// `a` is no stronger than `b`: none, or read under any grant, or write
/// under write.
pub open spec fn no_stronger(a: Option<Access>, b: Option<Access>) -> bool {
    match a {
        None => true,
        Some(Access::Read) => b.is_some(),
        Some(Access::Write) => b == Some(Access::Write),
    }
}

proof fn lemma_granted_unique(g: Seq<ComponentAccess>, c: ComponentId, i: int)
    requires
        unique_grants(g),
        0 <= i < g.len(),
        g[i].component == c,
    ensures
        granted(g, c) == Some(g[i].access),
{
    lemma_grant_index(g, c);
    let k = grant_index(g, c);
    if k != i {
        if k < i {
        } else {
            assert(g[i].component != c);
        }
    }
}

proof fn lemma_granted_absent(g: Seq<ComponentAccess>, c: ComponentId)
    requires
        forall|i: int| 0 <= i < g.len() ==> (#[trigger] g[i]).component != c,
    ensures
        granted(g, c).is_none(),
{
    lemma_grant_index(g, c);
}

proof fn lemma_step(g: Seq<ComponentAccess>, req: ComponentAccess, c: ComponentId)
    requires
        unique_grants(g),
    ensures
        unique_grants(request_step(g, req).0),
        no_stronger(granted(request_step(g, req).0, c), granted(g, c)),
        request_step(g, req).1 ==> no_stronger(Some(req.access), granted(g, req.component)),
        request_step(g, req).1 && req.access == Access::Write ==> granted(request_step(g, req).0, req.component).is_none(),
        granted(g, c).is_none() ==> granted(request_step(g, req).0, c).is_none(),
{
    lemma_grant_index(g, req.component);
    let i = grant_index(g, req.component);
    let g2 = request_step(g, req).0;
    if i < g.len() {
        lemma_granted_unique(g, req.component, i);
        if req.access == Access::Read {
            assert forall|a: int, b: int| 0 <= a < b < g2.len() implies (#[trigger] g2[a]).component
                != (#[trigger] g2[b]).component by {
                assert(g2[a].component == g[a].component);
                assert(g2[b].component == g[b].component);
            }
            if c == req.component {
                lemma_granted_unique(g2, c, i);
            } else {
                if exists|j: int| 0 <= j < g.len() && g[j].component == c {
                    let j = choose|j: int| 0 <= j < g.len() && g[j].component == c;
                    lemma_granted_unique(g, c, j);
                    lemma_granted_unique(g2, c, j);
                } else {
                    lemma_granted_absent(g, c);
                    assert forall|j: int| 0 <= j < g2.len() implies (#[trigger] g2[j]).component != c by {
                        assert(g2[j].component == g[j].component);
                    }
                    lemma_granted_absent(g2, c);
                }
            }
        } else if g[i].access == Access::Write {
            let last = g.len() - 1;
            assert forall|j: int| 0 <= j < g2.len() implies #[trigger] g2[j] == (if j == i {
                g[last]
            } else {
                g[j]
            }) by {}
            assert forall|a: int, b: int| 0 <= a < b < g2.len() implies (#[trigger] g2[a]).component
                != (#[trigger] g2[b]).component by {
                if a == i {
                    assert(g2[a] == g[last]);
                    assert(g2[b] == g[b]);
                } else if b == i {
                    assert(g2[b] == g[last]);
                    assert(g2[a] == g[a]);
                } else {
                    assert(g2[a] == g[a]);
                    assert(g2[b] == g[b]);
                }
            }
            assert forall|j: int| 0 <= j < g2.len() implies (#[trigger] g2[j]).component != req.component by {
                if j == i {
                    assert(g2[j] == g[last]);
                    assert(last != i);
                } else {
                    assert(g2[j] == g[j]);
                }
            }
            lemma_granted_absent(g2, req.component);
            if c == req.component {
            } else {
                if exists|j: int| 0 <= j < g.len() && g[j].component == c {
                    let j = choose|j: int| 0 <= j < g.len() && g[j].component == c;
                    lemma_granted_unique(g, c, j);
                    if j == last {
                        assert(g2[i] == g[last]);
                        lemma_granted_unique(g2, c, i);
                    } else {
                        assert(j != i);
                        assert(g2[j] == g[j]);
                        lemma_granted_unique(g2, c, j);
                    }
                } else {
                    lemma_granted_absent(g, c);
                    assert forall|j: int| 0 <= j < g2.len() implies (#[trigger] g2[j]).component != c by {
                        if j == i {
                            assert(g2[j] == g[last]);
                        } else {
                            assert(g2[j] == g[j]);
                        }
                    }
                    lemma_granted_absent(g2, c);
                }
            }
        }
    }
}

/// `take` never raises a permission, and never aliases a write: the
/// source keeps at most what it had on every component; the new token gets
/// at most what the source had; and where the new token got a write, the
/// source keeps no grant on that component.
pub proof fn lemma_take_never_elevates(g: Seq<ComponentAccess>, reqs: Seq<ComponentAccess>, c: ComponentId)
    requires
        unique_grants(g),
    ensures
        unique_grants(take_all(g, reqs).0),
        no_stronger(granted(take_all(g, reqs).0, c), granted(g, c)),
        forall|k: int|
            0 <= k < take_all(g, reqs).1.len() && (#[trigger] take_all(g, reqs).1[k]).component == c ==> no_stronger(
                Some(take_all(g, reqs).1[k].access),
                granted(g, c),
            ),
        forall|k: int|
            0 <= k < take_all(g, reqs).1.len() && (#[trigger] take_all(g, reqs).1[k]).component == c
                && take_all(g, reqs).1[k].access == Access::Write ==> granted(take_all(g, reqs).0, c).is_none(),
    decreases reqs.len(),
{
    if reqs.len() > 0 {
        let (g1, out) = take_all(g, reqs.drop_last());
        lemma_take_never_elevates(g, reqs.drop_last(), c);
        let req = reqs.last();
        lemma_step(g1, req, c);
        lemma_step(g1, req, req.component);
        let (g2, ok) = request_step(g1, req);
        let out2 = take_all(g, reqs).1;
        assert forall|k: int|
            0 <= k < out2.len() && (#[trigger] out2[k]).component == c implies no_stronger(
            Some(out2[k].access),
            granted(g, c),
        ) by {
            if k < out.len() {
                assert(out2[k] == out[k]);
            }
        }
        assert forall|k: int|
            0 <= k < out2.len() && (#[trigger] out2[k]).component == c && out2[k].access == Access::Write implies granted(
            g2,
            c,
        ).is_none() by {
            if k < out.len() {
                assert(out2[k] == out[k]);
            }
        }
    }
}

} // verus!
