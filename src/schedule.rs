//! The schedule: systems in the order they were added, and the dependency
//! graph that orders systems whose declared access conflicts.

use vstd::prelude::*;
use crate::access::{Access, ComponentAccess};
use crate::view::Query;
use crate::world::World;

verus! {

/// The access `s` declares on component `c`: none, or write where some
/// entry writes `c`, else read.
pub open spec fn kind_in(s: Seq<ComponentAccess>, c: u64) -> Option<Access> {
    if exists|i: int| 0 <= i < s.len() && (#[trigger] s[i]).component.0 == c {
        if exists|i: int| 0 <= i < s.len() && (#[trigger] s[i]).component.0 == c && s[i].access == Access::Write {
            Some(Access::Write)
        } else {
            Some(Access::Read)
        }
    } else {
        None
    }
}

/// Two access lists conflict: some component is accessed by both and
/// written by at least one.
pub open spec fn lists_conflict(x: Seq<ComponentAccess>, y: Seq<ComponentAccess>) -> bool {
    exists|c: u64|
        (#[trigger] kind_in(x, c)).is_some() && kind_in(y, c).is_some() && (kind_in(x, c) == Some(Access::Write)
            || kind_in(y, c) == Some(Access::Write))
}

/// Component ids strictly increase along `s`.
pub open spec fn sorted_by_component(s: Seq<ComponentAccess>) -> bool {
    forall|i: int, j: int| 0 <= i < j < s.len() ==> s[i].component.0 < s[j].component.0
}

/// The normal form of an access list: sorted by component, one entry per
/// component, write where any entry wrote it.
pub fn sort_dedup_access_types(list: &Vec<ComponentAccess>) -> (r: Vec<ComponentAccess>)
    ensures
        sorted_by_component(r@),
        forall|c: u64| #[trigger] kind_in(r@, c) == kind_in(list@, c),
{
    let mut out: Vec<ComponentAccess> = Vec::new();
    let mut i: usize = 0;
    while i < list.len()
        invariant
            0 <= i <= list@.len(),
            sorted_by_component(out@),
            forall|c: u64| #[trigger] kind_in(out@, c) == kind_in(list@.take(i as int), c),
        decreases list@.len() - i,
    {
        let x = list[i];
        let mut p: usize = 0;
        while p < out.len() && out[p].component.0 < x.component.0
            invariant
                0 <= p <= out@.len(),
                forall|j: int| 0 <= j < p ==> (#[trigger] out@[j]).component.0 < x.component.0,
            decreases out@.len() - p,
        {
            p = p + 1;
        }
        let ghost before = out@;
        let ghost prefix = list@.take(i as int);
        proof {
            assert(list@.take(i + 1) =~= prefix.push(x));
        }
        if p < out.len() && out[p].component.0 == x.component.0 {
            if x.access == Access::Write {
                let y = out[p];
                out.set(p, ComponentAccess { access: Access::Write, ..y });
            }
            proof {
                assert forall|c: u64| #[trigger] kind_in(out@, c) == kind_in(prefix.push(x), c) by {
                    lemma_kind_push(prefix, x, c);
                    lemma_kind_push(before, x, c);
                    if c == x.component.0 {
                        assert(before[p as int].component.0 == c);
                        assert(out@[p as int].component.0 == c);
                        if x.access == Access::Write {
                            assert(out@[p as int].access == Access::Write);
                        } else {
                            assert(out@ == before);
                        }
                    } else if x.access == Access::Write {
                        lemma_kind_update_other(before, p as int, out@[p as int], c);
                        assert(out@ == before.update(p as int, out@[p as int]));
                    } else {
                        assert(out@ == before);
                    }
                }
            }
        } else {
            out.insert(p, x);
            proof {
                assert forall|c: u64| #[trigger] kind_in(out@, c) == kind_in(prefix.push(x), c) by {
                    lemma_kind_push(prefix, x, c);
                    lemma_kind_push(before, x, c);
                    lemma_kind_insert(before, p as int, x, c);
                }
                assert forall|a: int, b: int| 0 <= a < b < out@.len() implies out@[a].component.0 < out@[b].component.0 by {
                    if b < p {
                    } else if b == p {
                        assert(out@[a] == before[a]);
                    } else if a < p {
                        assert(out@[b] == before[b - 1]);
                        if p < before.len() {
                            assert(before[p as int].component.0 > x.component.0);
                        }
                    } else if a == p {
                        assert(out@[b] == before[b - 1]);
                        assert(before[p as int].component.0 > x.component.0);
                    } else {
                        assert(out@[b] == before[b - 1]);
                        assert(out@[a] == before[a - 1]);
                    }
                }
            }
        }
        i = i + 1;
    }
    assert(list@.take(list@.len() as int) =~= list@);
    out
}

proof fn lemma_kind_push(s: Seq<ComponentAccess>, x: ComponentAccess, c: u64)
    ensures
        kind_in(s.push(x), c) == if x.component.0 != c {
            kind_in(s, c)
        } else if x.access == Access::Write {
            Some(Access::Write)
        } else if kind_in(s, c).is_some() {
            kind_in(s, c)
        } else {
            Some(Access::Read)
        },
{
    let t = s.push(x);
    assert(t[s.len() as int] == x);
    assert forall|i: int| 0 <= i < s.len() implies t[i] == s[i] by {}
    if kind_in(s, c).is_some() {
        let i = choose|i: int| 0 <= i < s.len() && (#[trigger] s[i]).component.0 == c;
        assert(t[i] == s[i]);
        if kind_in(s, c) == Some(Access::Write) {
            let k = choose|k: int| 0 <= k < s.len() && (#[trigger] s[k]).component.0 == c && s[k].access == Access::Write;
            assert(t[k] == s[k]);
        }
    }
}

proof fn lemma_kind_update_other(s: Seq<ComponentAccess>, p: int, y: ComponentAccess, c: u64)
    requires
        0 <= p < s.len(),
        s[p].component == y.component,
        y.component.0 != c,
    ensures
        kind_in(s.update(p, y), c) == kind_in(s, c),
{
    let t = s.update(p, y);
    if kind_in(s, c).is_some() {
        let i = choose|i: int| 0 <= i < s.len() && (#[trigger] s[i]).component.0 == c;
        assert(t[i] == s[i]);
        if kind_in(s, c) == Some(Access::Write) {
            let k = choose|k: int| 0 <= k < s.len() && (#[trigger] s[k]).component.0 == c && s[k].access == Access::Write;
            assert(t[k] == s[k]);
        }
    }
    if kind_in(t, c).is_some() {
        let i = choose|i: int| 0 <= i < t.len() && (#[trigger] t[i]).component.0 == c;
        assert(t[i] == s[i]);
        if kind_in(t, c) == Some(Access::Write) {
            let k = choose|k: int| 0 <= k < t.len() && (#[trigger] t[k]).component.0 == c && t[k].access == Access::Write;
            assert(t[k] == s[k]);
        }
    }
}

proof fn lemma_kind_insert(s: Seq<ComponentAccess>, p: int, x: ComponentAccess, c: u64)
    requires
        0 <= p <= s.len(),
    ensures
        kind_in(s.insert(p, x), c) == kind_in(s.push(x), c),
{
    let t = s.insert(p, x);
    let u = s.push(x);
    assert forall|i: int| 0 <= i < t.len() && (#[trigger] t[i]).component.0 == c implies exists|j: int|
        0 <= j < u.len() && u[j] == t[i] by {
        if i < p {
            assert(u[i] == t[i]);
        } else if i == p {
            assert(u[s.len() as int] == t[i]);
        } else {
            assert(u[i - 1] == t[i]);
        }
    }
    assert forall|j: int| 0 <= j < u.len() && (#[trigger] u[j]).component.0 == c implies exists|i: int|
        0 <= i < t.len() && u[j] == t[i] by {
        if j < p {
            assert(u[j] == t[j]);
        } else if j == s.len() {
            assert(u[j] == t[p]);
        } else {
            assert(u[j] == t[j + 1]);
        }
    }
    if kind_in(t, c).is_some() {
        let i = choose|i: int| 0 <= i < t.len() && (#[trigger] t[i]).component.0 == c;
        let j = choose|j: int| 0 <= j < u.len() && u[j] == t[i];
        assert(u[j].component.0 == c);
    }
    if kind_in(u, c).is_some() {
        let j = choose|j: int| 0 <= j < u.len() && (#[trigger] u[j]).component.0 == c;
        let i = choose|i: int| 0 <= i < t.len() && u[j] == t[i];
        assert(t[i].component.0 == c);
    }
    if kind_in(t, c) == Some(Access::Write) {
        let i = choose|i: int| 0 <= i < t.len() && (#[trigger] t[i]).component.0 == c && t[i].access == Access::Write;
        let j = choose|j: int| 0 <= j < u.len() && u[j] == t[i];
        assert(u[j].component.0 == c && u[j].access == Access::Write);
    }
    if kind_in(u, c) == Some(Access::Write) {
        let j = choose|j: int| 0 <= j < u.len() && (#[trigger] u[j]).component.0 == c && u[j].access == Access::Write;
        let i = choose|i: int| 0 <= i < t.len() && u[j] == t[i];
        assert(t[i].component.0 == c && t[i].access == Access::Write);
    }
}

/// The access `list` declares on component `c`.
fn kind_of(list: &Vec<ComponentAccess>, c: u64) -> (r: Option<Access>)
    ensures
        r == kind_in(list@, c),
{
    let mut found = false;
    let mut i: usize = 0;
    while i < list.len()
        invariant
            0 <= i <= list@.len(),
            found <==> exists|k: int| 0 <= k < i && (#[trigger] list@[k]).component.0 == c,
            forall|k: int| 0 <= k < i && (#[trigger] list@[k]).component.0 == c ==> list@[k].access != Access::Write,
        decreases list@.len() - i,
    {
        if list[i].component.0 == c {
            if list[i].access == Access::Write {
                return Some(Access::Write);
            }
            found = true;
        }
        i = i + 1;
    }
    if found {
        Some(Access::Read)
    } else {
        None
    }
}


/// Returns true if `x` and `y` conflict: some component is in both and
/// written by at least one.
pub fn conflicts(x: &Vec<ComponentAccess>, y: &Vec<ComponentAccess>) -> (r: bool)
    ensures
        r == lists_conflict(x@, y@),
{
    let mut i: usize = 0;
    while i < y.len()
        invariant
            0 <= i <= y@.len(),
            forall|k: int|
                0 <= k < i ==> !({
                    let c = (#[trigger] y@[k]).component.0;
                    kind_in(x@, c).is_some() && (kind_in(x@, c) == Some(Access::Write) || y@[k].access
                        == Access::Write)
                }),
        decreases y@.len() - i,
    {
        let m = y[i];
        match kind_of(x, m.component.0) {
            Some(kind) => {
                if kind == Access::Write || m.access == Access::Write {
                    proof {
                        let c = m.component.0;
                        assert(y@[i as int].component.0 == c);
                        if m.access == Access::Write {
                            assert(kind_in(y@, c) == Some(Access::Write));
                        } else {
                            assert(kind_in(y@, c).is_some());
                        }
                    }
                    return true;
                }
            },
            None => {},
        }
        i = i + 1;
    }
    proof {
        if lists_conflict(x@, y@) {
            let c = choose|c: u64|
                (#[trigger] kind_in(x@, c)).is_some() && kind_in(y@, c).is_some() && (kind_in(x@, c) == Some(
                    Access::Write,
                ) || kind_in(y@, c) == Some(Access::Write));
            if kind_in(y@, c) == Some(Access::Write) {
                let k = choose|k: int|
                    0 <= k < y@.len() && (#[trigger] y@[k]).component.0 == c && y@[k].access == Access::Write;
                assert(y@[k].component.0 == c);
            } else {
                let k = choose|k: int| 0 <= k < y@.len() && (#[trigger] y@[k]).component.0 == c;
                assert(y@[k].component.0 == c);
            }
        }
    }
    false
}

/// The access of two compatible declarations together: write where either
/// writes, read where either reads.
pub open spec fn join(a: Option<Access>, b: Option<Access>) -> Option<Access> {
    match (a, b) {
        (None, x) => x,
        (x, None) => x,
        (Some(Access::Read), Some(Access::Read)) => Some(Access::Read),
        _ => Some(Access::Write),
    }
}

proof fn lemma_kind_sorted(s: Seq<ComponentAccess>, i: int)
    requires
        sorted_by_component(s),
        0 <= i < s.len(),
    ensures
        kind_in(s, s[i].component.0) == Some(s[i].access),
{
    let c = s[i].component.0;
    assert forall|k: int| 0 <= k < s.len() && (#[trigger] s[k]).component.0 == c implies k == i by {
        if k < i {
            assert(s[k].component.0 < s[i].component.0);
        } else if k > i {
            assert(s[i].component.0 < s[k].component.0);
        }
    }
    assert(s[i].component.0 == c);
}

proof fn lemma_kind_none(s: Seq<ComponentAccess>, c: u64)
    requires
        forall|k: int| 0 <= k < s.len() ==> (#[trigger] s[k]).component.0 != c,
    ensures
        kind_in(s, c).is_none(),
{
}

/// Merges `merge` into `existing`, the access of a group of systems that
/// may run together, unless the two conflict:
/// on a merge `existing` becomes the sorted union of the two (a component in
/// both is read by both and stays read); on a conflict it starts over as
/// `merge`. Returns true on a merge.
pub fn merge_access_types(existing: &mut Vec<ComponentAccess>, merge: &Vec<ComponentAccess>) -> (r: bool)
    requires
        sorted_by_component(old(existing)@),
        sorted_by_component(merge@),
    ensures
        r == !lists_conflict(old(existing)@, merge@),
        sorted_by_component(final(existing)@),
        r ==> forall|c: u64|
            #[trigger] kind_in(final(existing)@, c) == join(kind_in(old(existing)@, c), kind_in(merge@, c)),
        !r ==> final(existing)@ == merge@,
{
    if conflicts(existing, merge) {
        *existing = merge.clone();
        assert(existing@ =~= merge@);
        return false;
    }
    let ghost x = existing@;
    let ghost y = merge@;
    let mut out: Vec<ComponentAccess> = Vec::new();
    let mut i: usize = 0;
    let mut j: usize = 0;
    assert(x.take(0) =~= Seq::<ComponentAccess>::empty());
    assert(y.take(0) =~= Seq::<ComponentAccess>::empty());
    while i < existing.len() || j < merge.len()
        invariant
            x == existing@,
            y == merge@,
            sorted_by_component(x),
            sorted_by_component(y),
            !lists_conflict(x, y),
            0 <= i <= x.len(),
            0 <= j <= y.len(),
            sorted_by_component(out@),
            forall|k: int, a: int| 0 <= k < out@.len() && i <= a < x.len() ==> (#[trigger] out@[k]).component.0 < (#[trigger] x[a]).component.0,
            forall|k: int, b: int| 0 <= k < out@.len() && j <= b < y.len() ==> (#[trigger] out@[k]).component.0 < (#[trigger] y[b]).component.0,
            forall|a: int, b: int| 0 <= a < i && j <= b < y.len() ==> (#[trigger] x[a]).component.0 < (#[trigger] y[b]).component.0,
            forall|a: int, b: int| 0 <= b < j && i <= a < x.len() ==> (#[trigger] y[b]).component.0 < (#[trigger] x[a]).component.0,
            forall|c: u64| #[trigger] kind_in(out@, c) == join(kind_in(x.take(i as int), c), kind_in(y.take(j as int), c)),
        decreases x.len() + y.len() - i - j,
    {
        let take_x = if i < existing.len() && j < merge.len() {
            existing[i].component.0 <= merge[j].component.0
        } else {
            i < existing.len()
        };
        let same = i < existing.len() && j < merge.len() && existing[i].component.0 == merge[j].component.0;
        let e = if take_x { existing[i] } else { merge[j] };
        let ghost old_out = out@;
        out.push(e);
        proof {
            let c0 = e.component.0;
            assert forall|k: int| 0 <= k < old_out.len() implies (#[trigger] old_out[k]).component.0 < c0 by {
                if take_x {
                    assert(old_out[k] == out@[k]);
                } else {
                    assert(old_out[k] == out@[k]);
                }
            }
            assert forall|a: int, b: int| 0 <= a < out@.len() && a < b < out@.len() implies out@[a].component.0
                < out@[b].component.0 by {
                if b == old_out.len() {
                    assert(out@[a] == old_out[a]);
                } else {
                    assert(out@[a] == old_out[a]);
                    assert(out@[b] == old_out[b]);
                }
            }
        }
        if take_x {
            if same {
                proof {
                    let c0 = e.component.0;
                    lemma_kind_sorted(x, i as int);
                    lemma_kind_sorted(y, j as int);
                    assert(x[i as int].access == Access::Read && y[j as int].access == Access::Read) by {
                        if x[i as int].access == Access::Write || y[j as int].access == Access::Write {
                            assert(lists_conflict(x, y));
                        }
                    }
                    assert(y.take(j + 1) =~= y.take(j as int).push(y[j as int]));
                    assert(x.take(i + 1) =~= x.take(i as int).push(x[i as int]));
                    assert forall|c: u64| #[trigger] kind_in(out@, c) == join(kind_in(x.take(i + 1), c), kind_in(y.take(j + 1), c)) by {
                        lemma_kind_push(old_out, e, c);
                        lemma_kind_push(x.take(i as int), x[i as int], c);
                        lemma_kind_push(y.take(j as int), y[j as int], c);
                        if c == c0 {
                            assert forall|k: int| 0 <= k < old_out.len() implies (#[trigger] old_out[k]).component.0 != c by {}
                            lemma_kind_none(old_out, c);
                            assert forall|k: int| 0 <= k < i implies (#[trigger] x.take(i as int)[k]).component.0 != c by {
                                assert(x[k].component.0 < x[i as int].component.0);
                            }
                            lemma_kind_none(x.take(i as int), c);
                            assert forall|k: int| 0 <= k < j implies (#[trigger] y.take(j as int)[k]).component.0 != c by {
                                assert(y[k].component.0 < y[j as int].component.0);
                            }
                            lemma_kind_none(y.take(j as int), c);
                        }
                    }
                }
                i = i + 1;
                j = j + 1;
            } else {
                proof {
                    let c0 = e.component.0;
                    assert(x.take(i + 1) =~= x.take(i as int).push(x[i as int]));
                    assert forall|c: u64| #[trigger] kind_in(out@, c) == join(kind_in(x.take(i + 1), c), kind_in(y.take(j as int), c)) by {
                        lemma_kind_push(old_out, e, c);
                        lemma_kind_push(x.take(i as int), x[i as int], c);
                        if c == c0 {
                            assert forall|k: int| 0 <= k < old_out.len() implies (#[trigger] old_out[k]).component.0 != c by {}
                            lemma_kind_none(old_out, c);
                            assert forall|k: int| 0 <= k < i implies (#[trigger] x.take(i as int)[k]).component.0 != c by {
                                assert(x[k].component.0 < x[i as int].component.0);
                            }
                            lemma_kind_none(x.take(i as int), c);
                            assert forall|k: int| 0 <= k < j implies (#[trigger] y.take(j as int)[k]).component.0 != c by {
                                assert(y[k].component.0 < x[i as int].component.0);
                            }
                            lemma_kind_none(y.take(j as int), c);
                        }
                    }
                    assert forall|a: int, b: int| 0 <= a < i + 1 && j <= b < y.len() implies (#[trigger] x[a]).component.0
                        < (#[trigger] y[b]).component.0 by {
                        if a == i {
                            if b > j {
                                assert(y[j as int].component.0 < y[b].component.0);
                            }
                        }
                    }
                    assert forall|a: int, b: int| 0 <= b < j && i + 1 <= a < x.len() implies (#[trigger] y[b]).component.0
                        < (#[trigger] x[a]).component.0 by {
                        assert(x[i as int].component.0 < x[a].component.0);
                    }
                }
                i = i + 1;
            }
        } else {
            proof {
                let c0 = e.component.0;
                assert(y.take(j + 1) =~= y.take(j as int).push(y[j as int]));
                assert forall|c: u64| #[trigger] kind_in(out@, c) == join(kind_in(x.take(i as int), c), kind_in(y.take(j + 1), c)) by {
                    lemma_kind_push(old_out, e, c);
                    lemma_kind_push(y.take(j as int), y[j as int], c);
                    if c == c0 {
                        assert forall|k: int| 0 <= k < old_out.len() implies (#[trigger] old_out[k]).component.0 != c by {}
                        lemma_kind_none(old_out, c);
                        assert forall|k: int| 0 <= k < i implies (#[trigger] x.take(i as int)[k]).component.0 != c by {
                            assert(x[k].component.0 < y[j as int].component.0);
                        }
                        lemma_kind_none(x.take(i as int), c);
                        assert forall|k: int| 0 <= k < j implies (#[trigger] y.take(j as int)[k]).component.0 != c by {
                            assert(y[k].component.0 < y[j as int].component.0);
                        }
                        lemma_kind_none(y.take(j as int), c);
                    }
                }
                assert forall|a: int, b: int| 0 <= b < j + 1 && i <= a < x.len() implies (#[trigger] y[b]).component.0
                    < (#[trigger] x[a]).component.0 by {
                    if b == j {
                        if a > i {
                            assert(x[i as int].component.0 < x[a].component.0);
                        }
                    }
                }
                assert forall|a: int, b: int| 0 <= a < i && j + 1 <= b < y.len() implies (#[trigger] x[a]).component.0
                    < (#[trigger] y[b]).component.0 by {
                    assert(y[j as int].component.0 < y[b].component.0);
                }
            }
            j = j + 1;
        }
    }
    proof {
        assert(x.take(x.len() as int) =~= x);
        assert(y.take(y.len() as int) =~= y);
    }
    *existing = out;
    true
}

/// One system of a plan: the systems it waits for and those it signals.
/// `waits` starts at one more than the number of predecessors: the extra
/// signal is given when the schedule starts.
#[derive(Debug)]
pub struct Node {
    pub waits: usize,
    pub preds: Vec<usize>,
    pub signals: Vec<usize>,
}

/// The dependency graph of a schedule on one world.
pub struct Plan {
    pub nodes: Vec<Node>,
    /// `intents[j][a]`: the normalised access of system `j` on archetype `a`.
    pub intents: Vec<Vec<Vec<ComponentAccess>>>,
}

impl Plan {
    /// System `p` is a predecessor of system `j`.
    pub open spec fn precedes(&self, p: int, j: int) -> bool {
        &&& 0 <= j < self.nodes@.len()
        &&& exists|q: int| 0 <= q < self.nodes@[j].preds@.len() && #[trigger] self.nodes@[j].preds@[q] as int == p
    }

    /// The normalised access of system `j` on archetype `a`.
    pub open spec fn intent(&self, j: int, a: int) -> Seq<ComponentAccess> {
        self.intents@[j]@[a]@
    }

    /// Systems `p` and `j` conflict on some archetype.
    pub open spec fn conflict(&self, p: int, j: int, na: int) -> bool {
        exists|a: int| 0 <= a < na && lists_conflict(#[trigger] self.intent(p, a), self.intent(j, a))
    }

    /// What `Schedule::plan` establishes for `n` systems on `na` archetypes:
    /// a system waits for exactly the earlier systems it conflicts with on
    /// some archetype, and signals exactly the later ones that wait for it.
    pub open spec fn wf(&self, n: int, na: int) -> bool {
        &&& 0 <= n <= usize::MAX
        &&& self.nodes@.len() == n
        &&& self.intents@.len() == n
        &&& forall|j: int| 0 <= j < n ==> (#[trigger] self.intents@[j])@.len() == na
        &&& forall|j: int, p: int|
            0 <= j < n ==> (#[trigger] self.precedes(p, j) <==> 0 <= p < j && self.conflict(p, j, na))
        &&& forall|j: int|
            0 <= j < n ==> (#[trigger] self.nodes@[j]).waits == self.nodes@[j].preds@.len() + 1
        &&& forall|j: int, p: int|
            0 <= j < n && 0 <= p < n ==> (self.nodes@[p].signals@.contains(j as usize) <==> #[trigger] self.precedes(
                p,
                j,
            ))
    }
}

pub struct Schedule {
    systems: Vec<Query>,
}

impl Schedule {
    pub closed spec fn spec_systems(&self) -> Seq<Query> {
        self.systems@
    }

    /// An empty schedule.
    pub fn new() -> (r: Schedule)
        ensures
            r.spec_systems().len() == 0,
    {
        Schedule { systems: Vec::new() }
    }

    /// Adds a system declaring `accessor`; it runs after every earlier
    /// system it conflicts with.
    pub fn add_system(&mut self, accessor: Query) -> (r: usize)
        ensures
            final(self).spec_systems() == old(self).spec_systems().push(accessor),
            r == old(self).spec_systems().len(),
    {
        let r = self.systems.len();
        self.systems.push(accessor);
        r
    }

    /// The schedule with a system declaring `accessor` added.
    pub fn with_system(self, accessor: Query) -> (r: Schedule)
        ensures
            r.spec_systems() == self.spec_systems().push(accessor),
    {
        let mut s = self;
        s.add_system(accessor);
        s
    }

    /// Number of systems.
    pub fn len(&self) -> (r: usize)
        ensures
            r == self.spec_systems().len(),
    {
        self.systems.len()
    }

    /// The access system `i` declares.
    pub fn accessor(&self, i: usize) -> (r: &Query)
        requires
            i < self.spec_systems().len(),
        ensures
            *r == self.spec_systems()[i as int],
    {
        &self.systems[i]
    }

    /// The order of the sequential mode: every system, in the order added.
    pub fn sequential_order(&self) -> (r: Vec<usize>)
        ensures
            r@.len() == self.spec_systems().len(),
            forall|i: int| 0 <= i < r@.len() ==> r@[i] == i,
    {
        let mut r: Vec<usize> = Vec::new();
        let mut i: usize = 0;
        while i < self.systems.len()
            invariant
                0 <= i <= self.systems@.len(),
                r@.len() == i,
                forall|k: int| 0 <= k < i ==> r@[k] == k,
            decreases self.systems@.len() - i,
        {
            r.push(i);
            i = i + 1;
        }
        r
    }
}

proof fn lemma_increasing_len(r: Seq<usize>, j: int)
    requires
        0 <= j,
        forall|a: int, b: int| 0 <= a < b < r.len() ==> r[a] < r[b],
        forall|k: int| 0 <= k < r.len() ==> r[k] < j,
    ensures
        r.len() <= j,
    decreases r.len(),
{
    if r.len() > 0 {
        let t = r.drop_last();
        assert forall|a: int, b: int| 0 <= a < b < t.len() implies t[a] < t[b] by {
            assert(t[a] == r[a] && t[b] == r[b]);
        }
        assert forall|k: int| 0 <= k < t.len() implies t[k] < r[r.len() - 1] by {
            assert(t[k] == r[k]);
        }
        lemma_increasing_len(t, r[r.len() - 1] as int);
        assert(t.len() <= r[r.len() - 1]);
        assert(r[r.len() - 1] < j);
    }
}


impl Schedule {
    /// The normalised access of system `j` on archetype `a` of `world`.
    pub open spec fn spec_intent(&self, world: World, j: int, a: int) -> Seq<ComponentAccess> {
        self.spec_systems()[j].spec_access_types(world.spec_archetypes()[a].spec_archetype())
    }

    /// Builds the dependency graph for running the systems on `world` in
    /// parallel: every system waits for each earlier system whose access
    /// conflicts with its own on some archetype.
    pub fn plan(&self, world: &World) -> (r: Plan)
        requires
            world.wf(),
        ensures
            r.wf(self.spec_systems().len() as int, world.spec_archetypes().len() as int),
            forall|j: int, a: int|
                0 <= j < self.spec_systems().len() && 0 <= a < world.spec_archetypes().len() ==> sorted_by_component(
                    #[trigger] r.intent(j, a),
                ) && forall|c: u64| #[trigger] kind_in(r.intent(j, a), c) == kind_in(self.spec_intent(*world, j, a), c),
    {
        let archetypes = world.archetypes();
        let n = self.systems.len();
        let na = archetypes.len();
        let mut nodes: Vec<Node> = Vec::new();
        let mut intents: Vec<Vec<Vec<ComponentAccess>>> = Vec::new();
        let mut j: usize = 0;
        while j < n
            invariant
                0 <= j <= n,
                n == self.spec_systems().len(),
                na == world.spec_archetypes().len(),
                archetypes@ == world.spec_archetypes(),
                world.wf(),
                nodes@.len() == j,
                intents@.len() == j,
                forall|k: int| 0 <= k < j ==> (#[trigger] intents@[k])@.len() == na,
                forall|k: int, b: int|
                    0 <= k < j && 0 <= b < na ==> sorted_by_component(#[trigger] intents@[k]@[b]@) && forall|c: u64|
                        #[trigger] kind_in(intents@[k]@[b]@, c) == kind_in(self.spec_intent(*world, k, b), c),
                forall|k: int, p: usize|
                    0 <= k < j ==> (#[trigger] nodes@[k].preds@.contains(p) <==> p < k && exists|b: int|
                        0 <= b < na && lists_conflict(#[trigger] intents@[p as int]@[b]@, intents@[k]@[b]@)),
                forall|k: int| 0 <= k < j ==> (#[trigger] nodes@[k]).waits == nodes@[k].preds@.len() + 1,
                forall|k: int, p: int|
                    0 <= k < j && 0 <= p < j ==> (#[trigger] nodes@[p].signals@.contains(k as usize)
                        <==> nodes@[k].preds@.contains(p as usize)),
                forall|p: int, x: usize| 0 <= p < j && #[trigger] nodes@[p].signals@.contains(x) ==> x < j,
            decreases n - j,
        {
            let mut sys_intents: Vec<Vec<ComponentAccess>> = Vec::new();
            let mut a: usize = 0;
            while a < na
                invariant
                    0 <= a <= na,
                    j < n,
                    n == self.spec_systems().len(),
                    na == world.spec_archetypes().len(),
                    archetypes@ == world.spec_archetypes(),
                    world.wf(),
                    sys_intents@.len() == a,
                    forall|b: int|
                        0 <= b < a ==> sorted_by_component(#[trigger] sys_intents@[b]@) && forall|c: u64|
                            #[trigger] kind_in(sys_intents@[b]@, c) == kind_in(self.spec_intent(*world, j as int, b), c),
                decreases na - a,
            {
                proof {
                    assert(world.spec_archetypes()[a as int].wf());
                }
                let declared = self.systems[j].access_types(archetypes[a].archetype());
                let intent = sort_dedup_access_types(&declared);
                sys_intents.push(intent);
                proof {
                    assert(sys_intents@[a as int]@ == intent@);
                }
                a = a + 1;
            }
            let mut preds: Vec<usize> = Vec::new();
            let mut p: usize = 0;
            while p < j
                invariant
                    0 <= p <= j,
                    j < n,
                    intents@.len() == j,
                    sys_intents@.len() == na,
                    forall|k: int| 0 <= k < j ==> (#[trigger] intents@[k])@.len() == na,
                    forall|x: int| 0 <= x < preds@.len() ==> #[trigger] preds@[x] < p,
                    forall|x: int, y: int| 0 <= x < y < preds@.len() ==> preds@[x] < preds@[y],
                    forall|x: usize| #[trigger] preds@.contains(x) <==> x < p && exists|b: int|
                        0 <= b < na && lists_conflict(#[trigger] intents@[x as int]@[b]@, sys_intents@[b]@),
                decreases j - p,
            {
                let mut hit = false;
                let mut b: usize = 0;
                while b < na
                    invariant
                        0 <= b <= na,
                        p < j,
                        intents@.len() == j,
                        sys_intents@.len() == na,
                        intents@[p as int]@.len() == na,
                        hit <==> exists|b2: int|
                            0 <= b2 < b && lists_conflict(#[trigger] intents@[p as int]@[b2]@, sys_intents@[b2]@),
                    decreases na - b,
                {
                    if conflicts(&intents[p][b], &sys_intents[b]) {
                        hit = true;
                    }
                    b = b + 1;
                }
                let ghost before = preds@;
                if hit {
                    preds.push(p);
                }
                proof {
                    assert forall|x: usize| #[trigger] preds@.contains(x) <==> x < p + 1 && exists|b2: int|
                        0 <= b2 < na && lists_conflict(#[trigger] intents@[x as int]@[b2]@, sys_intents@[b2]@) by {
                        if hit {
                            lemma_push_contains(before, p, x);
                        }
                        if before.contains(x) {
                            let q = choose|q: int| 0 <= q < before.len() && before[q] == x;
                            assert(before[q] < p);
                        }
                    }
                }
                p = p + 1;
            }
            proof {
                lemma_increasing_len(preds@, j as int);
            }
            let mut q: usize = 0;
            while q < preds.len()
                invariant
                    0 <= q <= preds@.len(),
                    nodes@.len() == j,
                    forall|x: int| 0 <= x < preds@.len() ==> preds@[x] < j,
                    forall|x: int, y: int| 0 <= x < y < preds@.len() ==> preds@[x] < preds@[y],
                    forall|k: int, pp: usize|
                        0 <= k < j ==> (#[trigger] nodes@[k].preds@.contains(pp) <==> pp < k && exists|b: int|
                            0 <= b < na && lists_conflict(#[trigger] intents@[pp as int]@[b]@, intents@[k]@[b]@)),
                    forall|k: int| 0 <= k < j ==> (#[trigger] nodes@[k]).waits == nodes@[k].preds@.len() + 1,
                    forall|k: int, pp: int|
                        0 <= k < j && 0 <= pp < j ==> (#[trigger] nodes@[pp].signals@.contains(k as usize)
                            <==> nodes@[k].preds@.contains(pp as usize)),
                    forall|pp: int, x: usize| 0 <= pp < j && #[trigger] nodes@[pp].signals@.contains(x) ==> x <= j,
                    forall|pp: int|
                        0 <= pp < j ==> (#[trigger] nodes@[pp].signals@.contains(j as usize) <==> exists|x: int|
                            0 <= x < q && #[trigger] preds@[x] == pp),
                decreases preds@.len() - q,
            {
                let p = preds[q];
                let ghost old_nodes = nodes@;
                nodes[p].signals.push(j);
                proof {
                    assert forall|k: int| 0 <= k < j implies (#[trigger] nodes@[k]).preds == old_nodes[k].preds
                        && nodes@[k].waits == old_nodes[k].waits by {}
                    assert forall|k: int, pp: usize|
                        0 <= k < j implies (#[trigger] nodes@[k].preds@.contains(pp) <==> pp < k && exists|b: int|
                            0 <= b < na && lists_conflict(#[trigger] intents@[pp as int]@[b]@, intents@[k]@[b]@)) by {
                        assert(nodes@[k].preds == old_nodes[k].preds);
                    }
                    assert forall|k: int| 0 <= k < j implies (#[trigger] nodes@[k]).waits == nodes@[k].preds@.len() + 1 by {
                        assert(nodes@[k].preds == old_nodes[k].preds);
                    }
                    assert forall|k: int, pp: int|
                        0 <= k < j && 0 <= pp < j implies (#[trigger] nodes@[pp].signals@.contains(k as usize)
                        <==> nodes@[k].preds@.contains(pp as usize)) by {
                        assert(nodes@[k].preds == old_nodes[k].preds);
                        if pp == p {
                            lemma_push_contains(old_nodes[pp].signals@, j, k as usize);
                        } else {
                            assert(nodes@[pp] == old_nodes[pp]);
                        }
                    }
                    assert forall|pp: int, x: usize| 0 <= pp < j && #[trigger] nodes@[pp].signals@.contains(x) implies x <= j by {
                        if pp == p {
                            lemma_push_contains(old_nodes[pp].signals@, j, x);
                        } else {
                            assert(nodes@[pp] == old_nodes[pp]);
                        }
                    }
                    assert forall|pp: int| 0 <= pp < j implies (#[trigger] nodes@[pp].signals@.contains(j as usize)
                        <==> exists|x: int| 0 <= x < q + 1 && #[trigger] preds@[x] == pp) by {
                        if pp == p {
                            lemma_push_contains(old_nodes[pp].signals@, j, j);
                            assert(preds@[q as int] == pp);
                        } else {
                            assert(nodes@[pp] == old_nodes[pp]);
                            if exists|x: int| 0 <= x < q + 1 && #[trigger] preds@[x] == pp {
                                let x = choose|x: int| 0 <= x < q + 1 && #[trigger] preds@[x] == pp;
                                assert(x != q);
                            }
                        }
                    }
                }
                q = q + 1;
            }
            let waits = preds.len() + 1;
            let ghost old_nodes = nodes@;
            let ghost old_intents = intents@;
            let ghost pv = preds@;
            nodes.push(Node { waits, preds, signals: Vec::new() });
            intents.push(sys_intents);
            proof {
                let jj = j as int;
                assert forall|k: int| 0 <= k < jj implies #[trigger] intents@[k] == old_intents[k] by {}
                assert forall|k: int, pp: usize|
                    0 <= k < j + 1 implies (#[trigger] nodes@[k].preds@.contains(pp) <==> pp < k && exists|b: int|
                        0 <= b < na && lists_conflict(#[trigger] intents@[pp as int]@[b]@, intents@[k]@[b]@)) by {
                    if k < jj {
                        assert(nodes@[k] == old_nodes[k]);
                        if pp < k {
                            assert(intents@[pp as int] == old_intents[pp as int]);
                        }
                        assert(intents@[k] == old_intents[k]);
                    } else {
                        assert(nodes@[k].preds@ == pv);
                        assert(intents@[k] == sys_intents);
                        if pp < k {
                            assert(intents@[pp as int] == old_intents[pp as int]);
                        }
                    }
                }
                assert forall|k: int| 0 <= k < j + 1 implies (#[trigger] nodes@[k]).waits == nodes@[k].preds@.len() + 1 by {
                    if k < jj {
                        assert(nodes@[k] == old_nodes[k]);
                    }
                }
                assert forall|k: int, pp: int|
                    0 <= k < j + 1 && 0 <= pp < j + 1 implies (#[trigger] nodes@[pp].signals@.contains(k as usize)
                    <==> nodes@[k].preds@.contains(pp as usize)) by {
                    if pp == jj {
                        assert(nodes@[pp].signals@.len() == 0);
                        if nodes@[k].preds@.contains(pp as usize) {
                            if k < jj {
                                assert(old_nodes[k] == nodes@[k]);
                            } else {
                                let x = choose|x: int| 0 <= x < pv.len() && pv[x] == pp as usize;
                            }
                        }
                    } else if k == jj {
                        assert(nodes@[pp] == old_nodes[pp]);
                        assert(nodes@[k].preds@ == pv);
                        if nodes@[pp].signals@.contains(k as usize) {
                            let x = choose|x: int| 0 <= x < pv.len() && #[trigger] pv[x] == pp;
                            assert(pv[x] == pp as usize);
                        }
                        if pv.contains(pp as usize) {
                            let x = choose|x: int| 0 <= x < pv.len() && pv[x] == pp as usize;
                            assert(pv[x] as int == pp);
                        }
                    } else {
                        assert(nodes@[pp] == old_nodes[pp]);
                        assert(nodes@[k] == old_nodes[k]);
                    }
                }
                assert forall|pp: int, x: usize| 0 <= pp < j + 1 && #[trigger] nodes@[pp].signals@.contains(x) implies x < j + 1 by {
                    if pp < jj {
                        assert(nodes@[pp] == old_nodes[pp]);
                    }
                }
                assert forall|k: int, b: int|
                    0 <= k < j + 1 && 0 <= b < na implies sorted_by_component(#[trigger] intents@[k]@[b]@)
                    && forall|c: u64| #[trigger] kind_in(intents@[k]@[b]@, c) == kind_in(self.spec_intent(*world, k, b), c) by {
                    if k < jj {
                        assert(intents@[k] == old_intents[k]);
                    }
                }
            }
            j = j + 1;
        }
        let r = Plan { nodes, intents };
        proof {
            let nn = n as int;
            let nb = na as int;
            assert forall|jx: int, p: int| 0 <= jx < nn implies (#[trigger] r.precedes(p, jx) <==> 0 <= p < jx
                && r.conflict(p, jx, nb)) by {
                if r.precedes(p, jx) {
                    let q = choose|q: int| 0 <= q < r.nodes@[jx].preds@.len() && #[trigger] r.nodes@[jx].preds@[q] as int == p;
                    let x = r.nodes@[jx].preds@[q];
                    assert(r.nodes@[jx].preds@.contains(x));
                    let b = choose|b: int| 0 <= b < na && lists_conflict(#[trigger] r.intents@[x as int]@[b]@, r.intents@[jx]@[b]@);
                    assert(lists_conflict(r.intent(p, b), r.intent(jx, b)));
                }
                if 0 <= p < jx && r.conflict(p, jx, nb) {
                    let b = choose|b: int| 0 <= b < nb && lists_conflict(#[trigger] r.intent(p, b), r.intent(jx, b));
                    assert(lists_conflict(r.intents@[(p as usize) as int]@[b]@, r.intents@[jx]@[b]@));
                    assert(r.nodes@[jx].preds@.contains(p as usize));
                    let q = choose|q: int| 0 <= q < r.nodes@[jx].preds@.len() && r.nodes@[jx].preds@[q] == p as usize;
                    assert(r.nodes@[jx].preds@[q] as int == p);
                }
            }
            assert forall|jx: int, p: int|
                0 <= jx < nn && 0 <= p < nn implies (r.nodes@[p].signals@.contains(jx as usize)
                <==> #[trigger] r.precedes(p, jx)) by {
                assert(r.nodes@[p].signals@.contains(jx as usize) <==> r.nodes@[jx].preds@.contains(p as usize));
                if r.nodes@[jx].preds@.contains(p as usize) {
                    let q = choose|q: int| 0 <= q < r.nodes@[jx].preds@.len() && r.nodes@[jx].preds@[q] == p as usize;
                    assert(r.nodes@[jx].preds@[q] as int == p);
                }
                if r.precedes(p, jx) {
                    let q = choose|q: int| 0 <= q < r.nodes@[jx].preds@.len() && #[trigger] r.nodes@[jx].preds@[q] as int == p;
                    assert(r.nodes@[jx].preds@[q] == p as usize);
                }
            }
        }
        r
    }
}

proof fn lemma_push_contains(s: Seq<usize>, a: usize, x: usize)
    ensures
        s.push(a).contains(x) <==> s.contains(x) || x == a,
{
    if s.contains(x) {
        let y = choose|y: int| 0 <= y < s.len() && s[y] == x;
        assert(s.push(a)[y] == x);
    }
    if x == a {
        assert(s.push(a)[s.len() as int] == x);
    }
    if s.push(a).contains(x) && x != a {
        let y = choose|y: int| 0 <= y < s.push(a).len() && s.push(a)[y] == x;
        assert(s[y] == x);
    }
}

/// Conflicting systems run in the order they were added: where systems
/// `i < j` conflict on some archetype, `i` is a predecessor of `j`, so `j`
/// starts only after `i` has completed.
pub proof fn lemma_conflicts_are_ordered(plan: Plan, n: int, na: int, i: int, j: int, a: int)
    requires
        plan.wf(n, na),
        0 <= i < j < n,
        0 <= a < na,
        lists_conflict(plan.intent(i, a), plan.intent(j, a)),
    ensures
        plan.precedes(i, j),
{
    assert(plan.conflict(i, j, na));
}

/// The state of one run of a plan: which systems have started and
/// completed, and which predecessors each system still waits for.
pub struct Dispatch {
    pending: Vec<Vec<usize>>,
    started: Vec<bool>,
    done: Vec<bool>,
}

impl Dispatch {
    pub closed spec fn spec_started(&self) -> Seq<bool> {
        self.started@
    }

    pub closed spec fn spec_done(&self) -> Seq<bool> {
        self.done@
    }

    pub closed spec fn spec_pending(&self, j: int) -> Seq<usize> {
        self.pending@[j]@
    }

    pub closed spec fn spec_pending_count(&self) -> int {
        self.pending@.len() as int
    }

    /// A system waits exactly for its predecessors that have not completed;
    /// a started system has none left; a completed one has started.
    pub open spec fn wf(&self, plan: &Plan, n: int) -> bool {
        &&& self.spec_started().len() == n
        &&& self.spec_done().len() == n
        &&& self.spec_pending_count() == n
        &&& plan.nodes@.len() == n
        &&& forall|j: int, p: int| #[trigger] plan.precedes(p, j) ==> 0 <= p < j
        &&& forall|j: int, p: usize|
            0 <= j < n ==> (#[trigger] self.spec_pending(j).contains(p) <==> plan.precedes(p as int, j)
                && !self.spec_done()[p as int])
        &&& forall|j: int| 0 <= j < n && #[trigger] self.spec_started()[j] ==> forall|p: int|
            plan.precedes(p, j) ==> self.spec_done()[p]
        &&& forall|j: int| 0 <= j < n && #[trigger] self.spec_done()[j] ==> self.spec_started()[j]
    }

    /// Nothing started yet.
    pub fn new(plan: &Plan) -> (r: Dispatch)
        requires
            forall|j: int, p: int| #[trigger] plan.precedes(p, j) ==> 0 <= p < j,
        ensures
            r.wf(plan, plan.nodes@.len() as int),
            forall|j: int| 0 <= j < plan.nodes@.len() ==> !(#[trigger] r.spec_started()[j]) && !r.spec_done()[j],
    {
        let n = plan.nodes.len();
        let mut pending: Vec<Vec<usize>> = Vec::new();
        let mut started: Vec<bool> = Vec::new();
        let mut done: Vec<bool> = Vec::new();
        let mut j: usize = 0;
        while j < n
            invariant
                0 <= j <= n,
                n == plan.nodes@.len(),
                forall|k: int, p: int| #[trigger] plan.precedes(p, k) ==> 0 <= p < k,
                pending@.len() == j,
                started@.len() == j,
                done@.len() == j,
                forall|k: int| 0 <= k < j ==> !(#[trigger] started@[k]),
                forall|k: int| 0 <= k < j ==> !(#[trigger] done@[k]),
                forall|k: int, p: usize|
                    0 <= k < j ==> (#[trigger] pending@[k]@.contains(p) <==> plan.precedes(p as int, k)),
            decreases n - j,
        {
            let preds = plan.nodes[j].preds.clone();
            proof {
                assert(preds@ =~= plan.nodes@[j as int].preds@);
                assert forall|p: usize| preds@.contains(p) <==> plan.precedes(p as int, j as int) by {
                    if preds@.contains(p) {
                        let q = choose|q: int| 0 <= q < preds@.len() && #[trigger] preds@[q] == p;
                        assert(plan.nodes@[j as int].preds@[q] as int == p as int);
                    }
                    if plan.precedes(p as int, j as int) {
                        let q = choose|q: int| 0 <= q < plan.nodes@[j as int].preds@.len() && #[trigger] plan.nodes@[j as int].preds@[q] as int == p as int;
                        assert(preds@[q] == p);
                    }
                }
            }
            pending.push(preds);
            started.push(false);
            done.push(false);
            j = j + 1;
        }
        let r = Dispatch { pending, started, done };
        proof {
            assert forall|k: int, p: usize| 0 <= k < n implies (#[trigger] r.spec_pending(k).contains(p)
                <==> plan.precedes(p as int, k) && !r.spec_done()[p as int]) by {
                assert(r.spec_pending(k) == pending@[k]@);
                if plan.precedes(p as int, k) {
                    assert(p < k);
                    assert(!done@[p as int]);
                }
            }
        }
        r
    }

    /// Starts system `j` if it is not started and waits for nothing.
    pub fn try_start(&mut self, plan: &Plan, j: usize) -> (r: bool)
        requires
            old(self).wf(plan, plan.nodes@.len() as int),
            j < plan.nodes@.len(),
        ensures
            final(self).wf(plan, plan.nodes@.len() as int),
            r == (!old(self).spec_started()[j as int] && old(self).spec_pending(j as int).len() == 0),
            final(self).spec_done() == old(self).spec_done(),
            final(self).spec_started() == if r {
                old(self).spec_started().update(j as int, true)
            } else {
                old(self).spec_started()
            },
    {
        if self.started[j] || self.pending[j].len() != 0 {
            return false;
        }
        self.started.set(j, true);
        proof {
            let n = plan.nodes@.len() as int;
            assert(self.pending@ == old(self).pending@);
            assert forall|k: int, p: usize| 0 <= k < n implies (#[trigger] self.spec_pending(k).contains(p)
                <==> plan.precedes(p as int, k) && !self.spec_done()[p as int]) by {
                assert(self.spec_pending(k) == old(self).spec_pending(k));
            }
            assert forall|p: int| plan.precedes(p, j as int) implies self.spec_done()[p] by {
                if !self.spec_done()[p] {
                    assert(0 <= p < j);
                    assert(old(self).spec_pending(j as int).contains(p as usize));
                }
            }
            assert forall|k: int| 0 <= k < n && #[trigger] self.spec_started()[k] implies forall|p: int|
                plan.precedes(p, k) ==> self.spec_done()[p] by {
                if k != j {
                    assert(old(self).spec_started()[k]);
                }
            }
            assert forall|k: int| 0 <= k < n && #[trigger] self.spec_done()[k] implies self.spec_started()[k] by {
                assert(old(self).spec_started()[k]);
            }
        }
        true
    }

    /// Records that the started system `i` has completed: its successors
    /// stop waiting for it.
    pub fn complete(&mut self, plan: &Plan, i: usize)
        requires
            old(self).wf(plan, plan.nodes@.len() as int),
            i < plan.nodes@.len(),
            old(self).spec_started()[i as int],
            !old(self).spec_done()[i as int],
        ensures
            final(self).wf(plan, plan.nodes@.len() as int),
            final(self).spec_started() == old(self).spec_started(),
            final(self).spec_done() == old(self).spec_done().update(i as int, true),
    {
        let n = plan.nodes.len();
        self.done.set(i, true);
        let mut j: usize = 0;
        while j < n
            invariant
                0 <= j <= n,
                n == plan.nodes@.len(),
                i < n,
                old(self).wf(plan, n as int),
                self.spec_started() == old(self).spec_started(),
                self.spec_done() == old(self).spec_done().update(i as int, true),
                self.pending@.len() == n,
                forall|k: int, p: usize|
                    0 <= k < j ==> (#[trigger] self.spec_pending(k).contains(p) <==> plan.precedes(p as int, k)
                        && !self.spec_done()[p as int]),
                forall|k: int| j <= k < n ==> #[trigger] self.spec_pending(k) == old(self).spec_pending(k),
            decreases n - j,
        {
            let ghost before = self.spec_pending(j as int);
            let mut kept: Vec<usize> = Vec::new();
            let mut q: usize = 0;
            while q < self.pending[j].len()
                invariant
                    0 <= q <= before.len(),
                    j < n,
                    self.pending@.len() == n,
                    self.spec_pending(j as int) == before,
                    before == old(self).spec_pending(j as int),
                    forall|p: usize| #[trigger] kept@.contains(p) <==> (before.take(q as int).contains(p) && p != i),
                decreases before.len() - q,
            {
                let p = self.pending[j][q];
                let ghost old_kept = kept@;
                proof {
                    assert(before.take(q + 1) =~= before.take(q as int).push(p));
                }
                if p != i {
                    kept.push(p);
                }
                proof {
                    assert forall|x: usize| #[trigger] kept@.contains(x) <==> (before.take(q + 1).contains(x) && x != i) by {
                        lemma_push_contains(before.take(q as int), p, x);
                        if p != i {
                            lemma_push_contains(old_kept, p, x);
                        }
                    }
                }
                q = q + 1;
            }
            proof {
                assert(before.take(before.len() as int) =~= before);
            }
            let ghost pend_before = self.pending@;
            proof {
                assert forall|k: int| j <= k < n implies (#[trigger] pend_before[k])@ == old(self).spec_pending(k) by {
                    assert(self.spec_pending(k) == old(self).spec_pending(k));
                }
                assert forall|k: int, p: usize| 0 <= k < j implies (#[trigger] pend_before[k]@.contains(p)
                    <==> plan.precedes(p as int, k) && !self.spec_done()[p as int]) by {
                    assert(self.spec_pending(k).contains(p) <==> plan.precedes(p as int, k) && !self.spec_done()[p as int]);
                }
            }
            self.pending.set(j, kept);
            proof {
                assert(self.pending@ == pend_before.update(j as int, kept));
                assert forall|k: int| j + 1 <= k < n implies #[trigger] self.spec_pending(k) == old(self).spec_pending(k) by {
                    assert(self.pending@[k] == pend_before[k]);
                    assert(pend_before[k]@ == old(self).spec_pending(k));
                }
                assert forall|k: int, p: usize| 0 <= k < j + 1 implies (#[trigger] self.spec_pending(k).contains(p)
                    <==> plan.precedes(p as int, k) && !self.spec_done()[p as int]) by {
                    if k == j {
                        assert(self.spec_pending(k) == kept@);
                        assert(old(self).spec_pending(k).contains(p) <==> plan.precedes(p as int, k)
                            && !old(self).spec_done()[p as int]);
                        if plan.precedes(p as int, k) {
                            assert(p < k);
                        }
                    } else {
                        assert(self.pending@[k] == pend_before[k]);
                        assert(pend_before[k]@.contains(p) <==> plan.precedes(p as int, k) && !self.spec_done()[p as int]);
                    }
                }
            }
            j = j + 1;
        }
        proof {
            let nn = n as int;
            assert(self.spec_pending_count() == nn);
            assert forall|k: int| 0 <= k < nn && #[trigger] self.spec_started()[k] implies forall|p: int|
                plan.precedes(p, k) ==> self.spec_done()[p] by {
                assert forall|p: int| plan.precedes(p, k) implies self.spec_done()[p] by {
                    assert(old(self).spec_done()[p]);
                }
            }
            assert forall|k: int| 0 <= k < nn && #[trigger] self.spec_done()[k] implies self.spec_started()[k] by {
                if k != i {
                    assert(old(self).spec_done()[k]);
                }
            }
        }
    }
}

/// A system starts only after every predecessor has completed: in a run
/// kept by `Dispatch`, a started system and a predecessor of it are never
/// running at the same time.
pub proof fn lemma_started_after_predecessors(d: Dispatch, plan: Plan, n: int, p: int, j: int)
    requires
        d.wf(&plan, n),
        0 <= j < n,
        d.spec_started()[j],
        plan.precedes(p, j),
    ensures
        d.spec_done()[p],
{
}

/// No two systems run at the same time when they conflict: in a run kept
/// by `Dispatch`, two started systems that have not completed have no
/// conflicting access on any archetype.
pub proof fn lemma_running_systems_do_not_conflict(d: Dispatch, plan: Plan, n: int, na: int, i: int, j: int)
    requires
        plan.wf(n, na),
        d.wf(&plan, n),
        0 <= i < j < n,
        d.spec_started()[i],
        d.spec_started()[j],
        !d.spec_done()[i],
    ensures
        !plan.conflict(i, j, na),
{
    if plan.conflict(i, j, na) {
        assert(plan.precedes(i, j));
    }
}

} // verus!
