//! Derived acceleration for exact Service dependency fan-out.
//!
//! Fiber-owned dependency edges are authoritative. This index stores only the
//! reverse projection `edge -> dependents` needed to find likely dependents
//! cheaply. If the projection is known incomplete, callers fall back to
//! scanning resident Fibers.

use vstd::prelude::*;
use crate::table::{has_key, key_index, unique_keys, to_map, lemma_index, lemma_push, lemma_update, lemma_remove};
use crate::fiber::{DependencyEdge, Fiber, FiberId, FiberTable, RealmKey, edge_keys};

verus! {

pub type EdgeKey = (Seq<char>, RealmKey);

pub open spec fn row_key(r: (DependencyEdge, Vec<FiberId>)) -> EdgeKey {
    r.0.key()
}

pub open spec fn row_ids(r: (DependencyEdge, Vec<FiberId>)) -> Seq<FiberId> {
    r.1@
}

/// The projection after `id` registers the edges `es`, in order.
pub open spec fn add_edges(m: Map<EdgeKey, Seq<FiberId>>, es: Seq<EdgeKey>, id: FiberId) -> Map<EdgeKey, Seq<FiberId>>
    decreases es.len(),
{
    if es.len() == 0 {
        m
    } else {
        let m1 = add_edges(m, es.drop_last(), id);
        let e = es.last();
        m1.insert(e, (if m1.contains_key(e) { m1[e] } else { Seq::empty() }).push(id))
    }
}

/// `s` without any occurrence of `id`.
pub open spec fn without(s: Seq<FiberId>, id: FiberId) -> Seq<FiberId>
    decreases s.len(),
{
    if s.len() == 0 {
        s
    } else if s.last() == id {
        without(s.drop_last(), id)
    } else {
        without(s.drop_last(), id).push(s.last())
    }
}

/// The projection after `id` unregisters the edges `es`, in order.
pub open spec fn remove_edges(m: Map<EdgeKey, Seq<FiberId>>, es: Seq<EdgeKey>, id: FiberId) -> Map<EdgeKey, Seq<FiberId>>
    decreases es.len(),
{
    if es.len() == 0 {
        m
    } else {
        let m1 = remove_edges(m, es.drop_last(), id);
        let e = es.last();
        if m1.contains_key(e) {
            let l = without(m1[e], id);
            if l.len() == 0 { m1.remove(e) } else { m1.insert(e, l) }
        } else {
            m1
        }
    }
}

/// The dependents of `s` whose Fiber is still resident (whose handle upgrades).
pub open spec fn resident_only(s: Seq<FiberId>, fibers: Map<FiberId, Fiber>) -> Seq<FiberId>
    decreases s.len(),
{
    if s.len() == 0 {
        s
    } else if fibers.contains_key(s.last()) {
        resident_only(s.drop_last(), fibers).push(s.last())
    } else {
        resident_only(s.drop_last(), fibers)
    }
}

/// Reading one requested edge: its resident dependents.
pub open spec fn edge_out(m: Map<EdgeKey, Seq<FiberId>>, e: EdgeKey, fibers: Map<FiberId, Fiber>) -> Seq<FiberId> {
    if m.contains_key(e) { resident_only(m[e], fibers) } else { Seq::empty() }
}

/// Reading one requested edge prunes its dead dependents and drops an emptied row.
pub open spec fn edge_pruned(m: Map<EdgeKey, Seq<FiberId>>, e: EdgeKey, fibers: Map<FiberId, Fiber>) -> Map<EdgeKey, Seq<FiberId>> {
    if m.contains_key(e) {
        let l = resident_only(m[e], fibers);
        if l.len() == 0 { m.remove(e) } else { m.insert(e, l) }
    } else {
        m
    }
}

/// The projection after reading the requested edges `es`, in order.
pub open spec fn pruned_after(m: Map<EdgeKey, Seq<FiberId>>, es: Seq<EdgeKey>, fibers: Map<FiberId, Fiber>) -> Map<EdgeKey, Seq<FiberId>>
    decreases es.len(),
{
    if es.len() == 0 {
        m
    } else {
        edge_pruned(pruned_after(m, es.drop_last(), fibers), es.last(), fibers)
    }
}

/// Every resident dependent read for the requested edges `es`, in reading order.
pub open spec fn collected(m: Map<EdgeKey, Seq<FiberId>>, es: Seq<EdgeKey>, fibers: Map<FiberId, Fiber>) -> Seq<FiberId>
    decreases es.len(),
{
    if es.len() == 0 {
        Seq::empty()
    } else {
        collected(m, es.drop_last(), fibers) + edge_out(pruned_after(m, es.drop_last(), fibers), es.last(), fibers)
    }
}

/// `s` with every later repetition of an identity dropped.
pub open spec fn dedup(s: Seq<FiberId>) -> Seq<FiberId>
    decreases s.len(),
{
    if s.len() == 0 {
        s
    } else {
        let d = dedup(s.drop_last());
        if d.contains(s.last()) { d } else { d.push(s.last()) }
    }
}

/// The projection rebuilt from the alive Fibers among `order`, in order.
pub open spec fn rebuilt(order: Seq<FiberId>, fibers: Map<FiberId, Fiber>) -> Map<EdgeKey, Seq<FiberId>>
    decreases order.len(),
{
    if order.len() == 0 {
        Map::empty()
    } else {
        let m = rebuilt(order.drop_last(), fibers);
        let f = fibers[order.last()];
        if f.alive { add_edges(m, edge_keys(f.edges@), f.id) } else { m }
    }
}

/// Reverse projection from exact edges to the Fibers declaring them.
pub struct DependencyIndex {
    reverse: Vec<(DependencyEdge, Vec<FiberId>)>,
    complete: bool,
}

impl View for DependencyIndex {
    type V = Map<EdgeKey, Seq<FiberId>>;

    closed spec fn view(&self) -> Map<EdgeKey, Seq<FiberId>> {
        to_map(self.reverse@, |r: (DependencyEdge, Vec<FiberId>)| row_key(r), |r: (DependencyEdge, Vec<FiberId>)| row_ids(r))
    }
}

impl DependencyIndex {
    pub closed spec fn wf(&self) -> bool {
        &&& unique_keys(self.reverse@, |r: (DependencyEdge, Vec<FiberId>)| row_key(r))
        &&& forall|i: int| 0 <= i < self.reverse@.len() ==> (#[trigger] self.reverse@[i]).1@.len() > 0
    }

    /// Whether the projection is known complete.
    pub closed spec fn spec_complete(&self) -> bool {
        self.complete
    }

    /// No stored row is empty.
    pub proof fn lemma_rows_nonempty(&self)
        requires
            self.wf(),
        ensures
            forall|e: EdgeKey| #[trigger] self@.contains_key(e) ==> self@[e].len() > 0,
    {
        assert forall|e: EdgeKey| #[trigger] self@.contains_key(e) implies self@[e].len() > 0 by {
            let i = key_index(self.reverse@, |r: (DependencyEdge, Vec<FiberId>)| row_key(r), e);
            lemma_index(self.reverse@, |r: (DependencyEdge, Vec<FiberId>)| row_key(r), |r: (DependencyEdge, Vec<FiberId>)| row_ids(r), i);
        }
    }

    pub fn new() -> (d: DependencyIndex)
        ensures
            d.wf(),
            d.spec_complete(),
            d@ == Map::<EdgeKey, Seq<FiberId>>::empty(),
    {
        let d = DependencyIndex { reverse: Vec::new(), complete: true };
        assert(d@ =~= Map::<EdgeKey, Seq<FiberId>>::empty());
        d
    }

    /// Whether no row is stored.
    pub fn is_empty(&self) -> (b: bool)
        requires
            self.wf(),
        ensures
            b == (self@ == Map::<EdgeKey, Seq<FiberId>>::empty()),
    {
        if self.reverse.len() == 0 {
            assert(self@ =~= Map::<EdgeKey, Seq<FiberId>>::empty());
            true
        } else {
            proof {
                lemma_index(self.reverse@, |r: (DependencyEdge, Vec<FiberId>)| row_key(r), |r: (DependencyEdge, Vec<FiberId>)| row_ids(r), 0);
                assert(!Map::<EdgeKey, Seq<FiberId>>::empty().contains_key(row_key(self.reverse@[0])));
            }
            false
        }
    }

    pub fn is_complete(&self) -> (b: bool)
        ensures
            b == self.spec_complete(),
    {
        self.complete
    }

    fn find(&self, edge: &DependencyEdge) -> (r: Option<usize>)
        requires
            self.wf(),
        ensures
            match r {
                Some(i) => i < self.reverse@.len() && row_key(self.reverse@[i as int]) == edge.key()
                    && self@.contains_key(edge.key()) && self@[edge.key()] == self.reverse@[i as int].1@,
                None => !self@.contains_key(edge.key()),
            },
    {
        let mut i: usize = 0;
        while i < self.reverse.len()
            invariant
                self.wf(),
                i <= self.reverse@.len(),
                forall|j: int| 0 <= j < i ==> row_key(self.reverse@[j]) != edge.key(),
            decreases self.reverse@.len() - i,
        {
            if self.reverse[i].0.realm == edge.realm && self.reverse[i].0.service == edge.service {
                proof {
                    lemma_index(self.reverse@, |r: (DependencyEdge, Vec<FiberId>)| row_key(r), |r: (DependencyEdge, Vec<FiberId>)| row_ids(r), i as int);
                }
                return Some(i);
            }
            i = i + 1;
        }
        proof {
            if has_key(self.reverse@, |r: (DependencyEdge, Vec<FiberId>)| row_key(r), edge.key()) {
                let j = choose|j: int| 0 <= j < self.reverse@.len() && #[trigger] row_key(self.reverse@[j]) == edge.key();
            }
        }
        None
    }

    /// Append `id` to the row of `edge`, creating the row if needed.
    fn add_dependent(&mut self, edge: &DependencyEdge, id: FiberId)
        requires
            old(self).wf(),
        ensures
            final(self).wf(),
            final(self).spec_complete() == old(self).spec_complete(),
            final(self)@ == old(self)@.insert(edge.key(),
                (if old(self)@.contains_key(edge.key()) { old(self)@[edge.key()] } else { Seq::empty() }).push(id)),
    {
        match self.find(edge) {
            Some(i) => {
                let ghost pre = self.reverse@;
                self.reverse[i].1.push(id);
                proof {
                    assert(self.reverse@ =~= pre.update(i as int, self.reverse@[i as int]));
                    lemma_update(pre, |r: (DependencyEdge, Vec<FiberId>)| row_key(r), |r: (DependencyEdge, Vec<FiberId>)| row_ids(r), i as int, self.reverse@[i as int]);
                    assert forall|j: int| 0 <= j < self.reverse@.len() implies (#[trigger] self.reverse@[j]).1@.len() > 0 by {
                        if j != i {
                            assert(self.reverse@[j] == pre[j]);
                        }
                    }
                }
            },
            None => {
                let mut ids: Vec<FiberId> = Vec::new();
                ids.push(id);
                let row = (edge.duplicate(), ids);
                proof {
                    lemma_push(self.reverse@, |r: (DependencyEdge, Vec<FiberId>)| row_key(r), |r: (DependencyEdge, Vec<FiberId>)| row_ids(r), row);
                    assert(row.1@ =~= Seq::<FiberId>::empty().push(id));
                }
                self.reverse.push(row);
                proof {
                    assert forall|j: int| 0 <= j < self.reverse@.len() implies (#[trigger] self.reverse@[j]).1@.len() > 0 by {
                        if j < old(self).reverse@.len() {
                            assert(self.reverse@[j] == old(self).reverse@[j]);
                        }
                    }
                }
            },
        }
    }

    /// Replace the row at position `i` by `ids`, dropping the row when `ids` is empty.
    fn set_row(&mut self, i: usize, ids: Vec<FiberId>)
        requires
            old(self).wf(),
            i < old(self).reverse@.len(),
        ensures
            final(self).wf(),
            final(self).spec_complete() == old(self).spec_complete(),
            ({
                let e = row_key(old(self).reverse@[i as int]);
                final(self)@ == (if ids@.len() == 0 { old(self)@.remove(e) } else { old(self)@.insert(e, ids@) })
            }),
    {
        let ghost pre = self.reverse@;
        if ids.len() == 0 {
            proof {
                lemma_remove(pre, |r: (DependencyEdge, Vec<FiberId>)| row_key(r), |r: (DependencyEdge, Vec<FiberId>)| row_ids(r), i as int);
            }
            self.reverse.remove(i);
            proof {
                assert forall|j: int| 0 <= j < self.reverse@.len() implies (#[trigger] self.reverse@[j]).1@.len() > 0 by {
                    if j < i {
                        assert(self.reverse@[j] == pre[j]);
                    } else {
                        assert(self.reverse@[j] == pre[j + 1]);
                    }
                }
            }
        } else {
            self.reverse[i].1 = ids;
            proof {
                assert(self.reverse@ =~= pre.update(i as int, self.reverse@[i as int]));
                lemma_update(pre, |r: (DependencyEdge, Vec<FiberId>)| row_key(r), |r: (DependencyEdge, Vec<FiberId>)| row_ids(r), i as int, self.reverse@[i as int]);
                assert forall|j: int| 0 <= j < self.reverse@.len() implies (#[trigger] self.reverse@[j]).1@.len() > 0 by {
                    if j != i {
                        assert(self.reverse@[j] == pre[j]);
                    }
                }
            }
        }
    }
}

/// `s` without `id`, computed by a loop.
fn filter_out(s: &Vec<FiberId>, id: FiberId) -> (r: Vec<FiberId>)
    ensures
        r@ == without(s@, id),
{
    let mut r: Vec<FiberId> = Vec::new();
    let mut j: usize = 0;
    while j < s.len()
        invariant
            j <= s@.len(),
            r@ == without(s@.take(j as int), id),
        decreases s@.len() - j,
    {
        proof {
            assert(s@.take(j + 1).drop_last() =~= s@.take(j as int));
        }
        if s[j] != id {
            r.push(s[j]);
        }
        j = j + 1;
    }
    proof {
        assert(s@.take(s@.len() as int) =~= s@);
    }
    r
}

/// The entries of `s` whose Fiber is resident, computed by a loop.
fn filter_resident(s: &Vec<FiberId>, fibers: &FiberTable) -> (r: Vec<FiberId>)
    requires
        fibers.wf(),
    ensures
        r@ == resident_only(s@, fibers@),
{
    let mut r: Vec<FiberId> = Vec::new();
    let mut j: usize = 0;
    while j < s.len()
        invariant
            fibers.wf(),
            j <= s@.len(),
            r@ == resident_only(s@.take(j as int), fibers@),
        decreases s@.len() - j,
    {
        proof {
            assert(s@.take(j + 1).drop_last() =~= s@.take(j as int));
        }
        if fibers.get(s[j]).is_some() {
            r.push(s[j]);
        }
        j = j + 1;
    }
    proof {
        assert(s@.take(s@.len() as int) =~= s@);
    }
    r
}

/// Whether `s` holds `x`, computed by a loop.
fn holds(s: &Vec<FiberId>, x: FiberId) -> (b: bool)
    ensures
        b == s@.contains(x),
{
    let mut j: usize = 0;
    while j < s.len()
        invariant
            j <= s@.len(),
            forall|k: int| 0 <= k < j ==> s@[k] != x,
        decreases s@.len() - j,
    {
        if s[j] == x {
            assert(s@[j as int] == x);
            return true;
        }
        j = j + 1;
    }
    false
}

/// `s` with later repetitions dropped, computed by a loop.
pub fn dedup_ids(s: &Vec<FiberId>) -> (r: Vec<FiberId>)
    ensures
        r@ == dedup(s@),
{
    let mut r: Vec<FiberId> = Vec::new();
    let mut j: usize = 0;
    while j < s.len()
        invariant
            j <= s@.len(),
            r@ == dedup(s@.take(j as int)),
        decreases s@.len() - j,
    {
        proof {
            assert(s@.take(j + 1).drop_last() =~= s@.take(j as int));
        }
        if !holds(&r, s[j]) {
            r.push(s[j]);
        }
        j = j + 1;
    }
    proof {
        assert(s@.take(s@.len() as int) =~= s@);
    }
    r
}


/// Append every entry of `src` to `dst`.
fn extend_ids(dst: &mut Vec<FiberId>, src: &Vec<FiberId>)
    ensures
        final(dst)@ == old(dst)@ + src@,
{
    let mut k: usize = 0;
    while k < src.len()
        invariant
            k <= src@.len(),
            dst@ == old(dst)@ + src@.take(k as int),
        decreases src@.len() - k,
    {
        dst.push(src[k]);
        k = k + 1;
        proof {
            assert(dst@ =~= old(dst)@ + src@.take(k as int));
        }
    }
    proof {
        assert(src@.take(src@.len() as int) =~= src@);
    }
}

impl DependencyIndex {
    /// Project a freshly spawned Fiber's edges into the reverse map.
    /// An incomplete projection, or a Fiber already dead, is left alone.
    pub fn register(&mut self, fiber: &Fiber)
        requires
            old(self).wf(),
        ensures
            final(self).wf(),
            final(self).spec_complete() == old(self).spec_complete(),
            final(self)@ == (if old(self).spec_complete() && fiber.alive {
                add_edges(old(self)@, edge_keys(fiber.edges@), fiber.id)
            } else {
                old(self)@
            }),
    {
        if !self.complete {
            return;
        }
        if !fiber.alive {
            return;
        }
        let ghost es = edge_keys(fiber.edges@);
        let mut j: usize = 0;
        while j < fiber.edges.len()
            invariant
                self.wf(),
                self.spec_complete() == old(self).spec_complete(),
                j <= fiber.edges@.len(),
                es == edge_keys(fiber.edges@),
                self@ == add_edges(old(self)@, es.take(j as int), fiber.id),
            decreases fiber.edges@.len() - j,
        {
            proof {
                assert(es.take(j + 1).drop_last() =~= es.take(j as int));
                assert(es.take(j + 1).last() == fiber.edges@[j as int].key());
            }
            self.add_dependent(&fiber.edges[j], fiber.id);
            j = j + 1;
        }
        proof {
            assert(es.take(fiber.edges@.len() as int) =~= es);
        }
    }

    /// Remove a Fiber from the projection. Unknown identities are a no-op.
    pub fn unregister(&mut self, fiber: &Fiber)
        requires
            old(self).wf(),
        ensures
            final(self).wf(),
            final(self).spec_complete() == old(self).spec_complete(),
            final(self)@ == remove_edges(old(self)@, edge_keys(fiber.edges@), fiber.id),
    {
        let ghost es = edge_keys(fiber.edges@);
        let mut j: usize = 0;
        while j < fiber.edges.len()
            invariant
                self.wf(),
                self.spec_complete() == old(self).spec_complete(),
                j <= fiber.edges@.len(),
                es == edge_keys(fiber.edges@),
                self@ == remove_edges(old(self)@, es.take(j as int), fiber.id),
            decreases fiber.edges@.len() - j,
        {
            proof {
                assert(es.take(j + 1).drop_last() =~= es.take(j as int));
                assert(es.take(j + 1).last() == fiber.edges@[j as int].key());
            }
            match self.find(&fiber.edges[j]) {
                Some(i) => {
                    let kept = filter_out(&self.reverse[i].1, fiber.id);
                    self.set_row(i, kept);
                },
                None => {},
            }
            j = j + 1;
        }
        proof {
            assert(es.take(fiber.edges@.len() as int) =~= es);
        }
    }

    /// The unique resident dependents of the requested edges, reading and
    /// pruning each requested row once in request order; `None` when the
    /// projection is known incomplete.
    pub fn dependents_of(&mut self, edges: &Vec<DependencyEdge>, fibers: &FiberTable) -> (r: Option<Vec<FiberId>>)
        requires
            old(self).wf(),
            fibers.wf(),
        ensures
            final(self).wf(),
            final(self).spec_complete() == old(self).spec_complete(),
            !old(self).spec_complete() ==> r is None && final(self)@ == old(self)@,
            old(self).spec_complete() ==> {
                &&& r matches Some(v) && v@ == dedup(collected(old(self)@, edge_keys(edges@), fibers@))
                &&& final(self)@ == pruned_after(old(self)@, edge_keys(edges@), fibers@)
            },
    {
        if !self.complete {
            return None;
        }
        let ghost es = edge_keys(edges@);
        let mut upgraded: Vec<FiberId> = Vec::new();
        let mut j: usize = 0;
        while j < edges.len()
            invariant
                self.wf(),
                fibers.wf(),
                self.spec_complete() == old(self).spec_complete(),
                j <= edges@.len(),
                es == edge_keys(edges@),
                self@ == pruned_after(old(self)@, es.take(j as int), fibers@),
                upgraded@ == collected(old(self)@, es.take(j as int), fibers@),
            decreases edges@.len() - j,
        {
            proof {
                assert(es.take(j + 1).drop_last() =~= es.take(j as int));
                assert(es.take(j + 1).last() == edges@[j as int].key());
            }
            match self.find(&edges[j]) {
                Some(i) => {
                    let live = filter_resident(&self.reverse[i].1, fibers);
                    extend_ids(&mut upgraded, &live);
                    self.set_row(i, live);
                },
                None => {
                    proof {
                        assert(upgraded@ =~= upgraded@ + Seq::<FiberId>::empty());
                    }
                },
            }
            j = j + 1;
        }
        proof {
            assert(es.take(edges@.len() as int) =~= es);
        }
        Some(dedup_ids(&upgraded))
    }

    /// Forget the projection and mark it incomplete.
    pub fn disable_for_test(&mut self)
        ensures
            final(self).wf(),
            !final(self).spec_complete(),
            final(self)@ == Map::<EdgeKey, Seq<FiberId>>::empty(),
    {
        self.reverse = Vec::new();
        self.complete = false;
        proof {
            assert(self@ =~= Map::<EdgeKey, Seq<FiberId>>::empty());
        }
    }

    /// Rebuild a complete projection from the alive resident Fibers.
    pub fn rebuild_for_test(&mut self, fibers: &FiberTable)
        requires
            fibers.wf(),
        ensures
            final(self).wf(),
            final(self).spec_complete(),
            final(self)@ == rebuilt(fibers.order(), fibers@),
    {
        let mut fresh = DependencyIndex::new();
        let ghost order = fibers.order();
        proof {
            fibers.lemma_wf();
        }
        let mut i: usize = 0;
        while i < fibers.len()
            invariant
                fibers.wf(),
                fresh.wf(),
                fresh.spec_complete(),
                order == fibers.order(),
                i <= order.len(),
                forall|k: int| 0 <= k < order.len() ==> fibers@.contains_key(#[trigger] order[k]),
                forall|id: FiberId| #[trigger] fibers@.contains_key(id) ==> fibers@[id].id == id,
                fresh@ == rebuilt(order.take(i as int), fibers@),
            decreases order.len() - i,
        {
            proof {
                assert(order.take(i + 1).drop_last() =~= order.take(i as int));
                assert(order.take(i + 1).last() == order[i as int]);
            }
            let id = fibers.id_at(i);
            match fibers.get(id) {
                Some(f) => {
                    fresh.register(f);
                },
                None => {},
            }
            i = i + 1;
        }
        proof {
            assert(order.take(order.len() as int) =~= order);
        }
        *self = fresh;
    }
}

} // verus!
