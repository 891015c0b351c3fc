//! The keyed store at the heart of the pipeline: identifier to group of
//! records, with one group per identifier, in first-seen order.

use vstd::prelude::*;

use crate::record::Point;
use crate::record::PointV;

verus! {

/// All records sharing one identifier.
pub struct Group {
    pub id: usize,
    pub recs: Vec<Point>,
}

/// The mathematical image of a [`Group`].
#[verifier::ext_equal]
pub struct GroupV {
    pub id: int,
    pub recs: Seq<PointV>,
}

impl View for Group {
    type V = GroupV;

    open spec fn view(&self) -> GroupV {
        GroupV { id: self.id as int, recs: self.recs.deep_view() }
    }
}

impl DeepView for Group {
    type V = GroupV;

    open spec fn deep_view(&self) -> GroupV {
        self.view()
    }
}

impl GroupV {
    /// A group's identifier is positive and every record in it carries that
    /// identifier and is well formed.
    pub open spec fn wf(self) -> bool {
        &&& self.id > 0
        &&& forall|i: int|
            0 <= i < self.recs.len() ==> (#[trigger] self.recs[i]).id == self.id
                && self.recs[i].wf()
    }
}

/// No two groups share an identifier.
pub open spec fn distinct_ids(gs: Seq<GroupV>) -> bool {
    forall|i: int, j: int|
        #![trigger gs[i].id, gs[j].id]
        0 <= i < j < gs.len() ==> gs[i].id != gs[j].id
}

/// The finite map a sequence of groups denotes; later groups win, though
/// with distinct identifiers nothing is ever overwritten.
pub open spec fn map_of(gs: Seq<GroupV>) -> Map<int, Seq<PointV>>
    decreases gs.len(),
{
    if gs.len() == 0 {
        Map::empty()
    } else {
        map_of(gs.drop_last()).insert(gs.last().id, gs.last().recs)
    }
}

/// `map_of` has exactly the groups' identifiers as keys.
pub proof fn lemma_map_of_contains(gs: Seq<GroupV>, id: int)
    ensures
        map_of(gs).contains_key(id) <==> exists|i: int| 0 <= i < gs.len() && (#[trigger] gs[i]).id
            == id,
    decreases gs.len(),
{
    if gs.len() > 0 {
        lemma_map_of_contains(gs.drop_last(), id);
        if map_of(gs).contains_key(id) {
            if gs.last().id == id {
                assert(gs[gs.len() - 1].id == id);
            } else {
                let i = choose|i: int|
                    0 <= i < gs.drop_last().len() && (#[trigger] gs.drop_last()[i]).id == id;
                assert(gs[i].id == id);
            }
        }
        if exists|i: int| 0 <= i < gs.len() && (#[trigger] gs[i]).id == id {
            let i = choose|i: int| 0 <= i < gs.len() && (#[trigger] gs[i]).id == id;
            if i < gs.len() - 1 {
                assert(gs.drop_last()[i].id == id);
            }
        }
    }
}

/// With distinct identifiers, `map_of` maps each group's identifier to that
/// group's records.
pub proof fn lemma_map_of_index(gs: Seq<GroupV>, i: int)
    requires
        distinct_ids(gs),
        0 <= i < gs.len(),
    ensures
        map_of(gs).contains_key(gs[i].id),
        map_of(gs)[gs[i].id] == gs[i].recs,
    decreases gs.len(),
{
    if i < gs.len() - 1 {
        assert(distinct_ids(gs.drop_last()));
        lemma_map_of_index(gs.drop_last(), i);
        assert(gs.last().id != gs[i].id);
    }
}

/// Updating the group of one identifier updates its map entry and nothing
/// else.
pub proof fn lemma_map_of_update(gs: Seq<GroupV>, i: int, g: GroupV)
    requires
        distinct_ids(gs),
        0 <= i < gs.len(),
        g.id == gs[i].id,
    ensures
        map_of(gs.update(i, g)) == map_of(gs).insert(g.id, g.recs),
    decreases gs.len(),
{
    let updated = gs.update(i, g);
    if i == gs.len() - 1 {
        assert(updated.drop_last() =~= gs.drop_last());
        assert(updated.last() == g);
        assert(map_of(updated) =~= map_of(gs).insert(g.id, g.recs));
    } else {
        assert(distinct_ids(gs.drop_last()));
        lemma_map_of_update(gs.drop_last(), i, g);
        assert(updated.drop_last() =~= gs.drop_last().update(i, g));
        assert(updated.last() == gs.last());
        assert(gs.last().id != g.id);
        assert(map_of(updated) =~= map_of(gs).insert(g.id, g.recs));
    }
}

/// The map after recording a sequence of points, in order: each point is
/// appended to its identifier's entry, which starts empty.
pub open spec fn map_with(m: Map<int, Seq<PointV>>, ps: Seq<PointV>) -> Map<int, Seq<PointV>>
    decreases ps.len(),
{
    if ps.len() == 0 {
        m
    } else {
        let m1 = map_with(m, ps.drop_last());
        let p = ps.last();
        m1.insert(
            p.id,
            (if m1.contains_key(p.id) {
                m1[p.id]
            } else {
                Seq::empty()
            }).push(p),
        )
    }
}

/// How many of `ps` carry identifier `id`.
pub open spec fn count_for(ps: Seq<PointV>, id: int) -> int
    decreases ps.len(),
{
    if ps.len() == 0 {
        0
    } else {
        count_for(ps.drop_last(), id) + (if ps.last().id == id {
            1int
        } else {
            0int
        })
    }
}

/// Recording points grows each identifier's group by exactly the number of
/// points carrying that identifier, and identifiers never seen stay absent:
/// one group per distinct identifier, holding all of its records.
pub proof fn lemma_map_with_count(m: Map<int, Seq<PointV>>, ps: Seq<PointV>, id: int)
    ensures
        count_for(ps, id) >= 0,
        map_with(m, ps).contains_key(id) <==> m.contains_key(id) || count_for(ps, id) > 0,
        map_with(m, ps).contains_key(id) ==> map_with(m, ps)[id].len() == (if m.contains_key(
            id,
        ) {
            m[id].len() as int
        } else {
            0int
        }) + count_for(ps, id),
    decreases ps.len(),
{
    if ps.len() > 0 {
        lemma_map_with_count(m, ps.drop_last(), id);
    }
}

/// The predicate selecting one identifier's records.
pub open spec fn has_id(id: int) -> spec_fn(PointV) -> bool {
    |p: PointV| p.id == id
}

pub proof fn lemma_count_for_filter(ps: Seq<PointV>, id: int)
    ensures
        ps.filter(has_id(id)).len() == count_for(ps, id),
    decreases ps.len(),
{
    reveal(Seq::filter);
    if ps.len() > 0 {
        lemma_count_for_filter(ps.drop_last(), id);
    }
}

/// What an identifier's group ends as: whatever it held before, then every
/// newly recorded point carrying that identifier, in recording order.
pub proof fn lemma_map_with_filter(m: Map<int, Seq<PointV>>, ps: Seq<PointV>, id: int)
    requires
        map_with(m, ps).contains_key(id),
    ensures
        map_with(m, ps)[id] == (if m.contains_key(id) {
            m[id]
        } else {
            Seq::<PointV>::empty()
        }) + ps.filter(has_id(id)),
    decreases ps.len(),
{
    reveal(Seq::filter);
    let base = if m.contains_key(id) {
        m[id]
    } else {
        Seq::<PointV>::empty()
    };
    if ps.len() == 0 {
        assert(map_with(m, ps)[id] =~= base + ps.filter(has_id(id)));
    } else {
        let m1 = map_with(m, ps.drop_last());
        let p = ps.last();
        let f1 = ps.drop_last().filter(has_id(id));
        if p.id == id {
            if m1.contains_key(id) {
                lemma_map_with_filter(m, ps.drop_last(), id);
                assert(m1[id] == base + f1);
                assert(map_with(m, ps)[id] =~= base + ps.filter(has_id(id)));
            } else {
                lemma_map_with_count(m, ps.drop_last(), id);
                lemma_count_for_filter(ps.drop_last(), id);
                assert(f1 =~= Seq::<PointV>::empty());
                assert(base =~= Seq::<PointV>::empty());
                assert(map_with(m, ps)[id] =~= base + ps.filter(has_id(id)));
            }
        } else {
            assert(ps.filter(has_id(id)) == f1);
            assert(m1.contains_key(id));
            lemma_map_with_filter(m, ps.drop_last(), id);
            assert(map_with(m, ps)[id] == m1[id]);
        }
    }
}

/// The records selected for one identifier are, as a multiset, a function of
/// the recorded points as a multiset.
pub proof fn lemma_filter_count_multiset(ps: Seq<PointV>, id: int, x: PointV)
    ensures
        ps.filter(has_id(id)).to_multiset().count(x) == if has_id(id)(x) {
            ps.to_multiset().count(x)
        } else {
            0
        },
    decreases ps.len(),
{
    reveal(Seq::filter);
    broadcast use vstd::multiset::group_multiset_axioms;

    if ps.len() == 0 {
        ps.to_multiset_ensures();
        assert(!ps.contains(x));
    } else {
        lemma_filter_count_multiset(ps.drop_last(), id, x);
        ps.drop_last().to_multiset_ensures();
        assert(ps =~= ps.drop_last().push(ps.last()));
        ps.drop_last().filter(has_id(id)).to_multiset_ensures();
    }
}

/// Equal multisets of points select equal multisets for every identifier.
pub proof fn lemma_filter_multiset_eq(a: Seq<PointV>, b: Seq<PointV>, id: int)
    requires
        a.to_multiset() == b.to_multiset(),
    ensures
        a.filter(has_id(id)).to_multiset() == b.filter(has_id(id)).to_multiset(),
{
    assert forall|x: PointV|
        a.filter(has_id(id)).to_multiset().count(x) == b.filter(has_id(id)).to_multiset().count(
            x,
        ) by {
        lemma_filter_count_multiset(a, id, x);
        lemma_filter_count_multiset(b, id, x);
    }
    assert(a.filter(has_id(id)).to_multiset() =~= b.filter(has_id(id)).to_multiset());
}

/// Arrival order is irrelevant: two recording orders of the same points give
/// every identifier the same multiset of records — and so, once sorted, the
/// same record sequence and the same rendered file.
pub proof fn lemma_arrival_order_irrelevant(
    m: Map<int, Seq<PointV>>,
    ps1: Seq<PointV>,
    ps2: Seq<PointV>,
    id: int,
)
    requires
        ps1.to_multiset() == ps2.to_multiset(),
    ensures
        map_with(m, ps1).contains_key(id) <==> map_with(m, ps2).contains_key(id),
        map_with(m, ps1).contains_key(id) ==> map_with(m, ps1)[id].to_multiset() == map_with(
            m,
            ps2,
        )[id].to_multiset(),
{
    lemma_map_with_count(m, ps1, id);
    lemma_map_with_count(m, ps2, id);
    lemma_count_for_filter(ps1, id);
    lemma_count_for_filter(ps2, id);
    lemma_filter_multiset_eq(ps1, ps2, id);
    ps1.filter(has_id(id)).to_multiset_ensures();
    ps2.filter(has_id(id)).to_multiset_ensures();
    if map_with(m, ps1).contains_key(id) {
        lemma_map_with_filter(m, ps1, id);
        lemma_map_with_filter(m, ps2, id);
        let base = if m.contains_key(id) {
            m[id]
        } else {
            Seq::<PointV>::empty()
        };
        vstd::seq_lib::lemma_multiset_commutative(base, ps1.filter(has_id(id)));
        vstd::seq_lib::lemma_multiset_commutative(base, ps2.filter(has_id(id)));
    }
}

/// Recording two batches one after the other is recording their
/// concatenation: the files of every root combine into one stream.
pub proof fn lemma_map_with_append(m: Map<int, Seq<PointV>>, a: Seq<PointV>, b: Seq<PointV>)
    ensures
        map_with(map_with(m, a), b) == map_with(m, a + b),
    decreases b.len(),
{
    if b.len() == 0 {
        assert(a + b =~= a);
    } else {
        lemma_map_with_append(m, a, b.drop_last());
        assert((a + b).drop_last() =~= a + b.drop_last());
        assert((a + b).last() == b.last());
    }
}

/// The concurrency-safe keyed collection of the pipeline, seen here through
/// its sequential contract: the callers serialize access around it.
pub struct Aggregator {
    pub groups: Vec<Group>,
}

impl Aggregator {
    /// Every group is well formed and no two share an identifier.
    pub open spec fn wf(self) -> bool {
        &&& forall|i: int| 0 <= i < self.groups.len() ==> (#[trigger] self.groups[i])@.wf()
        &&& distinct_ids(self.groups.deep_view())
    }

    /// The identifier-to-records map this collection holds.
    pub open spec fn as_map(self) -> Map<int, Seq<PointV>> {
        map_of(self.groups.deep_view())
    }

    /// The records already held for `id`: none before the first occurrence.
    pub open spec fn seq_for(self, id: int) -> Seq<PointV> {
        if self.as_map().contains_key(id) {
            self.as_map()[id]
        } else {
            Seq::empty()
        }
    }

    /// An empty collection.
    pub fn new() -> (r: Aggregator)
        ensures
            r.wf(),
            r.as_map() == Map::<int, Seq<PointV>>::empty(),
    {
        let r = Aggregator { groups: Vec::new() };
        proof {
            assert(r.groups.deep_view() =~= Seq::<GroupV>::empty());
        }
        r
    }

    /// Insert one accepted record: appended to its identifier's group, or
    /// opening a fresh group on the identifier's first occurrence. Nothing
    /// else changes.
    pub fn record(&mut self, p: Point)
        requires
            old(self).wf(),
            p.wf(),
        ensures
            final(self).wf(),
            final(self).as_map() == old(self).as_map().insert(
                p@.id,
                old(self).seq_for(p@.id).push(p@),
            ),
    {
        let ghost dv = self.groups.deep_view();
        let ghost pv = p@;
        let n: usize = self.groups.len();
        let mut i: usize = 0;
        while i < n
            invariant
                i <= n,
                n == self.groups.len(),
                old(self) == self,
                old(self).wf(),
                p.wf(),
                dv == self.groups.deep_view(),
                pv == p@,
                forall|k: int| 0 <= k < i ==> (#[trigger] self.groups.deep_view()[k]).id != p@.id,
            decreases n - i,
        {
            if self.groups[i].id == p.id {
                let mut g = self.groups.remove(i);
                let ghost gv = g@;
                g.recs.push(p);
                let ghost gv2 = g@;
                self.groups.insert(i, g);
                proof {
                    assert(gv2.recs =~= gv.recs.push(pv));
                    assert(self.groups.deep_view() =~= dv.update(i as int, gv2));
                    lemma_map_of_index(dv, i as int);
                    lemma_map_of_update(dv, i as int, gv2);
                    assert(self.as_map() == old(self).as_map().insert(
                        pv.id,
                        old(self).seq_for(pv.id).push(pv),
                    ));
                    assert forall|a: int| 0 <= a < self.groups.len() implies (#[trigger] self
                        .groups[a])@.wf() by {
                        if a != i {
                            assert(self.groups[a]@ == dv[a]);
                            assert(old(self).groups[a]@.wf());
                        }
                    }
                }
                return ;
            }
            i = i + 1;
        }
        let id = p.id;
        let mut recs: Vec<Point> = Vec::new();
        recs.push(p);
        let g = Group { id, recs };
        self.groups.push(g);
        proof {
            assert(g@.recs =~= seq![pv]);
            assert(self.groups.deep_view() =~= dv.push(g@));
            assert(self.groups.deep_view().drop_last() =~= dv);
            lemma_map_of_contains(dv, pv.id);
            assert(!old(self).as_map().contains_key(pv.id));
            assert(Seq::<PointV>::empty().push(pv) =~= seq![pv]);
            assert(self.as_map() == old(self).as_map().insert(
                pv.id,
                old(self).seq_for(pv.id).push(pv),
            ));
            assert forall|a: int| 0 <= a < self.groups.len() implies (#[trigger] self
                .groups[a])@.wf() by {
                if a < dv.len() {
                    assert(self.groups[a]@ == dv[a]);
                    assert(old(self).groups[a]@.wf());
                }
            }
            assert forall|a: int, b: int|
                #![trigger self.groups.deep_view()[a].id, self.groups.deep_view()[b].id]
                0 <= a < b < self.groups.deep_view().len() implies self.groups.deep_view()[a].id
                != self.groups.deep_view()[b].id by {
                if b == dv.len() {
                    assert(self.groups.deep_view()[a].id != pv.id);
                }
            }
        }
    }

    /// Record every point of `ps`, in order.
    pub fn record_all(&mut self, ps: Vec<Point>)
        requires
            old(self).wf(),
            forall|i: int| 0 <= i < ps.len() ==> (#[trigger] ps[i]).wf(),
        ensures
            final(self).wf(),
            final(self).as_map() == map_with(old(self).as_map(), ps.deep_view()),
    {
        let ghost pv = ps.deep_view();
        let mut rest = ps;
        let ghost mut k: int = 0;
        proof {
            assert(pv.take(0) =~= Seq::<PointV>::empty());
            assert(rest.deep_view() =~= pv.skip(0));
        }
        while rest.len() > 0
            invariant
                0 <= k <= pv.len(),
                k + rest.len() == pv.len(),
                rest.deep_view() == pv.skip(k),
                forall|i: int| 0 <= i < rest.len() ==> (#[trigger] rest[i]).wf(),
                self.wf(),
                self.as_map() == map_with(old(self).as_map(), pv.take(k)),
            decreases rest.len(),
        {
            let ghost rdv0 = rest.deep_view();
            let p = rest.remove(0);
            proof {
                assert(p@ == rdv0[0]);
                assert(p@ == pv[k]);
                assert(p.wf());
                assert(rest.deep_view() =~= rdv0.drop_first());
                assert(rdv0.drop_first() =~= pv.skip(k + 1));
            }
            self.record(p);
            proof {
                assert(pv.take(k + 1).drop_last() =~= pv.take(k));
                assert(pv.take(k + 1).last() == pv[k]);
                assert(self.as_map() == map_with(old(self).as_map(), pv.take(k + 1)));
                k = k + 1;
            }
        }
        proof {
            assert(pv.take(pv.len() as int) =~= pv);
        }
    }

    /// Hand the groups over for the sorting and writing phases.
    pub fn into_groups(self) -> (r: Vec<Group>)
        ensures
            r == self.groups,
    {
        self.groups
    }
}

} // verus!
