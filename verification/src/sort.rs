//! Chronological ordering of each group's records.
//!
//! The order is total: ties on the timestamp are broken by latitude,
//! longitude and identifier, so the sorted form of a group depends only on
//! which records were collected, never on the order workers delivered them.

use vstd::prelude::*;
use vstd::relations::antisymmetric;
use vstd::relations::reflexive;
use vstd::relations::sorted_by;
use vstd::relations::strongly_connected;
use vstd::relations::total_ordering;
use vstd::relations::transitive;
use vstd::seq_lib::lemma_sorted_unique;

use crate::aggregate::Group;
use crate::datetime::DateTime;
use crate::record::Point;
use crate::record::PointV;
use crate::text::lemma_lex_le_antisym;
use crate::text::lemma_lex_le_total;
use crate::text::lemma_lex_le_trans;
use crate::text::lex_le;
use crate::text::str_lex_le;

verus! {

/// Chronological order on date-times, most significant field first.
pub open spec fn time_le(a: DateTime, b: DateTime) -> bool {
    if a.year != b.year {
        a.year < b.year
    } else if a.month != b.month {
        a.month < b.month
    } else if a.day != b.day {
        a.day < b.day
    } else if a.hour != b.hour {
        a.hour < b.hour
    } else if a.minute != b.minute {
        a.minute < b.minute
    } else {
        a.second <= b.second
    }
}

/// For well-formed date-times, field order is stamp order.
pub proof fn lemma_time_le_stamp(a: DateTime, b: DateTime)
    requires
        a.wf(),
        b.wf(),
        time_le(a, b),
    ensures
        a.stamp() <= b.stamp(),
{
}

/// The order records take within a group: by time, ties broken by latitude,
/// longitude, then identifier, which makes the order total.
pub open spec fn point_le(a: PointV, b: PointV) -> bool {
    if a.time != b.time {
        time_le(a.time, b.time)
    } else if a.lat != b.lat {
        lex_le(a.lat, b.lat)
    } else if a.lng != b.lng {
        lex_le(a.lng, b.lng)
    } else {
        a.id <= b.id
    }
}

/// The record order as a function value, as the sortedness predicates use it.
pub open spec fn point_le_fn() -> spec_fn(PointV, PointV) -> bool {
    |a: PointV, b: PointV| point_le(a, b)
}

pub proof fn lemma_point_le_refl(a: PointV)
    ensures
        point_le(a, a),
{
}

pub proof fn lemma_point_le_total(a: PointV, b: PointV)
    ensures
        point_le(a, b) || point_le(b, a),
{
    if a.time == b.time {
        if a.lat != b.lat {
            lemma_lex_le_total(a.lat, b.lat);
        } else if a.lng != b.lng {
            lemma_lex_le_total(a.lng, b.lng);
        }
    }
}

pub proof fn lemma_point_le_antisym(a: PointV, b: PointV)
    requires
        point_le(a, b),
        point_le(b, a),
    ensures
        a == b,
{
    if a.time == b.time {
        if a.lat != b.lat {
            lemma_lex_le_antisym(a.lat, b.lat);
        } else if a.lng != b.lng {
            lemma_lex_le_antisym(a.lng, b.lng);
        } else {
            assert(a =~= b);
        }
    }
}

pub proof fn lemma_point_le_trans(a: PointV, b: PointV, c: PointV)
    requires
        point_le(a, b),
        point_le(b, c),
    ensures
        point_le(a, c),
{
    if a.time == b.time && b.time == c.time {
        if a.lat =~= b.lat && b.lat =~= c.lat {
            if a.lng =~= b.lng || b.lng =~= c.lng {
                // at least one pair of longitudes is equal: the other
                // pair's comparison carries over, or the identifiers decide
            } else if a.lng != c.lng {
                lemma_lex_le_trans(a.lng, b.lng, c.lng);
            } else {
                lemma_lex_le_antisym(a.lng, b.lng);
            }
        } else if a.lat =~= b.lat || b.lat =~= c.lat {
            // exactly one pair of latitudes is equal: the unequal pair's
            // comparison carries over to `a` versus `c`
        } else if a.lat != c.lat {
            lemma_lex_le_trans(a.lat, b.lat, c.lat);
        } else {
            lemma_lex_le_antisym(a.lat, b.lat);
        }
    }
}

/// The record order is a total ordering, so every multiset of records has
/// exactly one sorted arrangement.
pub proof fn lemma_point_le_total_ordering()
    ensures
        total_ordering(point_le_fn()),
{
    let le = point_le_fn();
    assert(reflexive(le)) by {
        assert forall|x: PointV| #[trigger] le(x, x) by {
            lemma_point_le_refl(x);
        }
    }
    assert(antisymmetric(le)) by {
        assert forall|x: PointV, y: PointV| #[trigger] le(x, y) && #[trigger] le(y, x) implies x
            == y by {
            lemma_point_le_antisym(x, y);
        }
    }
    assert(transitive(le)) by {
        assert forall|x: PointV, y: PointV, z: PointV| #[trigger] le(x, y) && #[trigger] le(
            y,
            z,
        ) implies le(x, z) by {
            lemma_point_le_trans(x, y, z);
        }
    }
    assert(strongly_connected(le)) by {
        assert forall|x: PointV, y: PointV| #[trigger] le(x, y) || #[trigger] le(y, x) by {
            lemma_point_le_total(x, y);
        }
    }
}

/// Determinism of the sorted form: two sorted sequences holding the same
/// records are identical, so sorted output depends only on which records
/// were collected, not on the interleaving that delivered them.
pub proof fn lemma_sorted_points_unique(x: Seq<PointV>, y: Seq<PointV>)
    requires
        sorted_by(x, point_le_fn()),
        sorted_by(y, point_le_fn()),
        x.to_multiset() == y.to_multiset(),
    ensures
        x == y,
{
    lemma_point_le_total_ordering();
    lemma_sorted_unique(x, y, point_le_fn());
}

/// In a sorted, well-formed record sequence, timestamps never decrease.
pub proof fn lemma_sorted_stamps(rs: Seq<PointV>, a: int, b: int)
    requires
        sorted_by(rs, point_le_fn()),
        forall|i: int| 0 <= i < rs.len() ==> (#[trigger] rs[i]).wf(),
        0 <= a <= b < rs.len(),
    ensures
        rs[a].time.stamp() <= rs[b].time.stamp(),
{
    if a < b {
        assert(point_le_fn()(rs[a], rs[b]));
        if rs[a].time != rs[b].time {
            lemma_time_le_stamp(rs[a].time, rs[b].time);
        }
    }
}

/// Decide `point_le` on two records.
fn point_le_exec(a: &Point, b: &Point) -> (r: bool)
    ensures
        r == point_le(a@, b@),
{
    if a.time.year != b.time.year {
        return a.time.year < b.time.year;
    }
    if a.time.month != b.time.month {
        return a.time.month < b.time.month;
    }
    if a.time.day != b.time.day {
        return a.time.day < b.time.day;
    }
    if a.time.hour != b.time.hour {
        return a.time.hour < b.time.hour;
    }
    if a.time.minute != b.time.minute {
        return a.time.minute < b.time.minute;
    }
    if a.time.second != b.time.second {
        return a.time.second < b.time.second;
    }
    let lat_ab = str_lex_le(a.lat.as_str(), b.lat.as_str());
    let lat_ba = str_lex_le(b.lat.as_str(), a.lat.as_str());
    if !(lat_ab && lat_ba) {
        proof {
            if a@.lat == b@.lat {
                lemma_lex_le_total(a@.lat, b@.lat);
            }
        }
        return lat_ab;
    }
    proof {
        lemma_lex_le_antisym(a@.lat, b@.lat);
    }
    let lng_ab = str_lex_le(a.lng.as_str(), b.lng.as_str());
    let lng_ba = str_lex_le(b.lng.as_str(), a.lng.as_str());
    if !(lng_ab && lng_ba) {
        proof {
            if a@.lng == b@.lng {
                lemma_lex_le_total(a@.lng, b@.lng);
            }
        }
        return lng_ab;
    }
    proof {
        lemma_lex_le_antisym(a@.lng, b@.lng);
    }
    a.id <= b.id
}

/// Sort records into the `point_le` order by repeatedly moving a minimal
/// remaining record across; the records themselves are exactly preserved.
pub fn sort_points(v: Vec<Point>) -> (r: Vec<Point>)
    ensures
        r.deep_view().to_multiset() == v.deep_view().to_multiset(),
        sorted_by(r.deep_view(), point_le_fn()),
{
    broadcast use vstd::seq_lib::group_to_multiset_ensures;
    broadcast use vstd::multiset::group_multiset_axioms;

    let ghost orig = v.deep_view();
    let mut rest = v;
    let mut out: Vec<Point> = Vec::new();
    proof {
        assert(out.deep_view() =~= Seq::<PointV>::empty());
        vstd::seq_lib::lemma_multiset_commutative(out.deep_view(), rest.deep_view());
        assert(out.deep_view() + rest.deep_view() =~= rest.deep_view());
        assert(out.deep_view().to_multiset().add(rest.deep_view().to_multiset())
            =~= orig.to_multiset());
    }
    while rest.len() > 0
        invariant
            out.deep_view().to_multiset().add(rest.deep_view().to_multiset()) == orig.to_multiset(),
            sorted_by(out.deep_view(), point_le_fn()),
            forall|i: int, k: int|
                0 <= i < out.deep_view().len() && 0 <= k < rest.deep_view().len() ==> point_le(
                    #[trigger] out.deep_view()[i],
                    #[trigger] rest.deep_view()[k],
                ),
        decreases rest.len(),
    {
        let ghost rdv = rest.deep_view();
        let mut m: usize = 0;
        let mut k: usize = 1;
        while k < rest.len()
            invariant
                m < k <= rest.len(),
                rest.deep_view() == rdv,
                forall|t: int| 0 <= t < k ==> point_le(rdv[m as int], #[trigger] rdv[t]),
            decreases rest.len() - k,
        {
            if point_le_exec(&rest[k], &rest[m]) {
                proof {
                    assert forall|t: int| 0 <= t < k + 1 implies point_le(
                        rdv[k as int],
                        #[trigger] rdv[t],
                    ) by {
                        if t < k {
                            lemma_point_le_trans(rdv[k as int], rdv[m as int], rdv[t]);
                        } else {
                            lemma_point_le_refl(rdv[k as int]);
                        }
                    }
                }
                m = k;
            } else {
                proof {
                    lemma_point_le_total(rdv[m as int], rdv[k as int]);
                }
            }
            k = k + 1;
        }
        let ghost odv = out.deep_view();
        let p = rest.remove(m);
        out.push(p);
        proof {
            rdv.to_multiset_ensures();
            odv.to_multiset_ensures();
            assert(rest.deep_view() =~= rdv.remove(m as int));
            assert(out.deep_view() =~= odv.push(p@));
            assert(p@ == rdv[m as int]);
            assert(rdv.contains(rdv[m as int]));
            assert(rdv.to_multiset().count(p@) > 0);
            assert(odv.push(p@).to_multiset() =~= odv.to_multiset().insert(p@));
            assert(rdv.remove(m as int).to_multiset() =~= rdv.to_multiset().remove(rdv[m as int]));
            assert(out.deep_view().to_multiset() =~= odv.to_multiset().insert(p@));
            assert(rest.deep_view().to_multiset() =~= rdv.to_multiset().remove(p@));
            assert(out.deep_view().to_multiset().add(rest.deep_view().to_multiset())
                =~= odv.to_multiset().add(rdv.to_multiset()));
            assert forall|i: int, j: int|
                0 <= i < j < out.deep_view().len() implies point_le_fn()(
                #[trigger] out.deep_view()[i],
                #[trigger] out.deep_view()[j],
            ) by {
                if j < odv.len() {
                    assert(sorted_by(odv, point_le_fn()));
                    assert(point_le_fn()(odv[i], odv[j]));
                }
            }
            assert forall|i: int, t: int|
                0 <= i < out.deep_view().len() && 0 <= t < rest.deep_view().len() implies point_le(
                #[trigger] out.deep_view()[i],
                #[trigger] rest.deep_view()[t],
            ) by {
                let x = rest.deep_view()[t];
                assert(rdv.remove(m as int)[t] == if t < m { rdv[t] } else { rdv[t + 1] });
                if i < odv.len() {
                    assert(point_le(odv[i], x));
                } else {
                    assert(point_le(rdv[m as int], x));
                }
            }
        }
    }
    proof {
        assert(rest.deep_view() =~= Seq::<PointV>::empty());
        vstd::seq_lib::lemma_multiset_commutative(out.deep_view(), rest.deep_view());
        assert(out.deep_view() + rest.deep_view() =~= out.deep_view());
        assert(out.deep_view().to_multiset().add(rest.deep_view().to_multiset())
            =~= out.deep_view().to_multiset());
    }
    out
}

/// Sort every group's records; each group keeps its identifier and exactly
/// its records, well-formedness included.
pub fn sort_all(groups: Vec<Group>) -> (r: Vec<Group>)
    requires
        forall|i: int| 0 <= i < groups.len() ==> (#[trigger] groups[i])@.wf(),
    ensures
        r.len() == groups.len(),
        forall|i: int| 0 <= i < r.len() ==> (#[trigger] r[i])@.id == groups[i]@.id,
        forall|i: int|
            0 <= i < r.len() ==> (#[trigger] r[i])@.recs.to_multiset() == groups[i]@.recs.to_multiset(),
        forall|i: int| 0 <= i < r.len() ==> sorted_by((#[trigger] r[i])@.recs, point_le_fn()),
        forall|i: int| 0 <= i < r.len() ==> (#[trigger] r[i])@.wf(),
{
    broadcast use vstd::seq_lib::group_to_multiset_ensures;

    let ghost gv = groups.deep_view();
    let mut rest = groups;
    let mut out: Vec<Group> = Vec::new();
    proof {
        assert(rest.deep_view() =~= gv.skip(0));
    }
    while rest.len() > 0
        invariant
            out.len() + rest.len() == gv.len(),
            rest.deep_view() == gv.skip(out.len() as int),
            forall|i: int| 0 <= i < gv.len() ==> (#[trigger] gv[i]).wf(),
            forall|i: int| 0 <= i < out.len() ==> (#[trigger] out[i])@.id == gv[i].id,
            forall|i: int|
                0 <= i < out.len() ==> (#[trigger] out[i])@.recs.to_multiset()
                    == gv[i].recs.to_multiset(),
            forall|i: int| 0 <= i < out.len() ==> sorted_by((#[trigger] out[i])@.recs, point_le_fn()),
            forall|i: int| 0 <= i < out.len() ==> (#[trigger] out[i])@.wf(),
        decreases rest.len(),
    {
        let ghost n0 = out.len() as int;
        let ghost rdv0 = rest.deep_view();
        let g = rest.remove(0);
        proof {
            assert(rdv0 == gv.skip(n0));
            assert(g@ == rdv0[0]);
            assert(g@ == gv[n0]);
            assert(rest.deep_view() =~= rdv0.drop_first());
            assert(rdv0.drop_first() =~= gv.skip(n0 + 1));
            assert(rest.deep_view() =~= gv.skip(n0 + 1));
        }
        let sorted_recs = sort_points(g.recs);
        let ng = Group { id: g.id, recs: sorted_recs };
        proof {
            assert(ng@.recs.to_multiset() == gv[n0].recs.to_multiset());
            assert forall|t: int| 0 <= t < ng@.recs.len() implies (#[trigger] ng@.recs[t]).id
                == ng@.id && ng@.recs[t].wf() by {
                let x = ng@.recs[t];
                ng@.recs.to_multiset_ensures();
                gv[n0].recs.to_multiset_ensures();
                assert(ng@.recs.contains(x));
                assert(ng@.recs.to_multiset().count(x) > 0);
                assert(gv[n0].recs.to_multiset().count(x) > 0);
                assert(gv[n0].recs.contains(x));
                let w = choose|w: int| 0 <= w < gv[n0].recs.len() && gv[n0].recs[w] == x;
                assert(gv[n0].wf());
                assert(gv[n0].recs[w].id == gv[n0].id);
            }
            assert(ng@.wf());
        }
        out.push(ng);
    }
    out
}

} // verus!
