//! Grouping polygon rings for ear-clipping triangulation.
use vstd::prelude::*;

use crate::feature::{Point, PolygonFeature, RingRole, SpecRing};
use crate::geometry::paths_view;

verus! {

/// One exterior ring with the holes that follow it.
pub type RingGroup = (Vec<Point>, Vec<Vec<Point>>);

/// The ring groups of the first `rings.len()` rings: rings of fewer than
/// three points are skipped, an exterior ring opens a group, a hole joins
/// the latest group and is dropped when no group is open yet.
pub open spec fn ring_groups_of(rings: Seq<SpecRing>) -> Seq<(Seq<Point>, Seq<Seq<Point>>)>
    decreases rings.len(),
{
    if rings.len() == 0 {
        Seq::empty()
    } else {
        let prev = ring_groups_of(rings.drop_last());
        let r = rings.last();
        if r.points.len() < 3 {
            prev
        } else if r.role == RingRole::Exterior {
            prev.push((r.points, Seq::empty()))
        } else if prev.len() > 0 {
            prev.update(prev.len() - 1, (prev.last().0, prev.last().1.push(r.points)))
        } else {
            prev
        }
    }
}

pub open spec fn groups_view(v: Seq<RingGroup>) -> Seq<(Seq<Point>, Seq<Seq<Point>>)> {
    v.map_values(|g: RingGroup| (g.0@, paths_view(g.1@)))
}

fn copy_points(points: &Vec<Point>) -> (r: Vec<Point>)
    ensures
        r@ == points@,
{
    let mut out: Vec<Point> = Vec::with_capacity(points.len());
    let mut i: usize = 0;
    while i < points.len()
        invariant
            i <= points@.len(),
            out@ == points@.take(i as int),
        decreases points@.len() - i,
    {
        out.push(points[i]);
        i += 1;
        assert(out@ =~= points@.take(i as int));
    }
    assert(points@.take(points@.len() as int) =~= points@);
    out
}

/// Groups a polygon's rings into exterior rings with their holes (see [`ring_groups_of`]).
pub fn ring_groups(polygon: &PolygonFeature) -> (r: Vec<RingGroup>)
    ensures
        groups_view(r@) == ring_groups_of(polygon@.rings),
{
    let ghost rings = polygon@.rings;
    let mut groups: Vec<RingGroup> = Vec::new();
    let mut i: usize = 0;
    assert(rings.take(0) =~= Seq::<SpecRing>::empty());
    while i < polygon.rings.len()
        invariant
            rings == polygon@.rings,
            i <= rings.len(),
            groups_view(groups@) == ring_groups_of(rings.take(i as int)),
        decreases rings.len() - i,
    {
        let ring = &polygon.rings[i];
        assert(rings[i as int] == ring@);
        assert(rings.take(i + 1int).drop_last() =~= rings.take(i as int));
        assert(rings.take(i + 1int).last() == ring@);
        let ghost prev = groups_view(groups@);
        if ring.points.len() >= 3 {
            match ring.role {
                RingRole::Exterior => {
                    let g: RingGroup = (copy_points(&ring.points), Vec::new());
                    groups.push(g);
                    assert(paths_view(g.1@) =~= Seq::<Seq<Point>>::empty());
                    assert(groups_view(groups@) =~= prev.push((ring@.points, Seq::empty())));
                },
                RingRole::Hole => {
                    if groups.len() > 0 {
                        let (exterior, mut holes) = groups.pop().unwrap();
                        let ghost old_holes = paths_view(holes@);
                        holes.push(copy_points(&ring.points));
                        assert(paths_view(holes@) =~= old_holes.push(ring@.points));
                        groups.push((exterior, holes));
                        assert(groups_view(groups@) =~= prev.update(
                            prev.len() - 1,
                            (prev.last().0, prev.last().1.push(ring@.points)),
                        ));
                    }
                },
            }
        }
        i += 1;
    }
    assert(rings.take(rings.len() as int) =~= rings);
    groups
}

/// The rings of `groups` in order: each exterior ring followed by its holes.
pub open spec fn flatten_groups(groups: Seq<(Seq<Point>, Seq<Seq<Point>>)>) -> Seq<Seq<Point>>
    decreases groups.len(),
{
    if groups.len() == 0 {
        Seq::empty()
    } else {
        flatten_groups(groups.drop_last()).push(groups.last().0) + groups.last().1
    }
}

/// Whether some ring of `rings` is an exterior ring of at least three points.
pub open spec fn has_exterior(rings: Seq<SpecRing>) -> bool {
    exists|k: int| 0 <= k < rings.len() && (#[trigger] rings[k]).points.len() >= 3 && rings[k].role
        == RingRole::Exterior
}

/// The rings that triangulation keeps, in order: rings of at least three
/// points, except holes that come before any exterior ring.
pub open spec fn kept_rings(rings: Seq<SpecRing>) -> Seq<Seq<Point>>
    decreases rings.len(),
{
    if rings.len() == 0 {
        Seq::empty()
    } else {
        let prev = kept_rings(rings.drop_last());
        let r = rings.last();
        if r.points.len() >= 3 && (r.role == RingRole::Exterior || has_exterior(rings.drop_last())) {
            prev.push(r.points)
        } else {
            prev
        }
    }
}

/// Each hole goes with the latest exterior ring before it: reading the
/// groups in order, each exterior ring followed by its holes, gives back
/// exactly the kept rings in their original order. The groups are opened by
/// the kept exterior rings, one each, and there is a group exactly when
/// there is a kept exterior ring.
pub proof fn lemma_holes_join_latest_exterior(rings: Seq<SpecRing>)
    ensures
        flatten_groups(ring_groups_of(rings)) == kept_rings(rings),
        ring_groups_of(rings).len() > 0 <==> has_exterior(rings),
        forall|g: int| 0 <= g < ring_groups_of(rings).len() ==> #[trigger] ring_groups_of(rings)[g].0.len() >= 3,
    decreases rings.len(),
{
    if rings.len() > 0 {
        let init = rings.drop_last();
        let r = rings.last();
        lemma_holes_join_latest_exterior(init);
        let prev = ring_groups_of(init);
        assert(has_exterior(rings) <==> has_exterior(init) || (r.points.len() >= 3 && r.role == RingRole::Exterior))
            by {
            if has_exterior(init) {
                let k = choose|k: int| 0 <= k < init.len() && (#[trigger] init[k]).points.len() >= 3 && init[k].role
                    == RingRole::Exterior;
                assert(rings[k] == init[k]);
            }
            if has_exterior(rings) {
                let k = choose|k: int| 0 <= k < rings.len() && (#[trigger] rings[k]).points.len() >= 3
                    && rings[k].role == RingRole::Exterior;
                if k < init.len() {
                    assert(init[k] == rings[k]);
                }
            }
            if r.points.len() >= 3 && r.role == RingRole::Exterior {
                assert(rings[rings.len() - 1] == r);
            }
        }
        if r.points.len() >= 3 {
            if r.role == RingRole::Exterior {
                let next = prev.push((r.points, Seq::empty()));
                assert(next.drop_last() =~= prev);
                assert(flatten_groups(next) =~= flatten_groups(prev).push(r.points));
            } else if prev.len() > 0 {
                let last = prev.last();
                let next = prev.update(prev.len() - 1, (last.0, last.1.push(r.points)));
                assert(next.drop_last() =~= prev.drop_last());
                assert(flatten_groups(prev) == flatten_groups(prev.drop_last()).push(last.0) + last.1);
                assert(flatten_groups(next) =~= flatten_groups(prev).push(r.points));
            }
        }
    }
}

} // verus!
