use vstd::prelude::*;

verus! {

/// The polylines as sequences of points.
pub open spec fn polylines_view<P>(r: Seq<Vec<P>>) -> Seq<Seq<P>> {
    r.map_values(|c: Vec<P>| c@)
}

/// What a run along `points` makes of them when only the points marked in
/// `keep` may be drawn: each kept point extends the current polyline, each
/// dropped point closes it and starts a new one. The last polyline, which may
/// be empty, is always part of the result.
pub open spec fn pieces<P>(points: Seq<P>, keep: Seq<bool>) -> Seq<Seq<P>>
    decreases points.len(),
{
    if points.len() == 0 {
        seq![Seq::empty()]
    } else {
        let before = pieces(points.drop_last(), keep.take(points.len() - 1));
        if keep[points.len() - 1] {
            before.update(before.len() - 1, before.last().push(points.last()))
        } else {
            before.push(Seq::empty())
        }
    }
}

/// Number of points that are not kept.
pub open spec fn dropped(keep: Seq<bool>) -> nat
    decreases keep.len(),
{
    if keep.len() == 0 {
        0
    } else {
        dropped(keep.drop_last()) + if keep.last() { 0nat } else { 1nat }
    }
}

/// Splits a polyline wherever a point may not be drawn, leaving that point
/// out, so that no stroke runs across a gap.
pub fn split_visible<P: Copy>(points: &Vec<P>, keep: &Vec<bool>) -> (r: Vec<Vec<P>>)
    requires
        points.len() == keep.len(),
    ensures
        polylines_view(r@) == pieces(points@, keep@),
{
    let mut polylines: Vec<Vec<P>> = Vec::new();
    let mut current: Vec<P> = Vec::new();
    let mut i: usize = 0;
    proof {
        assert(points@.take(0) =~= Seq::<P>::empty());
        assert(polylines_view(polylines@).push(current@) =~= pieces(points@.take(0), keep@.take(0)));
    }
    while i < points.len()
        invariant
            i <= points.len(),
            points.len() == keep.len(),
            polylines_view(polylines@).push(current@) == pieces(points@.take(i as int), keep@.take(i as int)),
        decreases points.len() - i,
    {
        let ghost before = pieces(points@.take(i as int), keep@.take(i as int));
        proof {
            let pts = points@.take(i + 1);
            assert(pts.drop_last() =~= points@.take(i as int));
            assert(keep@.take(i + 1).take(i as int) =~= keep@.take(i as int));
            assert(pts.last() == points@[i as int]);
        }
        if keep[i] {
            current.push(points[i]);
            proof {
                assert(polylines_view(polylines@).push(current@) =~= before.update(before.len() - 1, before.last().push(points@[i as int])));
            }
        } else {
            let ghost done = polylines@;
            polylines.push(current);
            current = Vec::new();
            proof {
                assert(polylines_view(polylines@) =~= polylines_view(done).push(before.last()));
                assert(polylines_view(polylines@).push(current@) =~= before.push(Seq::empty()));
            }
        }
        i += 1;
    }
    let ghost done = polylines@;
    polylines.push(current);
    proof {
        assert(points@.take(points.len() as int) =~= points@);
        assert(keep@.take(keep.len() as int) =~= keep@);
        assert(polylines_view(polylines@) =~= polylines_view(done).push(current@));
    }
    polylines
}

/// A polyline whose points may all be drawn comes out whole: one polyline
/// with every point, in the order given.
pub proof fn lemma_all_kept<P>(points: Seq<P>, keep: Seq<bool>)
    requires
        points.len() == keep.len(),
        forall|i: int| 0 <= i < keep.len() ==> #[trigger] keep[i],
    ensures
        pieces(points, keep) == seq![points],
    decreases points.len(),
{
    if points.len() > 0 {
        let k = keep.take(points.len() - 1);
        assert forall|i: int| 0 <= i < k.len() implies #[trigger] k[i] by {
            assert(k[i] == keep[i]);
        }
        lemma_all_kept(points.drop_last(), k);
        assert(points.drop_last().push(points.last()) =~= points);
        assert(pieces(points, keep) =~= seq![points]);
    } else {
        assert(points =~= Seq::<P>::empty());
    }
}

/// A polyline with exactly one point that may not be drawn comes out as two
/// polylines: the points before it and the points after it.
pub proof fn lemma_one_dropped<P>(points: Seq<P>, keep: Seq<bool>, m: int)
    requires
        points.len() == keep.len(),
        0 <= m < keep.len(),
        !keep[m],
        forall|i: int| 0 <= i < keep.len() && i != m ==> #[trigger] keep[i],
    ensures
        pieces(points, keep) == seq![points.take(m), points.skip(m + 1)],
    decreases points.len(),
{
    let n = points.len();
    let k = keep.take(n - 1);
    let front = points.drop_last();
    if n == m + 1 {
        assert forall|i: int| 0 <= i < k.len() implies #[trigger] k[i] by {
            assert(k[i] == keep[i]);
        }
        lemma_all_kept(front, k);
        assert(front =~= points.take(m));
        assert(points.skip(m + 1) =~= Seq::<P>::empty());
        assert(pieces(points, keep) =~= seq![points.take(m), points.skip(m + 1)]);
    } else {
        assert forall|i: int| 0 <= i < k.len() && i != m implies #[trigger] k[i] by {
            assert(k[i] == keep[i]);
        }
        lemma_one_dropped(front, k, m);
        assert(front.take(m) =~= points.take(m));
        assert(front.skip(m + 1).push(points.last()) =~= points.skip(m + 1));
        assert(pieces(points, keep) =~= seq![points.take(m), points.skip(m + 1)]);
    }
}

/// Every point that may not be drawn starts a new polyline: there is one
/// polyline more than there are such points.
pub proof fn lemma_piece_count<P>(points: Seq<P>, keep: Seq<bool>)
    requires
        points.len() == keep.len(),
    ensures
        pieces(points, keep).len() == dropped(keep) + 1,
    decreases points.len(),
{
    if points.len() > 0 {
        let k = keep.take(points.len() - 1);
        lemma_piece_count(points.drop_last(), k);
        assert(k =~= keep.drop_last());
    }
}

} // verus!
