//! Cropping the vector stack to a bounding box.
//!
//! Lines are cut where they leave the box: runs of inside points become
//! their own polylines. Where a run enters across the lower boundary,
//! the point just before it is kept as an anchor, and where it leaves
//! across the lower boundary, the first outside point is kept; so every
//! vertex of an output line but the first and the last lies inside the
//! box. Comparisons are the standard's, on bit patterns, so a NaN
//! coordinate always counts as outside.

use vstd::prelude::*;

use crate::fbits::{f64_bits_le, f64_bits_lt, f64_le, f64_lt};
use crate::geometry::{Classification, Point2, Point3, Points, Polylines};

verus! {

/// Points that know their planar coordinates.
pub trait HasXy: Sized {
    /// The planar coordinates as bit patterns.
    spec fn spec_xy(&self) -> (u64, u64);

    /// The planar coordinates as bit patterns.
    fn xy(&self) -> (r: (u64, u64))
        ensures
            r == self.spec_xy(),
    ;
}

impl HasXy for Point2 {
    open spec fn spec_xy(&self) -> (u64, u64) {
        (self.x, self.y)
    }

    fn xy(&self) -> (r: (u64, u64)) {
        (self.x, self.y)
    }
}

impl HasXy for Point3 {
    open spec fn spec_xy(&self) -> (u64, u64) {
        (self.x, self.y)
    }

    fn xy(&self) -> (r: (u64, u64)) {
        (self.x, self.y)
    }
}

/// Whether planar coordinates lie inside the box; false for NaN.
pub open spec fn xy_in_bounds(p: (u64, u64), minx: u64, miny: u64, maxx: u64, maxy: u64) -> bool {
    &&& f64_le(minx, p.0)
    &&& f64_le(p.0, maxx)
    &&& f64_le(miny, p.1)
    &&& f64_le(p.1, maxy)
}

/// Whether planar coordinates lie beyond the lower boundary on either
/// axis; only such points are kept as anchors.
pub open spec fn xy_below_min(p: (u64, u64), minx: u64, miny: u64) -> bool {
    f64_lt(p.0, minx) || f64_lt(p.1, miny)
}

/// What cropping guarantees of one output line: at least two vertices,
/// every vertex inside the box except that the first and the last may
/// instead be an anchor beyond the lower boundary.
pub open spec fn cropped_line_ok<P: HasXy>(
    line: Seq<P>,
    minx: u64,
    miny: u64,
    maxx: u64,
    maxy: u64,
) -> bool {
    &&& line.len() >= 2
    &&& forall|j: int|
        1 <= j < line.len() - 1 ==> xy_in_bounds(
            #[trigger] line[j].spec_xy(),
            minx,
            miny,
            maxx,
            maxy,
        )
    &&& (xy_in_bounds(line[0].spec_xy(), minx, miny, maxx, maxy) || xy_below_min(
        line[0].spec_xy(),
        minx,
        miny,
    ))
    &&& (xy_in_bounds(line[line.len() - 1].spec_xy(), minx, miny, maxx, maxy) || xy_below_min(
        line[line.len() - 1].spec_xy(),
        minx,
        miny,
    ))
}

/// A line still being collected: every vertex after the first inside
/// the box, the first inside or an anchor.
spec fn partial_line_ok<P: HasXy>(
    line: Seq<P>,
    minx: u64,
    miny: u64,
    maxx: u64,
    maxy: u64,
) -> bool {
    line.len() >= 1 ==> {
        &&& forall|j: int|
            1 <= j < line.len() ==> xy_in_bounds(
                #[trigger] line[j].spec_xy(),
                minx,
                miny,
                maxx,
                maxy,
            )
        &&& (xy_in_bounds(line[0].spec_xy(), minx, miny, maxx, maxy) || xy_below_min(
            line[0].spec_xy(),
            minx,
            miny,
        ))
    }
}

/// The cutting walk over one line's points: `pre` is the point
/// before, `cur` the run being collected, `out` the lines cut so far.
/// An inside point extends the run (opening it with a below-min
/// anchor where the line just entered); an outside point after a run
/// of at least two closes the run, keeping the point itself when the
/// line left across the lower boundary; a final run of at least two
/// is closed at the end.
pub open spec fn crop_walk<P: HasXy>(
    line: Seq<P>,
    i: int,
    pre: Option<P>,
    cur: Seq<P>,
    out: Seq<Seq<P>>,
    minx: u64,
    miny: u64,
    maxx: u64,
    maxy: u64,
) -> Seq<Seq<P>>
    decreases line.len() - i when 0 <= i <= line.len()
{
    if i == line.len() {
        if cur.len() > 1 {
            out.push(cur)
        } else {
            out
        }
    } else {
        let p = line[i];
        if xy_in_bounds(p.spec_xy(), minx, miny, maxx, maxy) {
            let opened = if cur.len() == 0 && pre is Some && xy_below_min(
                pre->0.spec_xy(),
                minx,
                miny,
            ) {
                cur.push(pre->0)
            } else {
                cur
            };
            crop_walk(line, i + 1, Some(p), opened.push(p), out, minx, miny, maxx, maxy)
        } else if cur.len() > 1 {
            let closed = if xy_below_min(p.spec_xy(), minx, miny) {
                cur.push(p)
            } else {
                cur
            };
            crop_walk(line, i + 1, Some(p), Seq::empty(), out.push(closed), minx, miny, maxx, maxy)
        } else {
            crop_walk(line, i + 1, Some(p), cur, out, minx, miny, maxx, maxy)
        }
    }
}

/// The lines cropping cuts out of one input line, in order.
pub open spec fn crop_line_spec<P: HasXy>(
    line: Seq<P>,
    minx: u64,
    miny: u64,
    maxx: u64,
    maxy: u64,
) -> Seq<Seq<P>> {
    crop_walk(line, 0, None, Seq::empty(), Seq::empty(), minx, miny, maxx, maxy)
}

/// The cut lines of a whole collection from line `j` on, each tagged
/// with its input line's classification, in input order.
pub open spec fn crop_pairs_spec<P: HasXy, C>(
    lines: Seq<Vec<P>>,
    classes: Seq<C>,
    j: int,
    minx: u64,
    miny: u64,
    maxx: u64,
    maxy: u64,
) -> Seq<(Seq<P>, C)>
    decreases lines.len() - j when 0 <= j <= lines.len()
{
    if j == lines.len() {
        Seq::<(Seq<P>, C)>::empty()
    } else {
        crop_line_spec(lines[j]@, minx, miny, maxx, maxy).map_values(
            |l: Seq<P>| (l, classes[j]),
        ) + crop_pairs_spec(lines, classes, j + 1, minx, miny, maxx, maxy)
    }
}

/// Whether a polyline collection holds exactly the given tagged
/// lines, in order.
pub open spec fn matches_pairs<P, C>(r: Polylines<P, C>, pairs: Seq<(Seq<P>, C)>) -> bool {
    &&& r.lines().len() == pairs.len()
    &&& r.classes().len() == pairs.len()
    &&& forall|k: int|
        0 <= k < pairs.len() ==> (#[trigger] r.lines()[k])@ == pairs[k].0 && r.classes()[k]
            == pairs[k].1
}

/// Appending one tagged line extends the match by its pair.
proof fn lemma_matches_pairs_push<P, C>(
    after: Polylines<P, C>,
    before: Polylines<P, C>,
    pairs: Seq<(Seq<P>, C)>,
    line: Vec<P>,
    class: C,
)
    requires
        matches_pairs(before, pairs),
        after.lines() == before.lines().push(line),
        after.classes() == before.classes().push(class),
    ensures
        matches_pairs(after, pairs.push((line@, class))),
{
    assert forall|k: int|
        0 <= k < pairs.push((line@, class)).len() implies (#[trigger] after.lines()[k])@
            == pairs.push((line@, class))[k].0 && after.classes()[k] == pairs.push(
        (line@, class),
    )[k].1 by {
        if k < pairs.len() {
            assert(after.lines()[k] == before.lines()[k]);
            assert(after.classes()[k] == before.classes()[k]);
        }
    }
}

/// Crop every line of a collection to the box, cutting lines where
/// they leave it. The result is exactly the cut runs of every input
/// line in order, each keeping its line's classification; every
/// output line has at least two vertices, all of them inside the box
/// except possibly an anchor at either end.
pub fn crop_lines<P: HasXy + Copy, C: Copy>(
    input: &Polylines<P, C>,
    minx: u64,
    miny: u64,
    maxx: u64,
    maxy: u64,
) -> (r: Polylines<P, C>)
    requires
        input.wf(),
    ensures
        r.wf(),
        forall|i: int|
            0 <= i < r.lines().len() ==> cropped_line_ok(
                #[trigger] r.lines()[i]@,
                minx,
                miny,
                maxx,
                maxy,
            ),
        matches_pairs(
            r,
            crop_pairs_spec(input.lines(), input.classes(), 0, minx, miny, maxx, maxy),
        ),
{
    let mut output: Polylines<P, C> = Polylines::new();
    proof {
        input.lemma_wf_lens();
    }
    let ghost whole = crop_pairs_spec(input.lines(), input.classes(), 0, minx, miny, maxx, maxy);
    let ghost mut emitted = Seq::<(Seq<P>, C)>::empty();
    let (lines, classes) = input.iter();
    let nl = lines.len();
    let mut li: usize = 0;
    proof {
        assert(emitted + whole =~= whole);
    }
    while li < nl
        invariant
            input.wf(),
            nl == input.lines().len(),
            lines@ == input.lines(),
            classes@ == input.classes(),
            classes@.len() == nl,
            li <= nl,
            output.wf(),
            forall|i: int|
                0 <= i < output.lines().len() ==> cropped_line_ok(
                    #[trigger] output.lines()[i]@,
                    minx,
                    miny,
                    maxx,
                    maxy,
                ),
            whole == crop_pairs_spec(input.lines(), input.classes(), 0, minx, miny, maxx, maxy),
            emitted + crop_pairs_spec(input.lines(), input.classes(), li as int, minx, miny, maxx, maxy)
                == whole,
            matches_pairs(output, emitted),
        decreases nl - li,
    {
        let p: &Vec<P> = &lines[li];
        let c: C = classes[li];
        let mut pre: Option<P> = None;
        let mut prex: u64 = 0;
        let mut prey: u64 = 0;
        let mut poly: Vec<P> = Vec::new();
        let ghost mut line_cut = Seq::<Seq<P>>::empty();
        let ghost goal = crop_line_spec(p@, minx, miny, maxx, maxy);
        let np = p.len();
        let mut pi: usize = 0;
        let ghost mut tagged_cut = Seq::<(Seq<P>, C)>::empty();
        proof {
            assert(emitted + tagged_cut =~= emitted);
        }
        while pi < np
            invariant
                np == p@.len(),
                pi <= np,
                partial_line_ok(poly@, minx, miny, maxx, maxy),
                pre matches Some(q) ==> q.spec_xy() == (prex, prey),
                pi > 0 ==> pre == Some(p@[pi - 1]),
                pi == 0 ==> pre is None && poly@.len() == 0 && line_cut.len() == 0,
                output.wf(),
                forall|i: int|
                    0 <= i < output.lines().len() ==> cropped_line_ok(
                        #[trigger] output.lines()[i]@,
                        minx,
                        miny,
                        maxx,
                        maxy,
                    ),
                goal == crop_line_spec(p@, minx, miny, maxx, maxy),
                crop_walk(p@, pi as int, pre, poly@, line_cut, minx, miny, maxx, maxy) == goal,
                tagged_cut.len() == line_cut.len(),
                forall|k: int|
                    0 <= k < line_cut.len() ==> #[trigger] tagged_cut[k] == (line_cut[k], c),
                matches_pairs(output, emitted + tagged_cut),
            decreases np - pi,
        {
            let point = p[pi];
            let (valx, valy) = point.xy();
            if f64_bits_le(minx, valx) && f64_bits_le(valx, maxx) && f64_bits_le(miny, valy)
                && f64_bits_le(valy, maxy) {
                if poly.len() == 0 {
                    match pre {
                        Some(pr) => {
                            if f64_bits_lt(prex, minx) || f64_bits_lt(prey, miny) {
                                poly.push(pr);
                            }
                        },
                        None => {},
                    }
                }
                poly.push(point);
            } else if poly.len() > 1 {
                if f64_bits_lt(valx, minx) || f64_bits_lt(valy, miny) {
                    poly.push(point);
                }
                let ghost closed = poly@;
                let ghost before = output;
                output.push(poly, c);
                proof {
                    lemma_matches_pairs_push(output, before, emitted + tagged_cut, poly, c);
                    line_cut = line_cut.push(closed);
                    tagged_cut = tagged_cut.push((closed, c));
                    assert((emitted + tagged_cut.drop_last()).push((closed, c)) =~= emitted
                        + tagged_cut);
                    assert(tagged_cut.drop_last() =~= tagged_cut.subrange(
                        0,
                        tagged_cut.len() - 1,
                    ));
                }
                poly = Vec::new();
            }
            pre = Some(point);
            prex = valx;
            prey = valy;
            pi = pi + 1;
        }
        if poly.len() > 1 {
            let ghost closed = poly@;
            let ghost before = output;
            output.push(poly, c);
            proof {
                lemma_matches_pairs_push(output, before, emitted + tagged_cut, poly, c);
                line_cut = line_cut.push(closed);
                tagged_cut = tagged_cut.push((closed, c));
                assert((emitted + tagged_cut.drop_last()).push((closed, c)) =~= emitted
                    + tagged_cut);
            }
        }
        proof {
            // the walk has consumed the whole line, so this line's cut
            // runs are exactly its specified crop
            assert(line_cut == goal);
            let tagged = goal.map_values(|l: Seq<P>| (l, c));
            assert(tagged_cut =~= tagged);
            assert(crop_pairs_spec(
                input.lines(),
                input.classes(),
                li as int,
                minx,
                miny,
                maxx,
                maxy,
            ) == tagged + crop_pairs_spec(
                input.lines(),
                input.classes(),
                li + 1,
                minx,
                miny,
                maxx,
                maxy,
            )) by {
                assert(input.lines()[li as int]@ == p@);
                assert(input.classes()[li as int] == c);
            }
            assert((emitted + tagged) + crop_pairs_spec(
                input.lines(),
                input.classes(),
                li + 1,
                minx,
                miny,
                maxx,
                maxy,
            ) =~= whole);
            emitted = emitted + tagged;
        }
        li = li + 1;
    }
    proof {
        assert(crop_pairs_spec(input.lines(), input.classes(), nl as int, minx, miny, maxx, maxy)
            =~= Seq::<(Seq<P>, C)>::empty());
        assert(emitted =~= whole);
    }
    output
}

/// Keep only the points inside the box.
pub fn crop_points(input: &Points, minx: u64, miny: u64, maxx: u64, maxy: u64) -> (r: Points)
    requires
        input.wf(),
    ensures
        r.wf(),
        r.pairs() == input.pairs().filter(
            |pc: (Point2, Classification)| xy_in_bounds((pc.0.x, pc.0.y), minx, miny, maxx, maxy),
        ),
{
    let mut output = Points::new();
    let (points, classes) = input.iter();
    let n = points.len();
    let mut i: usize = 0;
    proof {
        assert(input.pairs().subrange(0, 0) =~= Seq::<(Point2, Classification)>::empty());
        lemma_filter_empty::<(Point2, Classification)>(
            |pc: (Point2, Classification)| xy_in_bounds((pc.0.x, pc.0.y), minx, miny, maxx, maxy),
        );
    }
    while i < n
        invariant
            input.wf(),
            n == input.pairs().len(),
            points@.len() == n,
            classes@.len() == n,
            forall|j: int| 0 <= j < n ==> #[trigger] input.pairs()[j] == (points@[j], classes@[j]),
            i <= n,
            output.wf(),
            output.pairs() == input.pairs().subrange(0, i as int).filter(
                |pc: (Point2, Classification)| xy_in_bounds(
                    (pc.0.x, pc.0.y),
                    minx,
                    miny,
                    maxx,
                    maxy,
                ),
            ),
        decreases n - i,
    {
        let pt = points[i];
        let cl = classes[i];
        proof {
            lemma_filter_push(
                input.pairs().subrange(0, i as int),
                (pt, cl),
                |pc: (Point2, Classification)| xy_in_bounds(
                    (pc.0.x, pc.0.y),
                    minx,
                    miny,
                    maxx,
                    maxy,
                ),
            );
            assert(input.pairs().subrange(0, i + 1) =~= input.pairs().subrange(0, i as int).push(
                (pt, cl),
            ));
        }
        if f64_bits_le(minx, pt.x) && f64_bits_le(pt.x, maxx) && f64_bits_le(miny, pt.y)
            && f64_bits_le(pt.y, maxy) {
            output.push(pt, cl);
        }
        i = i + 1;
    }
    proof {
        assert(input.pairs().subrange(0, n as int) =~= input.pairs());
    }
    output
}

/// Filtering the empty sequence gives the empty sequence.
pub proof fn lemma_filter_empty<A>(pred: spec_fn(A) -> bool)
    ensures
        Seq::<A>::empty().filter(pred) == Seq::<A>::empty(),
{
    reveal(Seq::filter);
}

/// Filtering distributes over appending one element.
pub proof fn lemma_filter_push<A>(s: Seq<A>, x: A, pred: spec_fn(A) -> bool)
    ensures
        s.push(x).filter(pred) == if pred(x) {
            s.filter(pred).push(x)
        } else {
            s.filter(pred)
        },
{
    reveal(Seq::filter);
    assert(s.push(x).drop_last() =~= s);
    assert(s.push(x).last() == x);
}

} // verus!
