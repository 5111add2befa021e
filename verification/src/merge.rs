//! Head/tail merging of contour polylines.
//!
//! The knoll detector and the smoothing stage both begin by joining
//! polylines whose ends meet: a line is merged with another whose head
//! or tail lies on one of its own ends, reversing the other line when
//! the ends meet head-to-head or tail-to-tail, until no join applies.
//! Ends are compared by quantised keys the caller computes (milli-unit
//! integers); the points themselves are opaque bit patterns. Two key
//! slots per endpoint allow two lines to share an end. An entry of 0
//! marks an empty slot; as a consequence the line at index 0 is never
//! joined into another line, only other lines into it.

use std::collections::HashMap;

use vstd::pervasive::VecAdditionalExecFns;
use vstd::prelude::*;

use crate::crop::lemma_filter_push;
use crate::geometry::{spec_is_intermed, Classification, Geometry, Point2, Point3, Points, Polylines};

verus! {

/// The geometry entries of a sequence of per-tile stacks, in order.
pub open spec fn stacks_flat(s: Seq<Vec<Geometry>>, j: int) -> Seq<Geometry>
    decreases s.len() - j when 0 <= j <= s.len()
{
    if j == s.len() {
        Seq::<Geometry>::empty()
    } else {
        s[j]@ + stacks_flat(s, j + 1)
    }
}

/// Concatenate per-tile geometry stacks into one combined stack, in
/// tile order; nothing is dropped or reordered.
pub fn merge_stacks(loaded: Vec<Vec<Geometry>>) -> (r: Vec<Geometry>)
    ensures
        r@ == stacks_flat(loaded@, 0),
{
    let ghost l0 = loaded@;
    let initial_len: usize = loaded.len();
    let ghost n = loaded@.len();
    let mut loaded = loaded;
    let mut out: Vec<Geometry> = Vec::new();
    let mut j: usize = 0;
    proof {
        assert(loaded@ =~= l0.subrange(0, n as int));
        assert(out@ + stacks_flat(l0, 0) =~= stacks_flat(l0, 0));
    }
    while loaded.len() > 0
        invariant
            n == l0.len(),
            n == initial_len,
            j <= n,
            loaded@ == l0.subrange(j as int, n as int),
            out@ + stacks_flat(l0, j as int) == stacks_flat(l0, 0),
        decreases loaded@.len(),
    {
        let mut stack = loaded.remove(0);
        proof {
            assert(stack == l0[j as int]);
            assert(loaded@ =~= l0.subrange(j + 1, n as int));
            assert(out@ + (stack@ + stacks_flat(l0, j + 1)) =~= (out@ + stack@) + stacks_flat(
                l0,
                j + 1,
            ));
        }
        while stack.len() > 0
            invariant
                n == l0.len(),
                j < n,
                (out@ + stack@) + stacks_flat(l0, j + 1) == stacks_flat(l0, 0),
            decreases stack@.len(),
        {
            let entry = stack.remove(0);
            let ghost prev = out@;
            out.push(entry);
            proof {
                assert((out@ + stack@) =~= (prev + (seq![entry] + stack@)));
            }
        }
        proof {
            assert(out@ + stacks_flat(l0, j + 1) =~= (out@ + stack@) + stacks_flat(l0, j + 1));
        }
        j = j + 1;
    }
    proof {
        assert(stacks_flat(l0, n as int) =~= Seq::<Geometry>::empty());
        assert(out@ =~= out@ + stacks_flat(l0, n as int));
    }
    out
}

/// Whether a file name ends with a suffix, character by character;
/// decides which per-tile files belong to each combined stack.
pub fn name_ends_with(name: &Vec<char>, suffix: &Vec<char>) -> (r: bool)
    ensures
        r == (name@.len() >= suffix@.len() && name@.subrange(
            name@.len() - suffix@.len(),
            name@.len() as int,
        ) == suffix@),
{
    let nl = name.len();
    let sl = suffix.len();
    if nl < sl {
        return false;
    }
    let off = nl - sl;
    let mut k: usize = 0;
    while k < sl
        invariant
            nl == name@.len(),
            sl == suffix@.len(),
            off == nl - sl,
            k <= sl,
            forall|m: int| 0 <= m < k ==> name@[off + m] == suffix@[m],
        decreases sl - k,
    {
        if name[off + k] != suffix[k] {
            proof {
                assert(name@.subrange(off as int, nl as int)[k as int] == name@[off + k]);
            }
            return false;
        }
        k = k + 1;
    }
    proof {
        assert(name@.subrange(off as int, nl as int) =~= suffix@);
    }
    true
}

/// The containers inside a geometry entry are well formed.
pub open spec fn geometry_wf(g: Geometry) -> bool {
    match g {
        Geometry::Points(p) => p.wf(),
        Geometry::Polylines2(p) => p.wf(),
        Geometry::Polylines3(p) => p.wf(),
    }
}

/// Drop the intermediate contours from one geometry entry, as done
/// when the per-tile stacks are combined: the combined stack carries
/// no form lines.
pub fn filter_intermed(g: Geometry) -> (r: Geometry)
    requires
        geometry_wf(g),
    ensures
        match g {
            Geometry::Points(p) => r matches Geometry::Points(q) && q.wf() && q.pairs()
                == p.pairs().filter(
                |pc: (Point2, Classification)| !spec_is_intermed(pc.1),
            ),
            Geometry::Polylines2(p) => r matches Geometry::Polylines2(q) && q.wf() && q.pairs()
                == p.pairs().filter(
                |pc: (Vec<Point2>, Classification)| !spec_is_intermed(pc.1),
            ),
            Geometry::Polylines3(p) => r matches Geometry::Polylines3(q) && q.wf() && q.pairs()
                == p.pairs().filter(
                |pc: (Vec<Point3>, (Classification, u64))| !spec_is_intermed(pc.1.0),
            ),
        },
{
    match g {
        Geometry::Points(p) => {
            let pred = Ghost(|pc: (Point2, Classification)| !spec_is_intermed(pc.1));
            let mut out = Points::new();
            let (points, classes) = p.iter();
            let n = points.len();
            let mut i: usize = 0;
            proof {
                assert(p.pairs().subrange(0, 0) =~= Seq::<(Point2, Classification)>::empty());
                crate::crop::lemma_filter_empty::<(Point2, Classification)>(pred@);
            }
            while i < n
                invariant
                    p.wf(),
                    n == p.pairs().len(),
                    points@.len() == n,
                    classes@.len() == n,
                    forall|j: int|
                        0 <= j < n ==> #[trigger] p.pairs()[j] == (points@[j], classes@[j]),
                    i <= n,
                    out.wf(),
                    pred@ == (|pc: (Point2, Classification)| !spec_is_intermed(pc.1)),
                    out.pairs() == p.pairs().subrange(0, i as int).filter(pred@),
                decreases n - i,
            {
                let pt = points[i];
                let cl = classes[i];
                proof {
                    lemma_filter_push(p.pairs().subrange(0, i as int), (pt, cl), pred@);
                    assert(p.pairs().subrange(0, i + 1) =~= p.pairs().subrange(0, i as int).push(
                        (pt, cl),
                    ));
                }
                if !cl.is_intermed() {
                    out.push(pt, cl);
                }
                i = i + 1;
            }
            proof {
                assert(p.pairs().subrange(0, n as int) =~= p.pairs());
            }
            Geometry::Points(out)
        },
        Geometry::Polylines2(p) => {
            let pred = Ghost(|pc: (Vec<Point2>, Classification)| !spec_is_intermed(pc.1));
            let ghost pairs0 = p.pairs();
            proof {
                assert(p.wf());
                p.lemma_pairs();
                p.lemma_wf_lens();
            }
            let (mut lines, mut classes) = p.into_parts();
            let ghost lines0 = lines@;
            let ghost classes0 = classes@;
            let n = lines.len();
            let mut out: Polylines<Point2, Classification> = Polylines::new();
            let mut i: usize = 0;
            proof {
                assert(lines@ =~= lines0.subrange(0, n as int));
                assert(classes@ =~= classes0.subrange(0, n as int));
                assert(pairs0.subrange(0, 0) =~= Seq::<(Vec<Point2>, Classification)>::empty());
                crate::crop::lemma_filter_empty::<(Vec<Point2>, Classification)>(pred@);
                out.lemma_pairs();
                assert(out.pairs() =~= Seq::<(Vec<Point2>, Classification)>::empty());
            }
            while i < n
                invariant
                    n == pairs0.len(),
                    lines0.len() == n,
                    classes0.len() == n,
                    i <= n,
                    lines@ == lines0.subrange(i as int, n as int),
                    classes@ == classes0.subrange(i as int, n as int),
                    forall|j: int| 0 <= j < n ==> #[trigger] pairs0[j] == (lines0[j], classes0[j]),
                    out.wf(),
                    pred@ == (|pc: (Vec<Point2>, Classification)| !spec_is_intermed(pc.1)),
                    out.pairs() == pairs0.subrange(0, i as int).filter(pred@),
                decreases n - i,
            {
                let line = lines.remove(0);
                let cl = classes.remove(0);
                proof {
                    assert(line == lines0[i as int]);
                    assert(cl == classes0[i as int]);
                    assert(lines@ =~= lines0.subrange(i + 1, n as int));
                    assert(classes@ =~= classes0.subrange(i + 1, n as int));
                    lemma_filter_push(pairs0.subrange(0, i as int), (line, cl), pred@);
                    assert(pairs0.subrange(0, i + 1) =~= pairs0.subrange(0, i as int).push(
                        (line, cl),
                    ));
                }
                if !cl.is_intermed() {
                    let ghost prev = out;
                    out.push(line, cl);
                    proof {
                        out.lemma_pairs_push(prev, lines0[i as int], cl);
                    }
                }
                i = i + 1;
            }
            proof {
                assert(pairs0.subrange(0, n as int) =~= pairs0);
            }
            Geometry::Polylines2(out)
        },
        Geometry::Polylines3(p) => {
            let pred = Ghost(
                |pc: (Vec<Point3>, (Classification, u64))| !spec_is_intermed(pc.1.0),
            );
            let ghost pairs0 = p.pairs();
            proof {
                assert(p.wf());
                p.lemma_pairs();
                p.lemma_wf_lens();
            }
            let (mut lines, mut classes) = p.into_parts();
            let ghost lines0 = lines@;
            let ghost classes0 = classes@;
            let n = lines.len();
            let mut out: Polylines<Point3, (Classification, u64)> = Polylines::new();
            let mut i: usize = 0;
            proof {
                assert(lines@ =~= lines0.subrange(0, n as int));
                assert(classes@ =~= classes0.subrange(0, n as int));
                assert(pairs0.subrange(0, 0) =~= Seq::<
                    (Vec<Point3>, (Classification, u64)),
                >::empty());
                out.lemma_pairs();
                assert(out.pairs() =~= Seq::<(Vec<Point3>, (Classification, u64))>::empty());
                crate::crop::lemma_filter_empty::<(Vec<Point3>, (Classification, u64))>(pred@);
            }
            while i < n
                invariant
                    n == pairs0.len(),
                    lines0.len() == n,
                    classes0.len() == n,
                    i <= n,
                    lines@ == lines0.subrange(i as int, n as int),
                    classes@ == classes0.subrange(i as int, n as int),
                    forall|j: int| 0 <= j < n ==> #[trigger] pairs0[j] == (lines0[j], classes0[j]),
                    out.wf(),
                    pred@ == (|pc: (Vec<Point3>, (Classification, u64))| !spec_is_intermed(
                        pc.1.0,
                    )),
                    out.pairs() == pairs0.subrange(0, i as int).filter(pred@),
                decreases n - i,
            {
                let line = lines.remove(0);
                let cl = classes.remove(0);
                proof {
                    assert(line == lines0[i as int]);
                    assert(cl == classes0[i as int]);
                    assert(lines@ =~= lines0.subrange(i + 1, n as int));
                    assert(classes@ =~= classes0.subrange(i + 1, n as int));
                    lemma_filter_push(pairs0.subrange(0, i as int), (line, cl), pred@);
                    assert(pairs0.subrange(0, i + 1) =~= pairs0.subrange(0, i as int).push(
                        (line, cl),
                    ));
                }
                if !cl.0.is_intermed() {
                    let ghost prev = out;
                    out.push(line, cl);
                    proof {
                        out.lemma_pairs_push(prev, lines0[i as int], cl);
                    }
                }
                i = i + 1;
            }
            proof {
                assert(pairs0.subrange(0, n as int) =~= pairs0);
            }
            Geometry::Polylines3(out)
        },
    }
}

/// The map key of a quantised line end.
pub open spec fn spec_end_key(k: (i64, i64)) -> u128 {
    ((k.0 as u64 as u128) << 64) | (k.1 as u64 as u128)
}

/// Whether two quantised ends are the same point.
fn keys_equal(a: (i64, i64), b: (i64, i64)) -> (r: bool)
    ensures
        r == (a == b),
{
    a.0 == b.0 && a.1 == b.1
}

/// Pack a quantised line end into its map key.
fn end_key(k: (i64, i64)) -> (r: u128)
    ensures
        r == spec_end_key(k),
{
    ((k.0 as u64 as u128) << 64) | (k.1 as u64 as u128)
}

/// How many of the lines still hold points, from index `t` on.
pub open spec fn count_active(s: Seq<Vec<(u64, u64)>>, t: int) -> nat
    decreases s.len() - t when 0 <= t <= s.len()
{
    if t == s.len() {
        0
    } else {
        (if s[t]@.len() > 0 {
            1nat
        } else {
            0nat
        }) + count_active(s, t + 1)
    }
}

/// Replacing one line moves the count only by that line's change.
proof fn lemma_count_update(s: Seq<Vec<(u64, u64)>>, k: int, v: Vec<(u64, u64)>, t: int)
    requires
        0 <= t <= s.len(),
        0 <= k < s.len(),
    ensures
        k < t ==> count_active(s.update(k, v), t) == count_active(s, t),
        k >= t ==> count_active(s.update(k, v), t) + (if s[k]@.len() > 0 {
            1nat
        } else {
            0nat
        }) == count_active(s, t) + (if v@.len() > 0 {
            1nat
        } else {
            0nat
        }),
    decreases s.len() - t,
{
    if t < s.len() {
        lemma_count_update(s, k, v, t + 1);
        if t != k {
            assert(s.update(k, v)[t] == s[t]);
        } else {
            assert(s.update(k, v)[t] == v);
        }
    }
}

/// The total number of points over all lines, from index `t` on.
pub open spec fn total_points(s: Seq<Vec<(u64, u64)>>, t: int) -> nat
    decreases s.len() - t when 0 <= t <= s.len()
{
    if t == s.len() {
        0
    } else {
        s[t]@.len() + total_points(s, t + 1)
    }
}

/// Replacing one line moves the total only by that line's change.
proof fn lemma_total_update(s: Seq<Vec<(u64, u64)>>, k: int, v: Vec<(u64, u64)>, t: int)
    requires
        0 <= t <= s.len(),
        0 <= k < s.len(),
    ensures
        k < t ==> total_points(s.update(k, v), t) == total_points(s, t),
        k >= t ==> total_points(s.update(k, v), t) + s[k]@.len() == total_points(s, t)
            + v@.len(),
    decreases s.len() - t,
{
    if t < s.len() {
        lemma_total_update(s, k, v, t + 1);
        if t != k {
            assert(s.update(k, v)[t] == s[t]);
        } else {
            assert(s.update(k, v)[t] == v);
        }
    }
}

/// Appending a line adds its points to the total.
proof fn lemma_total_push(s: Seq<Vec<(u64, u64)>>, v: Vec<(u64, u64)>, t: int)
    requires
        0 <= t <= s.len(),
    ensures
        total_points(s.push(v), t) == total_points(s, t) + v@.len(),
    decreases s.len() - t,
{
    if t < s.len() {
        assert(s.push(v)[t] == s[t]);
        lemma_total_push(s, v, t + 1);
    } else {
        assert(s.push(v)[t] == v);
        assert(total_points(s.push(v), t + 1) == 0);
    }
}

/// Whether every point of every line is a point the caller handed in.
pub open spec fn lines_contained(s: Seq<Vec<(u64, u64)>>, pts: Set<(u64, u64)>) -> bool {
    forall|l: int, p: int|
        0 <= l < s.len() && 0 <= p < s[l]@.len() ==> pts.contains(#[trigger] s[l]@[p])
}

/// Joins polylines end to end by their quantised end keys.
pub struct LineMerger {
    el: Vec<Vec<(u64, u64)>>,
    heads: Vec<(i64, i64)>,
    tails: Vec<(i64, i64)>,
    heads1: HashMap<u128, usize>,
    heads2: HashMap<u128, usize>,
    points: Ghost<Set<(u64, u64)>>,
}

impl LineMerger {
    /// The points of all lines added so far.
    pub closed spec fn spec_points(self) -> Set<(u64, u64)> {
        self.points@
    }

    /// How many points all lines hold together.
    pub closed spec fn spec_total_points(self) -> nat {
        total_points(self.el@, 0)
    }


    /// Lines, ends and key slots stay aligned, slot entries index into
    /// the lines, and all points are known.
    pub closed spec fn wf(self) -> bool {
        &&& self.heads@.len() == self.el@.len()
        &&& self.tails@.len() == self.el@.len()
        &&& forall|k: u128|
            self.heads1@.dom().contains(k) ==> (#[trigger] self.heads1@[k]) < self.el@.len()
        &&& forall|k: u128|
            self.heads2@.dom().contains(k) ==> (#[trigger] self.heads2@[k]) < self.el@.len()
        &&& lines_contained(self.el@, self.points@)
    }

    /// A merger with no lines.
    pub fn new() -> (r: Self)
        ensures
            r.wf(),
            r.spec_points() == Set::<(u64, u64)>::empty(),
    {
        LineMerger {
            el: Vec::new(),
            heads: Vec::new(),
            tails: Vec::new(),
            heads1: HashMap::new(),
            heads2: HashMap::new(),
            points: Ghost(Set::empty()),
        }
    }

    /// Add a line with the quantised keys of its first and last point.
    /// The first free key slot of each end takes the line's index.
    pub fn add_line(&mut self, line: Vec<(u64, u64)>, head: (i64, i64), tail: (i64, i64))
        requires
            old(self).wf(),
        ensures
            final(self).wf(),
            final(self).spec_points() == old(self).spec_points().union(line@.to_set()),
            final(self).spec_total_points() == old(self).spec_total_points() + line@.len(),
    {
        proof {
            self.points@ = self.points@.union(line@.to_set());
            assert forall|l: int, p: int|
                0 <= l < self.el@.len() && 0 <= p < self.el@[l]@.len() implies self.points@.contains(
                #[trigger] self.el@[l]@[p],
            ) by {
                assert(old(self).points@.contains(self.el@[l]@[p]));
            }
        }
        let j = self.el.len();
        proof {
            lemma_total_push(self.el@, line, 0);
        }
        self.el.push(line);
        self.heads.push(head);
        self.tails.push(tail);
        proof {
            assert forall|l: int, p: int|
                0 <= l < self.el@.len() && 0 <= p < self.el@[l]@.len() implies self.points@.contains(
                #[trigger] self.el@[l]@[p],
            ) by {
                if l < self.el@.len() - 1 {
                } else {
                    assert(self.el@[l]@.to_set().contains(self.el@[l]@[p]));
                }
            }
        }
        let hk = end_key(head);
        let slot_free = match self.heads1.get(&hk) {
            Some(v) => *v == 0,
            None => true,
        };
        if slot_free {
            self.heads1.insert(hk, j);
        } else {
            self.heads2.insert(hk, j);
        }
        let tk = end_key(tail);
        let slot_free = match self.heads1.get(&tk) {
            Some(v) => *v == 0,
            None => true,
        };
        if slot_free {
            self.heads1.insert(tk, j);
        } else {
            self.heads2.insert(tk, j);
        }
    }

    /// Join lines until no ends meet any more, then hand back the
    /// merged lines; consumed lines come back empty. Every point of
    /// the result is a point of some added line, and no point is lost
    /// or invented. The joining always terminates: every join
    /// consumes a line for good, and a key slot still naming a
    /// consumed line is passed over rather than followed again.
    pub fn merge(self) -> (r: Vec<Vec<(u64, u64)>>)
        requires
            self.wf(),
        ensures
            forall|l: int, p: int|
                0 <= l < r@.len() && 0 <= p < r@[l]@.len() ==> self.spec_points().contains(
                    #[trigger] r@[l]@[p],
                ),
            total_points(r@, 0) == self.spec_total_points(),
    {
        let LineMerger { mut el, mut heads, mut tails, mut heads1, mut heads2, points } = self;
        let ghost pts = points@;
        let ghost total0 = total_points(el@, 0);
        let n = el.len();
        let mut l: usize = 0;
        while l < n
            invariant
                n == el@.len(),
                heads@.len() == n,
                tails@.len() == n,
                l <= n,
                forall|k: u128| heads1@.dom().contains(k) ==> (#[trigger] heads1@[k]) < n,
                forall|k: u128| heads2@.dom().contains(k) ==> (#[trigger] heads2@[k]) < n,
                lines_contained(el@, pts),
                total_points(el@, 0) == total0,
            decreases n - l,
        {
            if el[l].len() > 0 {
                loop
                    invariant
                        n == el@.len(),
                        heads@.len() == n,
                        tails@.len() == n,
                        l < n,
                        forall|k: u128| heads1@.dom().contains(k) ==> (#[trigger] heads1@[k]) < n,
                        forall|k: u128| heads2@.dom().contains(k) ==> (#[trigger] heads2@[k]) < n,
                        lines_contained(el@, pts),
                        el@[l as int]@.len() > 0,
                        total_points(el@, 0) == total0,
                    decreases count_active(el@, 0),
                {
                    let to_join = find_join(&el, &heads, &tails, &heads1, &heads2, l);
                    match to_join {
                        None => {
                            break ;
                        },
                        Some(to_join) => {
                            let ghost el0 = el@;
                            join_pair(
                                &mut el,
                                &mut heads,
                                &mut tails,
                                &mut heads1,
                                &mut heads2,
                                l,
                                to_join,
                                Ghost(pts),
                            );
                            proof {
                                assert(count_active(el@, 0) < count_active(el0, 0));
                            }
                        },
                    }
                }
            }
            l = l + 1;
        }
        el
    }
}

/// The next line whose end meets an end of line `l`: slot 1 then slot
/// 2 of `l`'s head key, then slot 2 then slot 1 of its tail key.
fn find_join(
    el: &Vec<Vec<(u64, u64)>>,
    heads: &Vec<(i64, i64)>,
    tails: &Vec<(i64, i64)>,
    heads1: &HashMap<u128, usize>,
    heads2: &HashMap<u128, usize>,
    l: usize,
) -> (r: Option<usize>)
    requires
        heads@.len() == el@.len(),
        tails@.len() == el@.len(),
        l < el@.len(),
        forall|k: u128| heads1@.dom().contains(k) ==> (#[trigger] heads1@[k]) < el@.len(),
        forall|k: u128| heads2@.dom().contains(k) ==> (#[trigger] heads2@[k]) < el@.len(),
    ensures
        r matches Some(j) ==> j < el@.len() && j != l && el@[j as int]@.len() > 0,
{
    let hk = end_key(heads[l]);
    let tk = end_key(tails[l]);
    let candidates: [u128; 4] = [hk, hk, tk, tk];
    let slots: [u8; 4] = [1, 2, 2, 1];
    let mut i: usize = 0;
    while i < 4
        invariant
            heads@.len() == el@.len(),
            tails@.len() == el@.len(),
            l < el@.len(),
            forall|k: u128| heads1@.dom().contains(k) ==> (#[trigger] heads1@[k]) < el@.len(),
            forall|k: u128| heads2@.dom().contains(k) ==> (#[trigger] heads2@[k]) < el@.len(),
        decreases 4 - i,
    {
        let key = candidates[i];
        let tmp: usize = if slots[i] == 1 {
            match heads1.get(&key) {
                Some(v) => *v,
                None => 0,
            }
        } else {
            match heads2.get(&key) {
                Some(v) => *v,
                None => 0,
            }
        };
        if tmp != 0 && tmp != l && el[tmp].len() > 0 {
            return Some(tmp);
        }
        i = i + 1;
    }
    None
}

/// Append `src` to `dst`, reversed when `rev`.
fn extend_points(dst: &mut Vec<(u64, u64)>, src: &Vec<(u64, u64)>, rev: bool)
    ensures
        final(dst)@.len() == old(dst)@.len() + src@.len(),
        forall|p: int|
            0 <= p < final(dst)@.len() ==> (#[trigger] final(dst)@[p]) == if p < old(dst)@.len() {
                old(dst)@[p]
            } else if rev {
                src@[src@.len() - 1 - (p - old(dst)@.len())]
            } else {
                src@[p - old(dst)@.len()]
            },
{
    let m = src.len();
    let mut i: usize = 0;
    while i < m
        invariant
            m == src@.len(),
            i <= m,
            dst@.len() == old(dst)@.len() + i,
            forall|p: int| 0 <= p < old(dst)@.len() ==> #[trigger] dst@[p] == old(dst)@[p],
            forall|p: int|
                old(dst)@.len() <= p < dst@.len() ==> (#[trigger] dst@[p]) == if rev {
                    src@[src@.len() - 1 - (p - old(dst)@.len())]
                } else {
                    src@[p - old(dst)@.len()]
                },
        decreases m - i,
    {
        let point = if rev {
            src[m - 1 - i]
        } else {
            src[i]
        };
        dst.push(point);
        i = i + 1;
    }
}

/// Join line `to_join` onto line `l` in the configuration their keys
/// select, free the consumed end's key slots, and clear `to_join`.
#[verifier::rlimit(60)]
fn join_pair(
    el: &mut Vec<Vec<(u64, u64)>>,
    heads: &mut Vec<(i64, i64)>,
    tails: &mut Vec<(i64, i64)>,
    heads1: &mut HashMap<u128, usize>,
    heads2: &mut HashMap<u128, usize>,
    l: usize,
    to_join: usize,
    pts: Ghost<Set<(u64, u64)>>,
)
    requires
        old(heads)@.len() == old(el)@.len(),
        old(tails)@.len() == old(el)@.len(),
        l < old(el)@.len(),
        to_join < old(el)@.len(),
        to_join != l,
        old(el)@[l as int]@.len() > 0,
        old(el)@[to_join as int]@.len() > 0,
        forall|k: u128| old(heads1)@.dom().contains(k) ==> (#[trigger] old(heads1)@[k]) < old(el)@.len(),
        forall|k: u128| old(heads2)@.dom().contains(k) ==> (#[trigger] old(heads2)@[k]) < old(el)@.len(),
        lines_contained(old(el)@, pts@),
    ensures
        final(el)@.len() == old(el)@.len(),
        final(heads)@.len() == old(heads)@.len(),
        final(tails)@.len() == old(tails)@.len(),
        forall|k: u128| final(heads1)@.dom().contains(k) ==> (#[trigger] final(heads1)@[k]) < final(el)@.len(),
        forall|k: u128| final(heads2)@.dom().contains(k) ==> (#[trigger] final(heads2)@[k]) < final(el)@.len(),
        lines_contained(final(el)@, pts@),
        final(el)@[l as int]@.len() > 0,
        count_active(final(el)@, 0) < count_active(old(el)@, 0),
        total_points(final(el)@, 0) == total_points(old(el)@, 0),
{
    let ghost el0 = el@;
    let tail_l = tails[l];
    let head_l = heads[l];
    let tail_j = tails[to_join];
    let head_j = heads[to_join];

    // pull both lines out to work on them
    let mut line_l: Vec<(u64, u64)> = Vec::new();
    let mut line_j: Vec<(u64, u64)> = Vec::new();
    el.set_and_swap(l, &mut line_l);
    el.set_and_swap(to_join, &mut line_j);

    let tl_hj = keys_equal(tail_l, head_j);
    let tl_tj = keys_equal(tail_l, tail_j);
    let hl_hj = keys_equal(head_l, head_j);
    if tl_hj || tl_tj {
        // continue forward off our tail
        let freed = end_key(tail_l);
        heads1.insert(freed, 0);
        heads2.insert(freed, 0);
        extend_points(&mut line_l, &line_j, tl_tj && !tl_hj);
        let new_tail = if tl_hj {
            tail_j
        } else {
            head_j
        };
        tails.set(l, new_tail);
    } else {
        // continue backward off our head
        let freed = end_key(head_l);
        heads1.insert(freed, 0);
        heads2.insert(freed, 0);
        let mut joined: Vec<(u64, u64)> = Vec::new();
        let prepend_reversed = hl_hj;
        extend_points(&mut joined, &line_j, prepend_reversed);
        extend_points(&mut joined, &line_l, false);
        line_l = joined;
        let new_head = if prepend_reversed {
            tail_j
        } else {
            head_j
        };
        heads.set(l, new_head);
    }

    let empty: Vec<(u64, u64)> = Vec::new();
    el.set(l, line_l);
    el.set(to_join, empty);

    proof {
        // the consumed line goes quiet while ours stays loud, so the
        // number of loud lines drops
        let after_l = el0.update(l as int, el@[l as int]);
        lemma_count_update(el0, l as int, el@[l as int], 0);
        lemma_count_update(after_l, to_join as int, el@[to_join as int], 0);
        lemma_total_update(el0, l as int, el@[l as int], 0);
        lemma_total_update(after_l, to_join as int, el@[to_join as int], 0);
        assert(el@ =~= after_l.update(to_join as int, el@[to_join as int]));
        assert(el@[l as int]@.len() > 0);
        assert(el@[to_join as int]@.len() == 0);
        assert forall|li: int, p: int|
            0 <= li < el@.len() && 0 <= p < el@[li]@.len() implies pts@.contains(
            #[trigger] el@[li]@[p],
        ) by {
        }
    }
}

} // verus!
