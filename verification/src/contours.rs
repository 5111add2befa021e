//! Polyline assembly for the contour extractor.
//!
//! The cell walk of the contour extractor emits line segments whose
//! endpoints are quantised to centi-units, so a segment is four
//! integers. Each segment becomes two half-edges keyed on its
//! endpoints, with two slots per endpoint; assembly walks from any
//! recorded half-edge, consuming paired half-edges until it hits a
//! dead end, and emits one polyline per walk. A thinning rule then
//! drops even-indexed interior points of long lines.

use std::collections::HashMap;

use vstd::prelude::*;

verus! {

/// The map key of a quantised endpoint: the two halves sit in
/// disjoint bit ranges, so distinct endpoints get distinct keys.
pub open spec fn spec_endpoint_key(x: i64, y: i64) -> u128 {
    ((x as u64 as u128) << 64) | (y as u64 as u128)
}

/// Pack a quantised endpoint into its map key.
pub fn endpoint_key(x: i64, y: i64) -> (r: u128)
    ensures
        r == spec_endpoint_key(x, y),
{
    ((x as u64 as u128) << 64) | (y as u64 as u128)
}

/// Whether every half-edge target recorded in a slot map is a known
/// endpoint.
pub open spec fn slot_map_ok(m: Map<u128, (i64, i64)>, endpoints: Set<(i64, i64)>) -> bool {
    forall|k: u128| m.dom().contains(k) ==> endpoints.contains(#[trigger] m[k])
}

/// Collects the segments of one contour level as half-edges and walks
/// them into polylines.
pub struct ContourAssembler {
    obj: Vec<(i64, i64, u8)>,
    curves1: HashMap<u128, (i64, i64)>,
    curves2: HashMap<u128, (i64, i64)>,
    remaining: usize,
    endpoints: Ghost<Set<(i64, i64)>>,
}

impl ContourAssembler {
    /// The endpoints of all segments added so far.
    pub closed spec fn spec_endpoints(self) -> Set<(i64, i64)> {
        self.endpoints@
    }

    /// How many half-edges are stored.
    pub closed spec fn spec_edge_count(self) -> nat {
        self.curves1@.len() + self.curves2@.len()
    }

    /// The slot maps target known endpoints, the walk list names known
    /// endpoints and mirrors the stored half-edges one for one, and
    /// the edge budget counts them.
    pub closed spec fn wf(self) -> bool {
        &&& slot_map_ok(self.curves1@, self.endpoints@)
        &&& slot_map_ok(self.curves2@, self.endpoints@)
        &&& forall|i: int|
            0 <= i < self.obj@.len() ==> self.endpoints@.contains(
                (#[trigger] self.obj@[i].0, self.obj@[i].1),
            )
        &&& forall|i: int|
            0 <= i < self.obj@.len() ==> ((#[trigger] self.obj@[i]).2 == 1 ==> self.curves1@.dom().contains(
                spec_endpoint_key(self.obj@[i].0, self.obj@[i].1),
            )) && (self.obj@[i].2 != 1 ==> self.curves2@.dom().contains(
                spec_endpoint_key(self.obj@[i].0, self.obj@[i].1),
            ))
        &&& self.obj@.len() == self.remaining
        &&& self.remaining == self.curves1@.len() + self.curves2@.len()
    }

    /// An assembler with no segments.
    pub fn new() -> (r: Self)
        ensures
            r.wf(),
            r.spec_endpoints() == Set::<(i64, i64)>::empty(),
            r.spec_edge_count() == 0,
    {
        ContourAssembler {
            obj: Vec::new(),
            curves1: HashMap::new(),
            curves2: HashMap::new(),
            remaining: 0,
            endpoints: Ghost(Set::empty()),
        }
    }

    /// Record one emitted segment as two half-edges, one from each
    /// endpoint. A degenerate segment (both quantised endpoints the
    /// same) is dropped. An endpoint already carrying two half-edges
    /// takes no further ones: a third edge at one endpoint is dropped
    /// rather than overwriting the second slot, so the earlier
    /// topology stays; either way one of the three edges is not kept.
    pub fn add_segment(&mut self, x1: i64, y1: i64, x2: i64, y2: i64)
        requires
            old(self).wf(),
        ensures
            final(self).wf(),
            final(self).spec_endpoints() == if x1 == x2 && y1 == y2 {
                old(self).spec_endpoints()
            } else {
                old(self).spec_endpoints().insert((x1, y1)).insert((x2, y2))
            },
            final(self).spec_edge_count() >= old(self).spec_edge_count(),
            x1 == x2 && y1 == y2 ==> final(self).spec_edge_count() == old(self).spec_edge_count(),
            !(x1 == x2 && y1 == y2) && old(self).spec_edge_count() == 0
                ==> final(self).spec_edge_count() >= 1,
    {
        if x1 == x2 && y1 == y2 {
            return ;
        }
        proof {
            self.endpoints@ = self.endpoints@.insert((x1, y1)).insert((x2, y2));
        }
        self.add_half_edge(x1, y1, (x2, y2));
        self.add_half_edge(x2, y2, (x1, y1));
    }

    /// Record one half-edge out of `(x, y)`: into slot 1 when free,
    /// else into slot 2 when free, else nowhere.
    fn add_half_edge(&mut self, x: i64, y: i64, target: (i64, i64))
        requires
            slot_map_ok(old(self).curves1@, old(self).endpoints@),
            slot_map_ok(old(self).curves2@, old(self).endpoints@),
            forall|i: int|
                0 <= i < old(self).obj@.len() ==> old(self).endpoints@.contains(
                    (#[trigger] old(self).obj@[i].0, old(self).obj@[i].1),
                ),
            forall|i: int|
                0 <= i < old(self).obj@.len() ==> ((#[trigger] old(self).obj@[i]).2 == 1 ==> old(
                    self,
                ).curves1@.dom().contains(
                    spec_endpoint_key(old(self).obj@[i].0, old(self).obj@[i].1),
                )) && (old(self).obj@[i].2 != 1 ==> old(self).curves2@.dom().contains(
                    spec_endpoint_key(old(self).obj@[i].0, old(self).obj@[i].1),
                )),
            old(self).obj@.len() == old(self).remaining,
            old(self).remaining == old(self).curves1@.len() + old(self).curves2@.len(),
            old(self).endpoints@.contains((x, y)),
            old(self).endpoints@.contains(target),
        ensures
            final(self).wf(),
            final(self).endpoints@ == old(self).endpoints@,
            final(self).spec_edge_count() >= old(self).spec_edge_count(),
            old(self).spec_edge_count() == 0 && old(self).remaining < usize::MAX
                ==> final(self).spec_edge_count() >= 1,
    {
        let k = endpoint_key(x, y);
        if !self.curves1.contains_key(&k) {
            if self.remaining < usize::MAX {
                self.curves1.insert(k, target);
                self.obj.push((x, y, 1));
                self.remaining = self.remaining + 1;
                proof {
                    vstd::std_specs::hash::axiom_hashmap_view_finite_dom(self.curves1);
                }
            }
        } else if !self.curves2.contains_key(&k) {
            if self.remaining < usize::MAX {
                self.curves2.insert(k, target);
                self.obj.push((x, y, 2));
                self.remaining = self.remaining + 1;
                proof {
                    vstd::std_specs::hash::axiom_hashmap_view_finite_dom(self.curves2);
                }
            }
        }
    }

    /// Walk the half-edges into polylines. Every polyline has at least
    /// two vertices, and every vertex is an endpoint of some added
    /// segment; polylines come out exactly when half-edges went in.
    pub fn assemble(self) -> (r: Vec<Vec<(i64, i64)>>)
        requires
            self.wf(),
        ensures
            forall|i: int|
                0 <= i < r@.len() ==> {
                    &&& (#[trigger] r@[i])@.len() >= 2
                    &&& forall|j: int|
                        0 <= j < r@[i]@.len() ==> self.spec_endpoints().contains(
                            #[trigger] r@[i]@[j],
                        )
                },
            (r@.len() == 0) == (self.spec_edge_count() == 0),
    {
        let ContourAssembler { obj, mut curves1, mut curves2, mut remaining, endpoints } = self;
        let ghost allowed = endpoints@;
        let ghost c10 = curves1@;
        let ghost c20 = curves2@;
        let mut polylines: Vec<Vec<(i64, i64)>> = Vec::new();
        let n = obj.len();
        let mut idx: usize = 0;
        while idx < n
            invariant
                n == obj@.len(),
                idx <= n,
                slot_map_ok(curves1@, allowed),
                slot_map_ok(curves2@, allowed),
                forall|i: int|
                    0 <= i < obj@.len() ==> allowed.contains((#[trigger] obj@[i].0, obj@[i].1)),
                forall|i: int|
                    0 <= i < obj@.len() ==> ((#[trigger] obj@[i]).2 == 1 ==> c10.dom().contains(
                        spec_endpoint_key(obj@[i].0, obj@[i].1),
                    )) && (obj@[i].2 != 1 ==> c20.dom().contains(
                        spec_endpoint_key(obj@[i].0, obj@[i].1),
                    )),
                remaining == curves1@.len() + curves2@.len(),
                // while nothing came out, nothing was consumed, so the
                // first stored half-edge still waits at its entry
                polylines@.len() == 0 ==> curves1@ == c10 && curves2@ == c20,
                idx > 0 && n > 0 ==> polylines@.len() >= 1,
                n == 0 ==> polylines@.len() == 0,
                forall|i: int|
                    0 <= i < polylines@.len() ==> {
                        &&& (#[trigger] polylines@[i])@.len() >= 2
                        &&& forall|j: int|
                            0 <= j < polylines@[i]@.len() ==> allowed.contains(
                                #[trigger] polylines@[i]@[j],
                            )
                    },
            decreases n - idx,
        {
            let (x, y, slot) = obj[idx];
            let k = endpoint_key(x, y);
            let start: Option<(i64, i64)> = if slot == 1 {
                match curves1.get(&k) {
                    Some(v) => Some(*v),
                    None => None,
                }
            } else {
                match curves2.get(&k) {
                    Some(v) => Some(*v),
                    None => None,
                }
            };
            match start {
                None => {},
                Some(first) => {
                    let mut polyline: Vec<(i64, i64)> = Vec::new();
                    polyline.push((x, y));
                    polyline.push(first);
                    if slot == 1 {
                        proof {
                            vstd::std_specs::hash::axiom_hashmap_view_finite_dom(curves1);
                            vstd::set::axiom_set_remove_len(curves1@.dom(), k);
                        }
                        curves1.remove(&k);
                    } else {
                        proof {
                            vstd::std_specs::hash::axiom_hashmap_view_finite_dom(curves2);
                            vstd::set::axiom_set_remove_len(curves2@.dom(), k);
                        }
                        curves2.remove(&k);
                    }
                    remaining = remaining - 1;
                    let mut res: (i64, i64) = (x, y);
                    let mut head: (i64, i64) = first;
                    prune_back_edges(&mut curves1, &mut curves2, &mut remaining, head, res);
                    loop
                        invariant
                            slot_map_ok(curves1@, allowed),
                            slot_map_ok(curves2@, allowed),
                            remaining == curves1@.len() + curves2@.len(),
                            allowed.contains(head),
                            polyline@.len() >= 2,
                            forall|j: int|
                                0 <= j < polyline@.len() ==> allowed.contains(
                                    #[trigger] polyline@[j],
                                ),
                        decreases remaining,
                    {
                        let kh = endpoint_key(head.0, head.1);
                        let step1: Option<(i64, i64)> = match curves1.get(&kh) {
                            Some(v) => Some(*v),
                            None => None,
                        };
                        let next: Option<(i64, i64, u8)> = match step1 {
                            Some(v) if !(v.0 == res.0 && v.1 == res.1) => Some((v.0, v.1, 1)),
                            _ => {
                                let step2: Option<(i64, i64)> = match curves2.get(&kh) {
                                    Some(v) => Some(*v),
                                    None => None,
                                };
                                match step2 {
                                    Some(v) if !(v.0 == res.0 && v.1 == res.1) => Some(
                                        (v.0, v.1, 2),
                                    ),
                                    _ => None,
                                }
                            },
                        };
                        match next {
                            None => {
                                break ;
                            },
                            Some((vx, vy, vslot)) => {
                                res = head;
                                polyline.push((vx, vy));
                                if vslot == 1 {
                                    proof {
                                        vstd::std_specs::hash::axiom_hashmap_view_finite_dom(
                                            curves1,
                                        );
                                        vstd::set::axiom_set_remove_len(curves1@.dom(), kh);
                                    }
                                    curves1.remove(&kh);
                                } else {
                                    proof {
                                        vstd::std_specs::hash::axiom_hashmap_view_finite_dom(
                                            curves2,
                                        );
                                        vstd::set::axiom_set_remove_len(curves2@.dom(), kh);
                                    }
                                    curves2.remove(&kh);
                                }
                                remaining = remaining - 1;
                                head = (vx, vy);
                                prune_back_edges(
                                    &mut curves1,
                                    &mut curves2,
                                    &mut remaining,
                                    head,
                                    res,
                                );
                            },
                        }
                    }
                    polylines.push(polyline);
                },
            }
            idx = idx + 1;
        }
        polylines
    }
}

/// Drop the half-edges out of `head` that lead straight back to
/// `res`: they were consumed by walking forward.
fn prune_back_edges(
    curves1: &mut HashMap<u128, (i64, i64)>,
    curves2: &mut HashMap<u128, (i64, i64)>,
    remaining: &mut usize,
    head: (i64, i64),
    res: (i64, i64),
)
    requires
        *old(remaining) == old(curves1)@.len() + old(curves2)@.len(),
    ensures
        *final(remaining) == final(curves1)@.len() + final(curves2)@.len(),
        *final(remaining) <= *old(remaining),
        final(curves1)@.dom().subset_of(old(curves1)@.dom()),
        final(curves2)@.dom().subset_of(old(curves2)@.dom()),
        forall|k: u128|
            final(curves1)@.dom().contains(k) ==> final(curves1)@[k] == old(curves1)@[k],
        forall|k: u128|
            final(curves2)@.dom().contains(k) ==> final(curves2)@[k] == old(curves2)@[k],
{
    let kh = endpoint_key(head.0, head.1);
    let drop1 = match curves1.get(&kh) {
        Some(v) => v.0 == res.0 && v.1 == res.1,
        None => false,
    };
    if drop1 {
        proof {
            vstd::std_specs::hash::axiom_hashmap_view_finite_dom(*curves1);
            vstd::set::axiom_set_remove_len(curves1@.dom(), kh);
        }
        curves1.remove(&kh);
        *remaining = *remaining - 1;
    }
    let drop2 = match curves2.get(&kh) {
        Some(v) => v.0 == res.0 && v.1 == res.1,
        None => false,
    };
    if drop2 {
        proof {
            vstd::std_specs::hash::axiom_hashmap_view_finite_dom(*curves2);
            vstd::set::axiom_set_remove_len(curves2@.dom(), kh);
        }
        curves2.remove(&kh);
        *remaining = *remaining - 1;
    }
    proof {
        assert(final(curves1)@.dom().subset_of(old(curves1)@.dom()));
        assert(final(curves2)@.dom().subset_of(old(curves2)@.dom()));
    }
}

/// Whether the thinning rule keeps the point at index `i` of a line
/// of length `len`: even positions strictly inside positions 5 and
/// `len - 6` of a line longer than 13 points are dropped.
pub open spec fn thin_keeps(i: int, len: int) -> bool {
    !(i + 1 > 5 && i + 1 < len - 6 && len - 1 > 12 && (i + 1) % 2 == 0)
}

/// The thinned tail of a line from index `i` on.
pub open spec fn thin_from(s: Seq<(i64, i64)>, i: int) -> Seq<(i64, i64)>
    decreases s.len() - i when 0 <= i <= s.len()
{
    if i == s.len() {
        Seq::<(i64, i64)>::empty()
    } else if thin_keeps(i, s.len() as int) {
        seq![s[i]] + thin_from(s, i + 1)
    } else {
        thin_from(s, i + 1)
    }
}

/// Thin a polyline: drop the even-indexed interior points of long
/// lines, as the extractor does before scaling to world coordinates.
pub fn thin_polyline(line: &Vec<(i64, i64)>) -> (r: Vec<(i64, i64)>)
    ensures
        r@ == thin_from(line@, 0),
{
    let n = line.len();
    let mut out: Vec<(i64, i64)> = Vec::new();
    let mut i: usize = 0;
    proof {
        assert(out@ + thin_from(line@, 0) =~= thin_from(line@, 0));
    }
    while i < n
        invariant
            n == line@.len(),
            i <= n,
            out@ + thin_from(line@, i as int) == thin_from(line@, 0),
        decreases n - i,
    {
        let ii = i + 1;
        let keep = !(n >= 14 && ii > 5 && ii < n - 6 && ii % 2 == 0);
        proof {
            assert(keep == thin_keeps(i as int, n as int));
        }
        let ghost prev = out@;
        if keep {
            out.push(line[i]);
            proof {
                assert(out@ + thin_from(line@, i + 1) =~= prev + thin_from(line@, i as int));
            }
        } else {
            proof {
                assert(thin_from(line@, i as int) == thin_from(line@, i + 1));
            }
        }
        i = i + 1;
    }
    proof {
        assert(thin_from(line@, n as int) =~= Seq::<(i64, i64)>::empty());
        assert(out@ =~= out@ + thin_from(line@, n as int));
    }
    out
}

} // verus!
