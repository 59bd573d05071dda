//! Star tracker: keeps a fixed number of slots, each following one star
//! from frame to frame.
use vstd::prelude::*;

use crate::frame::detector::Coord;

verus! {

/// Gating radius, in thousandths of a pixel: the largest displacement
/// between two frames for which a detection still continues a track.
pub const GATING_RADIUS: u64 = 5000;

/// Squared Euclidean distance between two points.
pub open spec fn dist2(a: Coord, b: Coord) -> int {
    (a.x - b.x) * (a.x - b.x) + (a.y - b.y) * (a.y - b.y)
}

/// Squared Euclidean distance between two points.
pub fn distance2(a: Coord, b: Coord) -> (d: u128)
    ensures
        d == dist2(a, b),
{
    let dx: u128 = if a.x >= b.x {
        (a.x - b.x) as u128
    } else {
        (b.x - a.x) as u128
    };
    let dy: u128 = if a.y >= b.y {
        (a.y - b.y) as u128
    } else {
        (b.y - a.y) as u128
    };
    proof {
        assert(dx * dx <= 0xffff_ffff * 0xffff_ffff) by (nonlinear_arith)
            requires
                dx <= 0xffff_ffff,
        ;
        assert(dy * dy <= 0xffff_ffff * 0xffff_ffff) by (nonlinear_arith)
            requires
                dy <= 0xffff_ffff,
        ;
        assert((a.x - b.x) * (a.x - b.x) == dx * dx) by (nonlinear_arith)
            requires
                dx == a.x - b.x || dx == b.x - a.x,
        ;
        assert((a.y - b.y) * (a.y - b.y) == dy * dy) by (nonlinear_arith)
            requires
                dy == a.y - b.y || dy == b.y - a.y,
        ;
    }
    dx * dx + dy * dy
}

/// One tracker slot.
#[derive(Debug, Clone, Copy, PartialEq, Eq, Structural)]
pub struct Star {
    /// Current position, in thousandths of a pixel
    pub xy: Coord,
    /// Epoch of the current position
    pub t: i64,
    /// Previous position
    pub past_xy: Coord,
    /// Epoch of the previous position
    pub past_t: i64,
    /// Whether the slot follows a star
    pub acquired: bool,
}

/// Slot `s` took the detection at `xy` at epoch `t`, having been `o`.
pub open spec fn took(s: Star, o: Star, xy: Coord, t: i64) -> bool {
    s == (Star { xy, t, past_xy: o.xy, past_t: o.t, acquired: true })
}

/// Slot `s` is `o` left without a star: its fixes are kept.
pub open spec fn lost(s: Star, o: Star) -> bool {
    s == (Star { acquired: false, ..o })
}

/// Slot `s`, formerly `o`, after an update with `dets` at epoch `t`:
/// it either took one of the detections or lost its star.
pub open spec fn settled(s: Star, o: Star, dets: Seq<Coord>, t: i64) -> bool {
    (s.acquired && took(s, o, s.xy, t) && dets.contains(s.xy)) || (!s.acquired && lost(s, o))
}

/// Some slot of `stars` follows a star at `c`.
pub open spec fn holds(stars: Seq<Star>, c: Coord) -> bool {
    exists|k: int| 0 <= k < stars.len() && stars[k].acquired && stars[k].xy == c
}

/// Some slot of `stars` follows no star.
pub open spec fn has_free_slot(stars: Seq<Star>) -> bool {
    exists|k: int| 0 <= k < stars.len() && !stars[k].acquired
}

/// `new` is what an update of the slots `old` with the detections `dets`,
/// made at epoch `t`, may give: each slot took a detection or lost its
/// star; a slot that followed a star moved beyond the gating radius, or lost
/// its star, only if every detection within the radius was taken by an
/// earlier slot; no detection is dropped while a slot is free; no two
/// slots hold the same detection; and a slot that took a detection took the
/// nearest one to its former position that no other slot holds.
pub open spec fn updated(old: Seq<Star>, new: Seq<Star>, dets: Seq<Coord>, t: i64) -> bool {
    &&& new.len() == old.len()
    &&& forall|k: int| 0 <= k < old.len() ==> settled(#[trigger] new[k], old[k], dets, t)
    &&& forall|k: int|
        0 <= k < old.len() && old[k].acquired && new[k].acquired && dist2(old[k].xy, new[k].xy)
            > GATING_RADIUS * GATING_RADIUS ==> forall|j: int|
            0 <= j < dets.len() ==> dist2(old[k].xy, dets[j]) > GATING_RADIUS * GATING_RADIUS
                || exists|i: int| 0 <= i < k && old[i].acquired && new[i].acquired && new[i].xy == dets[j]
    &&& forall|k: int|
        0 <= k < old.len() && old[k].acquired && !new[k].acquired ==> forall|j: int|
            0 <= j < dets.len() ==> dist2(old[k].xy, dets[j]) > GATING_RADIUS * GATING_RADIUS
                || exists|i: int| 0 <= i < k && old[i].acquired && new[i].acquired && new[i].xy == dets[j]
    &&& has_free_slot(new) ==> forall|j: int|
        0 <= j < dets.len() ==> holds(new, #[trigger] dets[j])
    &&& exists|a: Seq<int>| #[trigger] bound_to(new, dets, a)
    &&& forall|k: int, j: int|
        0 <= k < old.len() && new[k].acquired && 0 <= j < dets.len() && dist2(old[k].xy, dets[j])
            < dist2(old[k].xy, new[k].xy) ==> #[trigger] held_by_other(new, k, dets[j])
}

/// A slot of `new` other than `k` follows a star at `c`.
pub open spec fn held_by_other(new: Seq<Star>, k: int, c: Coord) -> bool {
    exists|i: int| 0 <= i < new.len() && i != k && new[i].acquired && new[i].xy == c
}

/// `a` names, for each slot of `new` that follows a star, the detection of
/// `dets` it holds; no two slots hold the same detection.
pub open spec fn bound_to(new: Seq<Star>, dets: Seq<Coord>, a: Seq<int>) -> bool {
    &&& a.len() == new.len()
    &&& forall|k: int|
        0 <= k < new.len() && new[k].acquired ==> 0 <= a[k] < dets.len() && dets[a[k]]
            == new[k].xy
    &&& forall|k1: int, k2: int|
        0 <= k1 < new.len() && 0 <= k2 < new.len() && k1 != k2 && new[k1].acquired
            && new[k2].acquired ==> a[k1] != a[k2]
}

/// Number of slots that follow a star.
pub open spec fn count_acquired(s: Seq<Star>) -> nat
    decreases s.len(),
{
    if s.len() == 0 {
        0
    } else {
        count_acquired(s.drop_last()) + if s.last().acquired {
            1nat
        } else {
            0nat
        }
    }
}

/// Index of the unused detection nearest to `c` (the first one among
/// equals), within squared distance `limit` if one is given.
fn nearest(c: Coord, dets: &Vec<Coord>, used: &Vec<bool>, limit: Option<u128>) -> (r: Option<
    usize,
>)
    requires
        used@.len() == dets@.len(),
    ensures
        r matches Some(d) ==> d < dets@.len() && !used@[d as int] && (limit matches Some(g)
            ==> dist2(c, dets@[d as int]) <= g) && forall|e: int|
            0 <= e < dets@.len() && !used@[e] ==> dist2(c, dets@[d as int]) <= dist2(
                c,
                dets@[e],
            ),
        r is None ==> forall|e: int|
            0 <= e < dets@.len() ==> used@[e] || (limit matches Some(g) && dist2(c, dets@[e])
                > g),
{
    let mut best: Option<usize> = None;
    let mut best_d: u128 = 0;
    let mut e: usize = 0;
    while e < dets.len()
        invariant
            e <= dets@.len() == used@.len(),
            best matches Some(d) ==> d < e && !used@[d as int] && best_d == dist2(
                c,
                dets@[d as int],
            ) && (limit matches Some(g) ==> best_d <= g),
            best matches Some(d) ==> forall|f: int|
                0 <= f < e && !used@[f] ==> best_d <= dist2(c, dets@[f]),
            best is None ==> forall|f: int|
                0 <= f < e ==> used@[f] || (limit matches Some(g) && dist2(c, dets@[f]) > g),
        decreases dets@.len() - e,
    {
        if !used[e] {
            let d = distance2(c, dets[e]);
            let within = match limit {
                Some(g) => d <= g,
                None => true,
            };
            if within {
                match best {
                    Some(_) => {
                        if d < best_d {
                            best = Some(e);
                            best_d = d;
                        }
                    },
                    None => {
                        best = Some(e);
                        best_d = d;
                    },
                }
            }
        }
        e = e + 1;
    }
    best
}

/// Star [Tracker] following up to as many stars as it has slots.
pub struct Tracker {
    pub stars: Vec<Star>,
}

impl Tracker {
    /// A tracker of `n` slots, none of which follows a star yet.
    pub fn new(n: usize) -> (r: Self)
        ensures
            r.stars@.len() == n,
            forall|k: int| 0 <= k < n ==> !r.stars@[k].acquired,
    {
        let mut stars: Vec<Star> = Vec::new();
        let origin = Coord { x: 0, y: 0 };
        let mut i: usize = 0;
        while i < n
            invariant
                stars@.len() == i <= n,
                forall|k: int| 0 <= k < i ==> !stars@[k].acquired,
            decreases n - i,
        {
            stars.push(Star { xy: origin, t: 0, past_xy: origin, past_t: 0, acquired: false });
            i = i + 1;
        }
        Tracker { stars }
    }

    /// Number of slots that currently follow a star.
    pub fn acquired_count(&self) -> (c: usize)
        ensures
            c == count_acquired(self.stars@),
    {
        let mut c: usize = 0;
        let mut i: usize = 0;
        while i < self.stars.len()
            invariant
                i <= self.stars@.len(),
                c == count_acquired(self.stars@.take(i as int)),
                c <= i,
            decreases self.stars@.len() - i,
        {
            assert(self.stars@.take(i + 1).drop_last() == self.stars@.take(i as int));
            if self.stars[i].acquired {
                c = c + 1;
            }
            i = i + 1;
        }
        assert(self.stars@.take(i as int) == self.stars@);
        c
    }

    /// Associates `detections`, made at epoch `t`, with the slots.
    ///
    /// First each slot that follows a star takes the nearest unused
    /// detection within the gating radius, or loses its star when there is
    /// none. Then each slot without a star takes the nearest unused
    /// detection, at any distance. Ties go to the earlier detection; slots
    /// are served in order; detections left over are dropped.
    pub fn update(&mut self, detections: &Vec<Coord>, t: i64)
        ensures
            updated(old(self).stars@, final(self).stars@, detections@, t),
    {
        let ghost orig = self.stars@;
        let n = self.stars.len();
        let m = detections.len();
        let mut used: Vec<bool> = Vec::new();
        let mut j: usize = 0;
        while j < m
            invariant
                used@.len() == j <= m == detections@.len(),
                forall|d: int| 0 <= d < j ==> !used@[d],
            decreases m - j,
        {
            used.push(false);
            j = j + 1;
        }
        let ghost mut owner: Seq<int> = Seq::new(m as nat, |d: int| 0);
        let ghost mut assign: Seq<int> = Seq::new(n as nat, |k: int| 0);
        let gate = (GATING_RADIUS as u128) * (GATING_RADIUS as u128);
        let mut k: usize = 0;
        while k < n
            invariant
                n == self.stars@.len() == orig.len(),
                m == detections@.len() == used@.len() == owner.len(),
                k <= n,
                gate == GATING_RADIUS * GATING_RADIUS,
                forall|i: int| k <= i < n ==> self.stars@[i] == orig[i],
                forall|i: int| 0 <= i < k ==> settled(#[trigger] self.stars@[i], orig[i], detections@, t),
                forall|d: int|
                    0 <= d < m && used@[d] ==> 0 <= owner[d] < k && self.stars@[owner[d]].acquired
                        && self.stars@[owner[d]].xy == detections@[d] && orig[owner[d]].acquired,
                assign.len() == n,
                forall|i: int|
                    0 <= i < k && self.stars@[i].acquired ==> 0 <= assign[i] < m && used@[assign[i]]
                        && owner[assign[i]] == i,
                forall|i: int, e: int|
                    0 <= i < k && self.stars@[i].acquired && 0 <= e < m && #[trigger] dist2(orig[i].xy, detections@[e])
                        < dist2(orig[i].xy, self.stars@[i].xy) ==> used@[e],
                forall|i: int|
                    0 <= i < k && orig[i].acquired && self.stars@[i].acquired ==> dist2(
                        orig[i].xy,
                        self.stars@[i].xy,
                    ) <= gate,
                forall|i: int|
                    0 <= i < k && orig[i].acquired && !self.stars@[i].acquired ==> forall|e: int|
                        0 <= e < m ==> dist2(orig[i].xy, detections@[e]) > gate || exists|p: int|
                            0 <= p < i && orig[p].acquired && self.stars@[p].acquired && self.stars@[p].xy
                                == detections@[e],
            decreases n - k,
        {
            let ghost prev = self.stars@;
            let s = self.stars[k];
            if s.acquired {
                let ghost used_before = used@;
                match nearest(s.xy, detections, &used, Some(gate)) {
                    Some(d) => {
                        self.stars.set(
                            k,
                            Star {
                                xy: detections[d],
                                t,
                                past_xy: s.xy,
                                past_t: s.t,
                                acquired: true,
                            },
                        );
                        used.set(d, true);
                        proof {
                            owner = owner.update(d as int, k as int);
                            assign = assign.update(k as int, d as int);
                            assert(detections@[d as int] == self.stars@[k as int].xy);
                        }
                    },
                    None => {
                        self.stars.set(k, Star { acquired: false, ..s });
                        proof {
                            assert forall|e: int| 0 <= e < m implies dist2(orig[k as int].xy, detections@[e]) > gate
                                || exists|p: int|
                                0 <= p < k && self.stars@[p].acquired && self.stars@[p].xy
                                    == detections@[e] by {
                                if used@[e] {
                                    let p = owner[e];
                                    assert(0 <= p < k && self.stars@[p].acquired);
                                    assert(self.stars@[p].xy == detections@[e]);
                                }
                            }
                        }
                    },
                }
            } else {
                self.stars.set(k, Star { acquired: false, ..s });
            }
            proof {
                assert(forall|i: int| 0 <= i < n && i != k ==> self.stars@[i] == prev[i]);
                assert forall|i: int| 0 <= i < k + 1 implies settled(#[trigger] self.stars@[i], orig[i], detections@, t) by {
                    if i < k {
                        assert(self.stars@[i] == prev[i]);
                    }
                }
                assert forall|i: int|
                    0 <= i < k + 1 && orig[i].acquired && !self.stars@[i].acquired implies forall|e: int|
                        0 <= e < m ==> dist2(orig[i].xy, detections@[e]) > gate || exists|p: int|
                            0 <= p < i && orig[p].acquired && self.stars@[p].acquired && self.stars@[p].xy
                                == detections@[e] by {
                    if i < k {
                        assert(self.stars@[i] == prev[i]);
                        assert forall|e: int| 0 <= e < m implies dist2(orig[i].xy, detections@[e]) > gate || exists|p: int|
                            0 <= p < i && orig[p].acquired && self.stars@[p].acquired && self.stars@[p].xy
                                == detections@[e] by {
                            if dist2(orig[i].xy, detections@[e]) <= gate {
                                let p = choose|p: int| 0 <= p < i && prev[p].acquired && prev[p].xy
                                    == detections@[e];
                                assert(self.stars@[p] == prev[p]);
                            }
                        }
                    }
                }
            }
            k = k + 1;
        }
        let ghost mid = self.stars@;
        let mut k: usize = 0;
        while k < n
            invariant
                n == self.stars@.len() == orig.len() == mid.len(),
                m == detections@.len() == used@.len() == owner.len(),
                k <= n,
                forall|i: int| k <= i < n ==> self.stars@[i] == mid[i],
                forall|i: int| 0 <= i < k && mid[i].acquired ==> self.stars@[i] == mid[i],
                forall|i: int| 0 <= i < n ==> settled(#[trigger] mid[i], orig[i], detections@, t),
                forall|i: int| 0 <= i < k ==> settled(#[trigger] self.stars@[i], orig[i], detections@, t),
                forall|d: int|
                    0 <= d < m && used@[d] ==> 0 <= owner[d] < n && self.stars@[owner[d]].acquired
                        && self.stars@[owner[d]].xy == detections@[d],
                assign.len() == n,
                forall|i: int|
                    0 <= i < n && self.stars@[i].acquired ==> 0 <= assign[i] < m && used@[assign[i]]
                        && owner[assign[i]] == i,
                forall|i: int, e: int|
                    0 <= i < n && self.stars@[i].acquired && 0 <= e < m && #[trigger] dist2(orig[i].xy, detections@[e])
                        < dist2(orig[i].xy, self.stars@[i].xy) ==> used@[e],
                forall|i: int| 0 <= i < k && !self.stars@[i].acquired ==> forall|d: int|
                    0 <= d < m ==> used@[d],
            decreases n - k,
        {
            let ghost prev = self.stars@;
            let ghost prev_used = used@;
            let s = self.stars[k];
            if !s.acquired {
                match nearest(s.xy, detections, &used, None) {
                    Some(d) => {
                        self.stars.set(
                            k,
                            Star {
                                xy: detections[d],
                                t,
                                past_xy: s.xy,
                                past_t: s.t,
                                acquired: true,
                            },
                        );
                        used.set(d, true);
                        proof {
                            owner = owner.update(d as int, k as int);
                            assign = assign.update(k as int, d as int);
                            assert(detections@[d as int] == self.stars@[k as int].xy);
                        }
                    },
                    None => {},
                }
            }
            proof {
                assert(forall|i: int| 0 <= i < n && i != k ==> self.stars@[i] == prev[i]);
                assert forall|i: int| 0 <= i < k + 1 implies settled(
                    #[trigger] self.stars@[i],
                    orig[i],
                    detections@,
                    t,
                ) by {
                    if i < k {
                        assert(self.stars@[i] == prev[i]);
                    } else {
                        assert(settled(mid[i], orig[i], detections@, t));
                    }
                }
                assert forall|i: int| 0 <= i < k + 1 && !self.stars@[i].acquired implies forall|
                    d: int,
                | 0 <= d < m ==> used@[d] by {
                    if i < k {
                        assert(self.stars@[i] == prev[i]);
                        assert(forall|d: int| 0 <= d < m ==> prev_used[d]);
                    }
                }
            }
            k = k + 1;
        }
        proof {
            assert forall|k1: int, k2: int|
                0 <= k1 < n && 0 <= k2 < n && k1 != k2 && self.stars@[k1].acquired
                    && self.stars@[k2].acquired implies assign[k1] != assign[k2] by {
                if assign[k1] == assign[k2] {
                    assert(owner[assign[k1]] == k1);
                }
            }
            assert forall|k: int| 0 <= k < n && self.stars@[k].acquired implies 0 <= assign[k] < m
                && detections@[assign[k]] == self.stars@[k].xy by {
                assert(used@[assign[k]]);
            }
            assert(bound_to(self.stars@, detections@, assign));
            assert forall|k: int| 0 <= k < n && orig[k].acquired && !self.stars@[k].acquired implies forall|
                j: int,
            |
                0 <= j < m ==> dist2(orig[k].xy, detections@[j]) > GATING_RADIUS * GATING_RADIUS
                    || exists|i: int|
                    0 <= i < k && orig[i].acquired && self.stars@[i].acquired && self.stars@[i].xy == detections@[j] by {
                assert(!mid[k].acquired);
                assert forall|j: int| 0 <= j < m implies dist2(orig[k].xy, detections@[j])
                    > GATING_RADIUS * GATING_RADIUS || exists|i: int|
                    0 <= i < k && orig[i].acquired && self.stars@[i].acquired && self.stars@[i].xy == detections@[j] by {
                    if dist2(orig[k].xy, detections@[j]) <= GATING_RADIUS * GATING_RADIUS {
                        let i = choose|i: int|
                            0 <= i < k && orig[i].acquired && mid[i].acquired && mid[i].xy == detections@[j];
                        assert(self.stars@[i] == mid[i]);
                    }
                }
            }
            assert(forall|k: int| 0 <= k < n ==> settled(
                #[trigger] self.stars@[k],
                orig[k],
                detections@,
                t,
            ));
            if has_free_slot(self.stars@) {
                let k0 = choose|k: int| 0 <= k < n && !self.stars@[k].acquired;
                assert forall|j: int| 0 <= j < m implies holds(self.stars@, #[trigger] detections@[j]) by {
                    assert(used@[j]);
                    let o = owner[j];
                    assert(self.stars@[o].acquired && self.stars@[o].xy == detections@[j]);
                }
            }
        }
    }
}

/// A tracker following one star, updated with its position `pos0` at epoch
/// `t0` and then with `pos1` at a later epoch `t1`, holds (`pos0`, `t0`) as its
/// previous fix and (`pos1`, `t1`) as its current one.
pub proof fn lemma_two_updates(
    s0: Seq<Star>,
    s1: Seq<Star>,
    s2: Seq<Star>,
    pos0: Coord,
    t0: i64,
    pos1: Coord,
    t1: i64,
)
    requires
        s0.len() == 1,
        t0 < t1,
        updated(s0, s1, seq![pos0], t0),
        updated(s1, s2, seq![pos1], t1),
    ensures
        s2[0].acquired,
        s2[0].past_xy == pos0 && s2[0].past_t == t0,
        s2[0].xy == pos1 && s2[0].t == t1,
        s2[0].past_t < s2[0].t,
{
    assert(settled(s1[0], s0[0], seq![pos0], t0));
    if !s1[0].acquired {
        assert(has_free_slot(s1));
        assert(holds(s1, seq![pos0][0]));
    }
    assert(settled(s2[0], s1[0], seq![pos1], t1));
    if !s2[0].acquired {
        assert(has_free_slot(s2));
        assert(holds(s2, seq![pos1][0]));
    }
}

/// A tracker with no star yet, updated with one star's position `pos0` at
/// epoch `t0` and then with its position `pos1`, within the gating radius,
/// at a later epoch `t1`: the slot that took `pos0` holds (`pos0`, `t0`) as
/// its previous fix and (`pos1`, `t1`) as its current one.
pub proof fn lemma_two_updates_gated(
    s0: Seq<Star>,
    s1: Seq<Star>,
    s2: Seq<Star>,
    pos0: Coord,
    t0: i64,
    pos1: Coord,
    t1: i64,
)
    requires
        s0.len() >= 1,
        forall|k: int| 0 <= k < s0.len() ==> !s0[k].acquired,
        t0 < t1,
        dist2(pos0, pos1) <= GATING_RADIUS * GATING_RADIUS,
        updated(s0, s1, seq![pos0], t0),
        updated(s1, s2, seq![pos1], t1),
    ensures
        exists|i: int|
            0 <= i < s2.len() && s1[i].acquired && s1[i].xy == pos0 && #[trigger] s2[i] == (Star {
                xy: pos1,
                t: t1,
                past_xy: pos0,
                past_t: t0,
                acquired: true,
            }),
{
    let d0 = seq![pos0];
    let d1 = seq![pos1];
    let i0: int = if has_free_slot(s1) {
        assert(holds(s1, d0[0]));
        choose|k: int| 0 <= k < s1.len() && s1[k].acquired && s1[k].xy == d0[0]
    } else {
        assert(s1[0].acquired);
        assert(settled(s1[0], s0[0], d0, t0));
        0
    };
    assert(settled(s1[i0], s0[i0], d0, t0));
    assert(s1[i0].xy == pos0 && s1[i0].t == t0);
    assert(settled(s2[i0], s1[i0], d1, t1));
    if !s2[i0].acquired {
        assert(dist2(s1[i0].xy, d1[0]) <= GATING_RADIUS * GATING_RADIUS);
        let i = choose|i: int|
            0 <= i < i0 && s1[i].acquired && s2[i].acquired && s2[i].xy == d1[0];
        let a = choose|a: Seq<int>| bound_to(s1, d0, a);
        assert(a[i] == 0 && a[i0] == 0);
    }
    assert(s2[i0].xy == pos1);
}

} // verus!
