//! The fixed-volume triangulation engine: a cylindrical surface of triangles
//! stored in one arena and linked by two spacelike adjacencies (`left`,
//! `right`) within a time-slice and one timelike adjacency (`time`) across
//! slices. Local moves (edge flips and shard relocations) rewire the links in
//! place while preserving the structural invariants, and an incrementally
//! maintained set records which sites are eligible for relocation.

use vstd::arithmetic::div_mod::lemma_fundamental_div_mod_converse;
use vstd::prelude::*;

verus! {

/// Which way a triangle points; orientations alternate around a slice in a
/// freshly built flat universe.
#[derive(Clone, Copy, Debug, PartialEq, Eq, Structural)]
pub enum Orientation {
    Up,
    Down,
}

/// One triangle record: its orientation and the arena indices of its timelike
/// neighbour and its two spacelike neighbours.
#[derive(Clone, Copy, Debug, PartialEq, Eq, Structural)]
pub struct Triangle {
    pub orientation: Orientation,
    pub time: usize,
    pub left: usize,
    pub right: usize,
}

/// The triangulation: a dense arena of triangles plus the set of indices
/// currently eligible as the fixed endpoint of a shard relocation (sites of
/// coordination number four, labelled by their top-left triangle).
pub struct Universe {
    triangles: Vec<Triangle>,
    order_four: Vec<usize>,
}

impl Universe {
    /// The arena contents, as a sequence of triangle records.
    pub closed spec fn trs(self) -> Seq<Triangle> {
        self.triangles@
    }

    /// Whether index `m` is currently recorded as an order-four site.
    pub closed spec fn in_o4(self, m: usize) -> bool {
        self.order_four@.contains(m)
    }

    /// The raw member list backing the eligibility set.
    pub closed spec fn o4s(self) -> Seq<usize> {
        self.order_four@
    }

    /// The triangle record at index `i`.
    pub open spec fn tri(self, i: int) -> Triangle {
        self.trs()[i]
    }

    /// `i` is a valid arena index.
    pub open spec fn valid_idx(self, i: int) -> bool {
        0 <= i < self.trs().len()
    }

    /// The links of triangle `i` are in bounds and the spacelike ring is
    /// doubly linked at `i`: `right(left(i)) == i` and `left(right(i)) == i`.
    pub open spec fn links_ok_at(self, i: int) -> bool {
        &&& self.valid_idx(self.tri(i).left as int)
        &&& self.valid_idx(self.tri(i).right as int)
        &&& self.valid_idx(self.tri(i).time as int)
        &&& self.tri(self.tri(i).left as int).right as int == i
        &&& self.tri(self.tri(i).right as int).left as int == i
    }

    /// Spacelike rings are consistent doubly linked cycles and all links are
    /// in bounds.
    pub open spec fn wf_links(self) -> bool {
        forall|i: int| self.valid_idx(i) ==> #[trigger] self.links_ok_at(i)
    }

    /// The timelike pairing is symmetric at `i` and joins opposite
    /// orientations: `time(time(i)) == i`, and `time(i)` points the other way.
    pub open spec fn time_ok_at(self, i: int) -> bool {
        &&& self.tri(self.tri(i).time as int).time as int == i
        &&& self.tri(self.tri(i).time as int).orientation != self.tri(i).orientation
    }

    /// The timelike pairing is a symmetric, orientation-opposing matching.
    pub open spec fn wf_time(self) -> bool {
        forall|i: int| self.valid_idx(i) ==> #[trigger] self.time_ok_at(i)
    }

    /// The eligibility predicate: site `i` (by top-left triangle) has
    /// coordination number four, i.e. `i` and its right neighbour are both
    /// up triangles and the right neighbour of `i`'s timelike partner is the
    /// timelike partner of `i`'s right neighbour.
    pub open spec fn eligible(self, i: int) -> bool {
        &&& self.tri(i).orientation == Orientation::Up
        &&& self.tri(self.tri(i).right as int).orientation == Orientation::Up
        &&& self.tri(self.tri(i).time as int).right == self.tri(self.tri(i).right as int).time
    }

    /// Membership in the recorded set agrees with the eligibility predicate
    /// at index `i`.
    pub open spec fn o4_matches(self, i: int) -> bool {
        self.in_o4(i as usize) <==> self.eligible(i)
    }

    /// The recorded eligibility set is exactly the set of eligible indices,
    /// holds no duplicates, and holds only valid indices.
    pub open spec fn wf_o4(self) -> bool {
        &&& self.o4s().no_duplicates()
        &&& forall|j: int|
            0 <= j < self.o4s().len() ==> self.valid_idx(#[trigger] self.o4s()[j] as int)
        &&& forall|i: int| self.valid_idx(i) ==> #[trigger] self.o4_matches(i)
    }

    /// Full structural well-formedness of the triangulation: consistent
    /// spacelike rings, a symmetric orientation-opposing timelike matching,
    /// and an exact eligibility set.
    pub open spec fn wf(self) -> bool {
        &&& self.trs().len() <= usize::MAX
        &&& self.wf_links()
        &&& self.wf_time()
        &&& self.wf_o4()
    }

    /// The number of triangles in the arena.
    pub fn triangle_count(&self) -> (n: usize)
        ensures
            n == self.trs().len(),
    {
        self.triangles.len()
    }
}

/// The triangle at arena index `k` of a freshly built flat universe with `ts`
/// slices of `l2` triangles each: orientation alternates with position, the
/// spacelike links close a ring of `l2` triangles within the slice, and the
/// timelike link pairs each up triangle with the down triangle one slot to
/// the right in the previous slice (and each down triangle with the up
/// triangle one slot to the left in the next slice).
pub open spec fn flat_triangle(ts: int, l2: int, k: int) -> Triangle {
    let t = k / l2;
    let i = k % l2;
    Triangle {
        orientation: if i % 2 == 0 {
            Orientation::Up
        } else {
            Orientation::Down
        },
        time: if i % 2 == 0 {
            ((if t == 0 {
                ts - 1
            } else {
                t - 1
            }) * l2 + i + 1) as usize
        } else {
            ((if t == ts - 1 {
                0
            } else {
                t + 1
            }) * l2 + i - 1) as usize
        },
        left: (t * l2 + (if i == 0 {
            l2 - 1
        } else {
            i - 1
        })) as usize,
        right: (t * l2 + (if i == l2 - 1 {
            0
        } else {
            i + 1
        })) as usize,
    }
}

/// `u` is the flat universe of `ts` slices of `l2` triangles: every record
/// carries the regular-grid fields.
pub open spec fn is_flat(u: Universe, ts: int, l2: int) -> bool {
    &&& 1 <= ts
    &&& 2 <= l2
    &&& l2 % 2 == 0
    &&& ts * l2 <= usize::MAX
    &&& u.trs().len() == ts * l2
    &&& forall|k: int| 0 <= k < u.trs().len() ==> u.tri(k) == flat_triangle(ts, l2, k)
}

/// Arena slot `a * l2 + b` (slice `a`, position `b`) of a flat universe is a
/// valid index that decomposes back into `a` and `b`.
proof fn lemma_flat_slot(u: Universe, ts: int, l2: int, a: int, b: int)
    requires
        1 <= ts,
        2 <= l2,
        ts * l2 <= usize::MAX,
        u.trs().len() == ts * l2,
        forall|k: int| 0 <= k < u.trs().len() ==> u.tri(k) == flat_triangle(ts, l2, k),
        0 <= a < ts,
        0 <= b < l2,
    ensures
        0 <= a * l2 + b < ts * l2,
        u.tri(a * l2 + b) == flat_triangle(ts, l2, a * l2 + b),
        (a * l2 + b) / l2 == a,
        (a * l2 + b) % l2 == b,
{
    assert(0 <= a * l2 + b && a * l2 + b + (l2 - 1 - b) == a * l2 + (l2 - 1) && a * l2 + (l2 - 1)
        < ts * l2) by (nonlinear_arith)
        requires
            0 <= a < ts,
            0 <= b < l2,
    ;
    lemma_fundamental_div_mod_converse(a * l2 + b, l2, a, b);
}

/// In a flat universe the spacelike ring closes, the timelike matching is
/// symmetric and orientation-opposing, and no site is eligible, at every
/// index.
#[verifier::rlimit(60)]
proof fn lemma_flat_at(u: Universe, ts: int, l2: int, j: int)
    requires
        1 <= ts,
        2 <= l2,
        l2 % 2 == 0,
        ts * l2 <= usize::MAX,
        u.trs().len() == ts * l2,
        forall|k: int| 0 <= k < u.trs().len() ==> u.tri(k) == flat_triangle(ts, l2, k),
        0 <= j < ts * l2,
    ensures
        u.links_ok_at(j),
        u.time_ok_at(j),
        !u.eligible(j),
{
    let t = j / l2;
    let i = j % l2;
    vstd::arithmetic::div_mod::lemma_fundamental_div_mod(j, l2);
    vstd::arithmetic::div_mod::lemma_mod_bound(j, l2);
    assert(0 <= t < ts) by (nonlinear_arith)
        requires
            j == l2 * t + i,
            0 <= i < l2,
            0 <= j < ts * l2,
            2 <= l2,
    ;
    lemma_flat_slot(u, ts, l2, t, i);
    // the spacelike neighbours sit in the same slice, one position over
    let li = if i == 0 {
        l2 - 1
    } else {
        i - 1
    };
    let ri = if i == l2 - 1 {
        0
    } else {
        i + 1
    };
    lemma_flat_slot(u, ts, l2, t, li);
    lemma_flat_slot(u, ts, l2, t, ri);
    // parity facts: l2 - 1 is odd, so an even position is never the last one
    assert(l2 == 2 * (l2 / 2)) by {
        vstd::arithmetic::div_mod::lemma_fundamental_div_mod(l2, 2);
    }
    lemma_fundamental_div_mod_converse(l2 - 1, 2, l2 / 2 - 1, 1);
    if i % 2 == 0 {
        assert(i == 2 * (i / 2)) by {
            vstd::arithmetic::div_mod::lemma_fundamental_div_mod(i, 2);
        }
        lemma_fundamental_div_mod_converse(i + 1, 2, i / 2, 1);
        assert(i != l2 - 1);
        // the timelike partner: one slot right, in the previous slice
        let tp = if t == 0 {
            ts - 1
        } else {
            t - 1
        };
        lemma_flat_slot(u, ts, l2, tp, i + 1);
        assert(u.time_ok_at(j));
        assert(!u.eligible(j));
    } else {
        assert(i % 2 == 1) by {
            vstd::arithmetic::div_mod::lemma_mod_bound(i, 2);
        }
        assert(i == 2 * (i / 2) + 1) by {
            vstd::arithmetic::div_mod::lemma_fundamental_div_mod(i, 2);
        }
        lemma_fundamental_div_mod_converse(i - 1, 2, i / 2, 0);
        assert(i != 0);
        // the timelike partner: one slot left, in the next slice
        let tn = if t == ts - 1 {
            0
        } else {
            t + 1
        };
        lemma_flat_slot(u, ts, l2, tn, i - 1);
        assert(u.time_ok_at(j));
        assert(!u.eligible(j));
    }
    assert(u.links_ok_at(j));
}

/// A freshly built flat universe, together with an empty eligibility set, is
/// well-formed.
proof fn lemma_flat_wf(u: Universe, ts: int, l2: int)
    requires
        1 <= ts,
        2 <= l2,
        l2 % 2 == 0,
        ts * l2 <= usize::MAX,
        u.trs().len() == ts * l2,
        forall|k: int| 0 <= k < u.trs().len() ==> u.tri(k) == flat_triangle(ts, l2, k),
        u.o4s().len() == 0,
    ensures
        u.wf(),
{
    assert forall|j: int| u.valid_idx(j) implies #[trigger] u.links_ok_at(j) by {
        lemma_flat_at(u, ts, l2, j);
    }
    assert forall|j: int| u.valid_idx(j) implies #[trigger] u.time_ok_at(j) by {
        lemma_flat_at(u, ts, l2, j);
    }
    assert forall|j: int| u.valid_idx(j) implies #[trigger] u.o4_matches(j) by {
        lemma_flat_at(u, ts, l2, j);
        assert(!u.in_o4(j as usize));
    }
}

impl Universe {
    /// Builds the initial flat cylindrical triangulation: `timespan` slices
    /// of `2 * length` triangles each, alternating up and down, with the
    /// spacelike links forming one ring per slice and the timelike links
    /// pairing adjacent slices. No site of a flat universe is eligible for
    /// relocation, so the eligibility set starts empty.
    pub fn new(timespan: usize, length: usize) -> (u: Universe)
        requires
            1 <= timespan,
            1 <= length,
            timespan * (2 * length) <= usize::MAX,
        ensures
            u.wf(),
            u.trs().len() == timespan * (2 * length),
            is_flat(u, timespan as int, 2 * length as int),
            u.o4s() == Seq::<usize>::empty(),
    {
        let ghost ts: int = timespan as int;
        let ghost l2: int = 2 * (length as int);
        proof {
            assert(2 * length <= timespan * (2 * length)) by (nonlinear_arith)
                requires
                    1 <= timespan,
                    0 <= length,
            ;
        }
        let length_double: usize = 2 * length;
        let mut triangles: Vec<Triangle> = Vec::new();
        let mut t: usize = 0;
        while t < timespan
            invariant
                t <= timespan,
                1 <= timespan,
                1 <= length,
                ts == timespan as int,
                l2 == 2 * (length as int),
                length_double == 2 * length,
                ts * l2 <= usize::MAX,
                triangles@.len() == t * l2,
                forall|k: int|
                    0 <= k < triangles@.len() ==> triangles@[k] == flat_triangle(ts, l2, k),
            decreases timespan - t,
        {
            let mut i: usize = 0;
            proof {
                assert((t + 1) * l2 <= ts * l2) by (nonlinear_arith)
                    requires
                        t < ts,
                        0 <= l2,
                ;
                assert((t + 1) * l2 == t * l2 + l2) by (nonlinear_arith);
            }
            while i < length_double
                invariant
                    i <= length_double,
                    t < timespan,
                    1 <= timespan,
                    1 <= length,
                    ts == timespan as int,
                    l2 == 2 * (length as int),
                    length_double == 2 * length,
                    ts * l2 <= usize::MAX,
                    t * l2 + l2 <= ts * l2,
                    triangles@.len() == t * l2 + i,
                    forall|k: int|
                        0 <= k < triangles@.len() ==> triangles@[k] == flat_triangle(ts, l2, k),
                decreases length_double - i,
            {
                let base: usize = t * length_double;
                let q_prev: usize = if t == 0 {
                    timespan - 1
                } else {
                    t - 1
                };
                let q_next: usize = if t == timespan - 1 {
                    0
                } else {
                    t + 1
                };
                proof {
                    assert(q_prev * l2 + l2 <= ts * l2) by (nonlinear_arith)
                        requires
                            q_prev < ts,
                            0 <= l2,
                    ;
                    assert(q_next * l2 + l2 <= ts * l2) by (nonlinear_arith)
                        requires
                            q_next < ts,
                            0 <= l2,
                    ;
                }
                let (orientation, time) = if i % 2 == 0 {
                    (Orientation::Up, q_prev * length_double + (i + 1))
                } else {
                    (Orientation::Down, q_next * length_double + (i - 1))
                };
                let left: usize = base + (if i == 0 {
                    length_double - 1
                } else {
                    i - 1
                });
                let right: usize = base + (if i == length_double - 1 {
                    0
                } else {
                    i + 1
                });
                let ghost k: int = t * l2 + i;
                triangles.push(Triangle { orientation, time, left, right });
                proof {
                    lemma_fundamental_div_mod_converse(k, l2, t as int, i as int);
                    assert(triangles@[k] == flat_triangle(ts, l2, k));
                }
                i = i + 1;
            }
            t = t + 1;
            proof {
                assert(t * l2 == (t - 1) * l2 + l2) by (nonlinear_arith);
            }
        }
        let u = Universe { triangles, order_four: Vec::new() };
        proof {
            lemma_fundamental_div_mod_converse(l2, 2, length as int, 0);
            lemma_flat_wf(u, ts, l2);
        }
        u
    }
}

impl Universe {
    /// Overwrites the timelike link of triangle `i`.
    fn set_time(&mut self, i: usize, v: usize)
        requires
            old(self).valid_idx(i as int),
        ensures
            final(self).trs() == old(self).trs().update(
                i as int,
                (Triangle {
                    orientation: old(self).tri(i as int).orientation,
                    time: v,
                    left: old(self).tri(i as int).left,
                    right: old(self).tri(i as int).right,
                }),
            ),
            final(self).o4s() == old(self).o4s(),
    {
        let mut tr = self.triangles[i];
        tr.time = v;
        self.triangles.set(i, tr);
    }

    /// Overwrites the left spacelike link of triangle `i`.
    fn set_left(&mut self, i: usize, v: usize)
        requires
            old(self).valid_idx(i as int),
        ensures
            final(self).trs() == old(self).trs().update(
                i as int,
                (Triangle {
                    orientation: old(self).tri(i as int).orientation,
                    time: old(self).tri(i as int).time,
                    left: v,
                    right: old(self).tri(i as int).right,
                }),
            ),
            final(self).o4s() == old(self).o4s(),
    {
        let mut tr = self.triangles[i];
        tr.left = v;
        self.triangles.set(i, tr);
    }

    /// Overwrites the right spacelike link of triangle `i`.
    fn set_right(&mut self, i: usize, v: usize)
        requires
            old(self).valid_idx(i as int),
        ensures
            final(self).trs() == old(self).trs().update(
                i as int,
                (Triangle {
                    orientation: old(self).tri(i as int).orientation,
                    time: old(self).tri(i as int).time,
                    left: old(self).tri(i as int).left,
                    right: v,
                }),
            ),
            final(self).o4s() == old(self).o4s(),
    {
        let mut tr = self.triangles[i];
        tr.right = v;
        self.triangles.set(i, tr);
    }

    /// Exchanges the orientations of triangles `left` and `right`.
    fn swap_orientation(&mut self, left: usize, right: usize)
        requires
            old(self).valid_idx(left as int),
            old(self).valid_idx(right as int),
        ensures
            final(self).trs() == old(self).trs().update(
                left as int,
                (Triangle {
                    orientation: old(self).tri(right as int).orientation,
                    time: old(self).tri(left as int).time,
                    left: old(self).tri(left as int).left,
                    right: old(self).tri(left as int).right,
                }),
            ).update(
                right as int,
                (Triangle {
                    orientation: old(self).tri(left as int).orientation,
                    time: old(self).tri(right as int).time,
                    left: old(self).tri(right as int).left,
                    right: old(self).tri(right as int).right,
                }),
            ),
            final(self).o4s() == old(self).o4s(),
    {
        let left_orientation = self.triangles[left].orientation;
        let right_orientation = self.triangles[right].orientation;
        let mut tl = self.triangles[left];
        tl.orientation = right_orientation;
        self.triangles.set(left, tl);
        let mut tr = self.triangles[right];
        tr.orientation = left_orientation;
        self.triangles.set(right, tr);
    }

    /// Evaluates the eligibility predicate at `label` from scratch.
    pub fn is_order_four_at(&self, label: usize) -> (r: bool)
        requires
            self.valid_idx(label as int),
            self.valid_idx(self.tri(label as int).right as int),
            self.valid_idx(self.tri(label as int).time as int),
        ensures
            r == self.eligible(label as int),
    {
        let right = self.triangles[label].right;
        let time = self.triangles[label].time;
        self.triangles[label].orientation == Orientation::Up && self.triangles[right].orientation
            == Orientation::Up && self.triangles[time].right == self.triangles[right].time
    }

    /// Whether any site is currently recorded as eligible for relocation.
    /// Callers that must reproduce a fixed-seed chain draw their move-kind
    /// coin only when this holds, since a step with no eligible site is a
    /// forced flip.
    pub fn has_order_four_sites(&self) -> (r: bool)
        ensures
            r == (self.o4s().len() > 0),
    {
        self.order_four.len() > 0
    }

    /// Whether `m` is currently recorded in the eligibility set.
    pub fn o4_contains(&self, m: usize) -> (r: bool)
        ensures
            r == self.in_o4(m),
    {
        let mut k: usize = 0;
        while k < self.order_four.len()
            invariant
                k <= self.o4s().len(),
                forall|j: int| 0 <= j < k ==> self.o4s()[j] != m,
            decreases self.o4s().len() - k,
        {
            if self.order_four[k] == m {
                return true;
            }
            k = k + 1;
        }
        false
    }

    /// Records `m` in the eligibility set if it is not there yet.
    fn o4_insert(&mut self, m: usize)
        requires
            old(self).o4s().no_duplicates(),
            old(self).valid_idx(m as int),
            forall|j: int|
                0 <= j < old(self).o4s().len() ==> old(self).valid_idx(
                    #[trigger] old(self).o4s()[j] as int,
                ),
        ensures
            final(self).trs() == old(self).trs(),
            final(self).o4s().no_duplicates(),
            final(self).in_o4(m),
            forall|x: usize| x != m ==> (final(self).in_o4(x) <==> old(self).in_o4(x)),
            forall|j: int|
                0 <= j < final(self).o4s().len() ==> final(self).valid_idx(
                    #[trigger] final(self).o4s()[j] as int,
                ),
    {
        if !self.o4_contains(m) {
            self.order_four.push(m);
            proof {
                let pre = old(self).o4s();
                let post = self.o4s();
                assert(post == pre.push(m));
                assert(post[post.len() - 1] == m);
                assert forall|j: int| 0 <= j < pre.len() implies post[j] == pre[j] by {}
                assert forall|x: usize| x != m implies (self.in_o4(x) <==> old(self).in_o4(
                    x,
                )) by {
                    if old(self).in_o4(x) {
                        let jj = choose|jj: int| 0 <= jj < pre.len() && pre[jj] == x;
                        assert(post[jj] == x);
                    }
                    if self.in_o4(x) {
                        let jj = choose|jj: int| 0 <= jj < post.len() && post[jj] == x;
                        assert(pre[jj] == x);
                    }
                }
            }
        }
    }

    /// Strikes `m` from the eligibility set if it is there.
    fn o4_remove(&mut self, m: usize)
        requires
            old(self).o4s().no_duplicates(),
            forall|j: int|
                0 <= j < old(self).o4s().len() ==> old(self).valid_idx(
                    #[trigger] old(self).o4s()[j] as int,
                ),
        ensures
            final(self).trs() == old(self).trs(),
            final(self).o4s().no_duplicates(),
            !final(self).in_o4(m),
            forall|x: usize| x != m ==> (final(self).in_o4(x) <==> old(self).in_o4(x)),
            forall|j: int|
                0 <= j < final(self).o4s().len() ==> final(self).valid_idx(
                    #[trigger] final(self).o4s()[j] as int,
                ),
    {
        let mut k: usize = 0;
        while k < self.order_four.len()
            invariant
                k <= self.o4s().len(),
                forall|j: int| 0 <= j < k ==> self.o4s()[j] != m,
                self == old(self),
                old(self).o4s().no_duplicates(),
                forall|j: int|
                    0 <= j < old(self).o4s().len() ==> old(self).valid_idx(
                        #[trigger] old(self).o4s()[j] as int,
                    ),
            decreases self.o4s().len() - k,
        {
            if self.order_four[k] == m {
                self.order_four.swap_remove(k);
                proof {
                    let pre = old(self).o4s();
                    let post = self.o4s();
                    assert(post == pre.update(k as int, pre.last()).drop_last());
                    assert forall|j: int| 0 <= j < post.len() implies post[j] == (if j == k {
                        pre[pre.len() - 1]
                    } else {
                        pre[j]
                    }) by {}
                    assert forall|j: int| 0 <= j < post.len() implies post[j] != m by {
                        if j == k {
                            assert(post[j] == pre[pre.len() - 1]);
                            assert(pre[pre.len() - 1] != pre[k as int]);
                        } else {
                            assert(post[j] == pre[j]);
                            assert(pre[j] != pre[k as int]);
                        }
                    }
                    assert forall|x: usize| x != m implies (self.in_o4(x) <==> old(self).in_o4(
                        x,
                    )) by {
                        if old(self).in_o4(x) {
                            let jj = choose|jj: int| 0 <= jj < pre.len() && pre[jj] == x;
                            if jj < post.len() && jj != k {
                                assert(post[jj] == x);
                            } else if jj == k {
                                assert(jj < post.len() || k == pre.len() - 1);
                            } else {
                                assert(jj == pre.len() - 1);
                                assert(k < post.len());
                                assert(post[k as int] == x);
                            }
                        }
                        if self.in_o4(x) {
                            let jj = choose|jj: int| 0 <= jj < post.len() && post[jj] == x;
                        }
                    }
                    assert(post.no_duplicates()) by {
                        assert forall|i1: int, j1: int|
                            0 <= i1 < post.len() && 0 <= j1 < post.len() && i1
                                != j1 implies post[i1] != post[j1] by {
                            let oi = if i1 == k {
                                pre.len() - 1
                            } else {
                                i1
                            };
                            let oj = if j1 == k {
                                pre.len() - 1
                            } else {
                                j1
                            };
                            assert(post[i1] == pre[oi]);
                            assert(post[j1] == pre[oj]);
                            assert(oi != oj);
                            assert(pre[oi] != pre[oj]);
                        }
                    }
                    assert(!self.in_o4(m)) by {
                        if self.in_o4(m) {
                            let jj = choose|jj: int| 0 <= jj < post.len() && post[jj] == m;
                        }
                    }
                }
                return ;
            }
            k = k + 1;
        }
        proof {
            if self.in_o4(m) {
                let jj = choose|jj: int| 0 <= jj < self.o4s().len() && self.o4s()[jj] == m;
            }
        }
    }

    /// Re-evaluates eligibility at `i` and inserts or strikes `i`
    /// accordingly, leaving every other membership unchanged.
    fn refresh(&mut self, i: usize)
        requires
            old(self).valid_idx(i as int),
            old(self).valid_idx(old(self).tri(i as int).right as int),
            old(self).valid_idx(old(self).tri(i as int).time as int),
            old(self).o4s().no_duplicates(),
            forall|j: int|
                0 <= j < old(self).o4s().len() ==> old(self).valid_idx(
                    #[trigger] old(self).o4s()[j] as int,
                ),
        ensures
            final(self).trs() == old(self).trs(),
            final(self).o4s().no_duplicates(),
            final(self).in_o4(i) <==> old(self).eligible(i as int),
            forall|x: usize| x != i ==> (final(self).in_o4(x) <==> old(self).in_o4(x)),
            forall|j: int|
                0 <= j < final(self).o4s().len() ==> final(self).valid_idx(
                    #[trigger] final(self).o4s()[j] as int,
                ),
    {
        if self.is_order_four_at(i) {
            self.o4_insert(i);
        } else {
            self.o4_remove(i);
        }
    }
}

/// Exactly how a flip at site `l` rewires the triangulation: with `r` the
/// right neighbour of `l` and `ln`, `rn` the timelike partners of `l` and
/// `r`, the orientations of `l` and `r` are exchanged, the timelike matching
/// is rewired so that `l` pairs with `rn` and `r` pairs with `ln`, and every
/// other field of every triangle is unchanged. Spacelike rings are untouched.
pub open spec fn flip_rewired(pre: Universe, post: Universe, l: int) -> bool {
    let r = pre.tri(l).right as int;
    let ln = pre.tri(l).time as int;
    let rn = pre.tri(r).time as int;
    &&& post.trs().len() == pre.trs().len()
    &&& post.tri(l) == (Triangle {
        orientation: pre.tri(r).orientation,
        time: pre.tri(r).time,
        left: pre.tri(l).left,
        right: pre.tri(l).right,
    })
    &&& post.tri(r) == (Triangle {
        orientation: pre.tri(l).orientation,
        time: pre.tri(l).time,
        left: pre.tri(r).left,
        right: pre.tri(r).right,
    })
    &&& post.tri(ln) == (Triangle {
        orientation: pre.tri(ln).orientation,
        time: pre.tri(l).right,
        left: pre.tri(ln).left,
        right: pre.tri(ln).right,
    })
    &&& post.tri(rn) == (Triangle {
        orientation: pre.tri(rn).orientation,
        time: l as usize,
        left: pre.tri(rn).left,
        right: pre.tri(rn).right,
    })
    &&& forall|j: int|
        pre.valid_idx(j) && j != l && j != r && j != ln && j != rn ==> post.tri(j) == pre.tri(j)
}

impl Universe {
    /// The flip move: given a site `left` whose right neighbour has the
    /// opposite orientation (and whose timelike partner is a triangle other
    /// than that right neighbour, as in every triangulation with at least two
    /// slices), exchange the diagonal of the two triangles by swapping their
    /// orientations and rewiring the timelike matching at the four corners,
    /// then re-evaluate eligibility at every site whose predicate could have
    /// changed. The result is well-formed again, and the triangle count is
    /// unchanged.
    pub fn triangle_flip(&mut self, left: usize)
        requires
            old(self).wf(),
            old(self).valid_idx(left as int),
            old(self).tri(left as int).orientation != old(self).tri(
                old(self).tri(left as int).right as int,
            ).orientation,
            old(self).tri(left as int).time != old(self).tri(left as int).right,
        ensures
            final(self).wf(),
            flip_rewired(*old(self), *final(self), left as int),
            final(self).trs().len() == old(self).trs().len(),
    {
        let ghost pre = *old(self);
        let l = left;
        proof {
            assert(pre.links_ok_at(l as int));
            assert(pre.time_ok_at(l as int));
        }
        let r = self.triangles[l].right;
        let ln = self.triangles[l].time;
        proof {
            assert(pre.links_ok_at(r as int));
            assert(pre.time_ok_at(r as int));
        }
        let rn = self.triangles[r].time;
        proof {
            assert(pre.links_ok_at(ln as int));
            assert(pre.time_ok_at(ln as int));
            assert(pre.links_ok_at(rn as int));
            assert(pre.time_ok_at(rn as int));
            // the four corners are pairwise distinct
            assert(l != r && ln != l && rn != r);
            assert(ln != r);
            assert(rn != l) by {
                if rn == l {
                    assert(pre.tri(rn as int).time == r);
                }
            }
            assert(ln != rn) by {
                if ln == rn {
                    assert(pre.tri(ln as int).time == l);
                    assert(pre.tri(rn as int).time == r);
                }
            }
        }
        self.swap_orientation(l, r);
        self.set_time(ln, r);
        self.set_time(rn, l);
        self.set_time(l, rn);
        self.set_time(r, ln);
        let ghost s1 = *self;
        proof {
            assert(flip_rewired(pre, s1, l as int));
            assert(s1.o4s() == pre.o4s());
            // spacelike rings are untouched and all links stay in bounds
            assert forall|j: int| s1.valid_idx(j) implies #[trigger] s1.links_ok_at(j) by {
                assert(pre.links_ok_at(j));
                assert(pre.links_ok_at(pre.tri(j).left as int));
                assert(pre.links_ok_at(pre.tri(j).right as int));
            }
            // the timelike matching is again symmetric and orientation-opposing
            assert forall|j: int| s1.valid_idx(j) implies #[trigger] s1.time_ok_at(j) by {
                assert(pre.time_ok_at(j));
                assert(pre.links_ok_at(j));
                if j != l as int && j != r as int && j != ln as int && j != rn as int {
                    let tj = pre.tri(j).time as int;
                    assert(pre.tri(tj).time as int == j);
                    assert(pre.time_ok_at(tj));
                    if tj == l as int {
                        assert(pre.tri(l as int).time as int == j);
                        assert(pre.tri(l as int).time == ln);
                    }
                    if tj == r as int {
                        assert(pre.tri(r as int).time as int == j);
                        assert(pre.tri(r as int).time == rn);
                    }
                    if tj == ln as int {
                        assert(pre.tri(ln as int).time as int == j);
                        assert(pre.tri(ln as int).time == l);
                    }
                    if tj == rn as int {
                        assert(pre.tri(rn as int).time as int == j);
                        assert(pre.tri(rn as int).time == r);
                    }
                }
            }
        }
        // the sites whose eligibility the rewiring can have touched
        let ll = self.triangles[l].left;
        let lln = self.triangles[ln].left;
        let lrn = self.triangles[rn].left;
        proof {
            // eligibility is a read of j, right(j) and time(j) only, so it is
            // unchanged outside the four corners and their left neighbours
            assert forall|j: int|
                s1.valid_idx(j) && j != l as int && j != r as int && j != ln as int && j != rn as int
                    && j != ll as int && j != lln as int && j != lrn as int implies (
            #[trigger] s1.eligible(j) <==> pre.eligible(j)) by {
                assert(pre.links_ok_at(j));
                let rj = pre.tri(j).right as int;
                assert(pre.tri(rj).left as int == j);
                if rj == l as int {
                    assert(pre.tri(l as int).left as int == j);
                    assert(pre.tri(l as int).left == ll);
                }
                if rj == r as int {
                    assert(pre.tri(r as int).left as int == j);
                    assert(pre.tri(r as int).left == l);
                }
                if rj == ln as int {
                    assert(pre.tri(ln as int).left as int == j);
                    assert(pre.tri(ln as int).left == lln);
                }
                if rj == rn as int {
                    assert(pre.tri(rn as int).left as int == j);
                    assert(pre.tri(rn as int).left == lrn);
                }
                let tj = pre.tri(j).time as int;
                assert(pre.time_ok_at(j));
                assert(pre.tri(tj).time as int == j);
                assert(pre.time_ok_at(tj));
                if tj == l as int {
                    assert(pre.tri(l as int).time as int == j);
                    assert(pre.tri(l as int).time == ln);
                }
                if tj == r as int {
                    assert(pre.tri(r as int).time as int == j);
                    assert(pre.tri(r as int).time == rn);
                }
                if tj == ln as int {
                    assert(pre.tri(ln as int).time as int == j);
                    assert(pre.tri(ln as int).time == l);
                }
                if tj == rn as int {
                    assert(pre.tri(rn as int).time as int == j);
                    assert(pre.tri(rn as int).time == r);
                }
            }
        }
        proof {
            assert(s1.links_ok_at(l as int));
            assert(s1.links_ok_at(r as int));
            assert(s1.links_ok_at(ln as int));
            assert(s1.links_ok_at(rn as int));
            assert(s1.links_ok_at(ll as int));
            assert(s1.links_ok_at(lln as int));
            assert(s1.links_ok_at(lrn as int));
        }
        self.refresh(l);
        let ghost s2 = *self;
        self.refresh(r);
        let ghost s3 = *self;
        self.refresh(ln);
        let ghost s4 = *self;
        self.refresh(rn);
        let ghost s5 = *self;
        self.refresh(ll);
        let ghost s6 = *self;
        self.refresh(lln);
        let ghost s7 = *self;
        self.refresh(lrn);
        proof {
            let post = *self;
            assert(post.trs() == s1.trs());
            assert forall|j: int| post.valid_idx(j) implies #[trigger] post.links_ok_at(j) by {
                assert(s1.links_ok_at(j));
            }
            assert forall|j: int| post.valid_idx(j) implies #[trigger] post.time_ok_at(j) by {
                assert(s1.time_ok_at(j));
            }
            // every recorded membership now agrees with the new eligibility
            assert forall|x: int| post.valid_idx(x) implies #[trigger] post.o4_matches(x) by {
                assert(s1.eligible(x) == post.eligible(x));
                if x == lrn as int {
                } else if x == lln as int {
                } else if x == ll as int {
                } else if x == rn as int {
                } else if x == ln as int {
                } else if x == r as int {
                } else if x == l as int {
                } else {
                    assert(pre.o4_matches(x));
                    assert(s1.eligible(x) <==> pre.eligible(x));
                }
            }
        }
    }
}

/// The local side conditions under which a shard relocation of the pair at
/// `su` (an up triangle) to the right of `du` (another up triangle) is a
/// clean double-ring splice: each half of the shard has ring neighbours other
/// than itself, the two halves sit in separate ring neighbourhoods, and the
/// destination's down partner is clear of the gap being closed. Every
/// triangulation whose slices are disjoint rings of two or more triangles
/// satisfies all of them at every such pair of sites.
pub open spec fn shard_move_ok(pre: Universe, su: int, du: int) -> bool {
    let sd = pre.tri(su).time as int;
    &&& pre.valid_idx(su)
    &&& pre.valid_idx(du)
    &&& pre.tri(su).orientation == Orientation::Up
    &&& pre.tri(du).orientation == Orientation::Up
    &&& du != su
    &&& pre.tri(su).left as int != su
    &&& pre.tri(sd).left as int != sd
    &&& sd != pre.tri(su).left as int
    &&& sd != pre.tri(su).right as int
    &&& pre.tri(sd).left as int != pre.tri(su).right as int
    &&& pre.tri(sd).right as int != pre.tri(su).left as int
    &&& pre.tri(du).time as int != pre.tri(su).left as int
}

/// Exactly how relocating the shard at `su` to the right of `du` rewires the
/// triangulation: the shard pair (`su` and its down partner) is spliced out
/// of its two spacelike rings, whose ends are joined, and spliced back in
/// immediately to the right of the destination pair. Orientations and the
/// timelike matching are untouched; the `dnu`/`dnd` neighbours are read in
/// the rings as they stand after the gap is closed.
pub open spec fn shard_relocated(pre: Universe, post: Universe, su: int, du: int) -> bool {
    let sd = pre.tri(su).time as int;
    let dd = pre.tri(du).time as int;
    let snlu = pre.tri(su).left as int;
    let snru = pre.tri(su).right as int;
    let snld = pre.tri(sd).left as int;
    let snrd = pre.tri(sd).right as int;
    let dnu = if du == snld {
        snrd
    } else {
        pre.tri(du).right as int
    };
    let dnd = if dd == snld {
        snrd
    } else {
        pre.tri(dd).right as int
    };
    &&& post.trs().len() == pre.trs().len()
    &&& forall|j: int|
        pre.valid_idx(j) ==> (#[trigger] post.tri(j)).orientation == pre.tri(j).orientation
    &&& forall|j: int| pre.valid_idx(j) ==> (#[trigger] post.tri(j)).time == pre.tri(j).time
    &&& forall|j: int|
        pre.valid_idx(j) ==> (#[trigger] post.tri(j)).right as int == (if j == du {
            su
        } else if j == dd {
            sd
        } else if j == su {
            dnu
        } else if j == sd {
            dnd
        } else if j == snlu {
            snru
        } else if j == snld {
            snrd
        } else {
            pre.tri(j).right as int
        })
    &&& forall|j: int|
        pre.valid_idx(j) ==> (#[trigger] post.tri(j)).left as int == (if j == su {
            du
        } else if j == sd {
            dd
        } else if j == dnu {
            su
        } else if j == dnd {
            sd
        } else if j == snru {
            snlu
        } else if j == snrd {
            snld
        } else {
            pre.tri(j).left as int
        })
}

/// The sites whose eligibility a shard relocation from `su` to `du` can have
/// changed: the shard pair, the destination pair, the two ring neighbours
/// left of the closed gap, and the timelike partners of those two.
pub open spec fn shard_touched(pre: Universe, su: int, du: int, j: int) -> bool {
    let sd = pre.tri(su).time as int;
    let dd = pre.tri(du).time as int;
    let snlu = pre.tri(su).left as int;
    let snld = pre.tri(sd).left as int;
    ||| j == su
    ||| j == sd
    ||| j == du
    ||| j == dd
    ||| j == snlu
    ||| j == snld
    ||| j == pre.tri(snlu).time as int
    ||| j == pre.tri(snld).time as int
}

/// The pairwise distinctions among the ten indices a clean shard relocation
/// reads and writes, as the splice needs them: the shard pair, its four ring
/// neighbours, the destination pair and its two insertion points.
spec fn shard_distinct(pre: Universe, su: int, du: int) -> bool {
    let sd = pre.tri(su).time as int;
    let dd = pre.tri(du).time as int;
    let snlu = pre.tri(su).left as int;
    let snru = pre.tri(su).right as int;
    let snld = pre.tri(sd).left as int;
    let snrd = pre.tri(sd).right as int;
    let dnu = if du == snld {
        snrd
    } else {
        pre.tri(du).right as int
    };
    let dnd = if dd == snld {
        snrd
    } else {
        pre.tri(dd).right as int
    };
    &&& pre.valid_idx(sd)
    &&& pre.valid_idx(dd)
    &&& pre.valid_idx(snlu)
    &&& pre.valid_idx(snru)
    &&& pre.valid_idx(snld)
    &&& pre.valid_idx(snrd)
    &&& pre.valid_idx(dnu)
    &&& pre.valid_idx(dnd)
    &&& sd != su
    &&& sd != du
    &&& sd != dd
    &&& dd != su
    &&& dd != du
    &&& snru != su
    &&& snrd != sd
    &&& su != snld
    &&& su != snrd
    &&& snlu != snld
    &&& snru != snrd
    &&& dnu != su
    &&& dnu != sd
    &&& dnd != su
    &&& dnd != sd
    &&& dnu != dnd
}

/// In a well-formed triangulation the sites of a clean shard relocation are
/// pairwise distinct wherever the splice writes could otherwise collide.
proof fn lemma_shard_distinct(pre: Universe, su: int, du: int)
    requires
        pre.wf(),
        shard_move_ok(pre, su, du),
        du != pre.tri(su).left as int,
    ensures
        shard_distinct(pre, su, du),
{
    let sd = pre.tri(su).time as int;
    let dd = pre.tri(du).time as int;
    let snlu = pre.tri(su).left as int;
    let snru = pre.tri(su).right as int;
    let snld = pre.tri(sd).left as int;
    let snrd = pre.tri(sd).right as int;
    assert(pre.links_ok_at(su));
    assert(pre.time_ok_at(su));
    assert(pre.links_ok_at(du));
    assert(pre.time_ok_at(du));
    assert(pre.links_ok_at(sd));
    assert(pre.time_ok_at(sd));
    assert(pre.links_ok_at(dd));
    assert(pre.time_ok_at(dd));
    assert(pre.links_ok_at(snlu));
    assert(pre.links_ok_at(snru));
    assert(pre.links_ok_at(snld));
    assert(pre.links_ok_at(snrd));
    // the two halves of the shard point opposite ways, as do the destination's
    assert(pre.tri(sd).orientation == Orientation::Down);
    assert(pre.tri(dd).orientation == Orientation::Down);
    assert(sd != su && sd != du && dd != su && dd != du);
    assert(sd != dd) by {
        if sd == dd {
            assert(pre.tri(sd).time as int == su);
            assert(pre.tri(dd).time as int == du);
        }
    }
    // ring neighbours of the shard are distinct from both of its halves
    assert(snru != su) by {
        if snru == su {
            assert(pre.tri(snru).left as int == su);
        }
    }
    assert(snrd != sd) by {
        if snrd == sd {
            assert(pre.tri(snrd).left as int == sd);
        }
    }
    assert(su != snld) by {
        if su == snld {
            assert(pre.tri(snld).right as int == sd);
        }
    }
    assert(su != snrd) by {
        if su == snrd {
            assert(pre.tri(snrd).left as int == sd);
        }
    }
    assert(snlu != snld) by {
        if snlu == snld {
            assert(pre.tri(snlu).right as int == su);
            assert(pre.tri(snld).right as int == sd);
        }
    }
    assert(snru != snrd) by {
        if snru == snrd {
            assert(pre.tri(snru).left as int == su);
            assert(pre.tri(snrd).left as int == sd);
        }
    }
    let dnu = if du == snld {
        snrd
    } else {
        pre.tri(du).right as int
    };
    let dnd = if dd == snld {
        snrd
    } else {
        pre.tri(dd).right as int
    };
    assert(pre.valid_idx(dnu) && pre.valid_idx(dnd));
    assert(pre.links_ok_at(dnu));
    assert(pre.links_ok_at(dnd));
    // the insertion points are clear of the shard itself
    assert(dnu != su) by {
        if du != snld && pre.tri(du).right as int == su {
            assert(pre.tri(su).left as int == du);
        }
    }
    assert(dnu != sd) by {
        if du != snld && pre.tri(du).right as int == sd {
            assert(pre.tri(sd).left as int == du);
        }
    }
    assert(dnd != su) by {
        if dd != snld && pre.tri(dd).right as int == su {
            assert(pre.tri(su).left as int == dd);
        }
    }
    assert(dnd != sd) by {
        if dd != snld && pre.tri(dd).right as int == sd {
            assert(pre.tri(sd).left as int == dd);
        }
    }
    assert(dnu != dnd) by {
        if du == snld && dd != snld {
            if pre.tri(dd).right as int == snrd {
                assert(pre.tri(snrd).left as int == dd);
                assert(pre.tri(snrd).left as int == sd);
            }
        } else if du != snld && dd == snld {
            if pre.tri(du).right as int == snrd {
                assert(pre.tri(snrd).left as int == du);
                assert(pre.tri(snrd).left as int == sd);
            }
        } else if du != snld && dd != snld {
            if pre.tri(du).right == pre.tri(dd).right {
                assert(pre.tri(pre.tri(du).right as int).left as int == du);
                assert(pre.tri(pre.tri(dd).right as int).left as int == dd);
            }
        }
    }
}

/// After a clean shard relocation the spacelike rings are consistent again,
/// the timelike matching is untouched, and eligibility is unchanged at every
/// site the splice did not touch.
#[verifier::rlimit(100)]
proof fn lemma_shard_wf(pre: Universe, post: Universe, su: int, du: int)
    requires
        pre.wf(),
        shard_move_ok(pre, su, du),
        du != pre.tri(su).left as int,
        shard_relocated(pre, post, su, du),
    ensures
        post.wf_links(),
        post.wf_time(),
        forall|j: int|
            pre.valid_idx(j) && !shard_touched(pre, su, du, j) ==> (#[trigger] post.eligible(j)
                <==> pre.eligible(j)),
{
    let sd = pre.tri(su).time as int;
    let dd = pre.tri(du).time as int;
    let snlu = pre.tri(su).left as int;
    let snru = pre.tri(su).right as int;
    let snld = pre.tri(sd).left as int;
    let snrd = pre.tri(sd).right as int;
    let dnu = if du == snld {
        snrd
    } else {
        pre.tri(du).right as int
    };
    let dnd = if dd == snld {
        snrd
    } else {
        pre.tri(dd).right as int
    };
    lemma_shard_distinct(pre, su, du);
    assert(pre.links_ok_at(su));
    assert(pre.time_ok_at(su));
    assert(pre.links_ok_at(du));
    assert(pre.time_ok_at(du));
    assert(pre.links_ok_at(sd));
    assert(pre.time_ok_at(sd));
    assert(pre.links_ok_at(dd));
    assert(pre.time_ok_at(dd));
    assert(pre.links_ok_at(snlu));
    assert(pre.links_ok_at(snru));
    assert(pre.links_ok_at(snld));
    assert(pre.links_ok_at(snrd));
    assert(pre.links_ok_at(dnu));
    assert(pre.links_ok_at(dnd));
    // the rings are consistent doubly linked cycles again
    assert forall|j: int| post.valid_idx(j) implies #[trigger] post.links_ok_at(j) by {
        assert(pre.links_ok_at(j));
        let rj = pre.tri(j).right as int;
        let lj = pre.tri(j).left as int;
        assert(pre.links_ok_at(rj));
        assert(pre.links_ok_at(lj));
        assert(pre.tri(rj).left as int == j);
        assert(pre.tri(lj).right as int == j);
    }
    // the timelike matching is untouched
    assert forall|j: int| post.valid_idx(j) implies #[trigger] post.time_ok_at(j) by {
        assert(pre.time_ok_at(j));
        assert(pre.links_ok_at(j));
        let tj = pre.tri(j).time as int;
        assert(pre.tri(tj).time as int == j);
    }
    // eligibility is a read of j, right(j) and time(j) only
    assert forall|j: int|
        pre.valid_idx(j) && !shard_touched(pre, su, du, j) implies (#[trigger] post.eligible(j)
            <==> pre.eligible(j)) by {
        assert(pre.links_ok_at(j));
        assert(pre.time_ok_at(j));
        let tj = pre.tri(j).time as int;
        assert(pre.tri(tj).time as int == j);
        assert(pre.links_ok_at(tj));
        if tj == du {
            assert(pre.tri(du).time as int == j);
        }
        if tj == dd {
            assert(pre.tri(dd).time as int == j);
            assert(pre.tri(dd).time as int == du);
        }
        if tj == su {
            assert(pre.tri(su).time as int == j);
        }
        if tj == sd {
            assert(pre.tri(sd).time as int == j);
            assert(pre.tri(sd).time as int == su);
        }
        let rj = pre.tri(j).right as int;
        assert(pre.tri(rj).left as int == j);
    }
}

impl Universe {
    /// Performs the ring surgery of a shard relocation: splices the shard
    /// pair at `su` out of its two spacelike rings, closing the gaps, and
    /// splices it back in immediately to the right of the destination pair at
    /// `du`. Orientations, the timelike matching and the recorded eligibility
    /// set are untouched.
    #[verifier::rlimit(100)]
    #[verifier::spinoff_prover]
    fn splice_shard(&mut self, su: usize, du: usize)
        requires
            old(self).wf(),
            shard_move_ok(*old(self), su as int, du as int),
            du != old(self).tri(su as int).left,
        ensures
            shard_relocated(*old(self), *final(self), su as int, du as int),
            final(self).o4s() == old(self).o4s(),
    {
        let ghost pre = *old(self);
        proof {
            assert(pre.links_ok_at(su as int));
            assert(pre.time_ok_at(su as int));
            assert(pre.links_ok_at(du as int));
            assert(pre.time_ok_at(du as int));
        }
        let snlu = self.triangles[su].left;
        let sd = self.triangles[su].time;
        let dd = self.triangles[du].time;
        let snru = self.triangles[su].right;
        let snld = self.triangles[sd].left;
        let snrd = self.triangles[sd].right;
        proof {
            lemma_shard_distinct(pre, su as int, du as int);
            assert(pre.links_ok_at(sd as int));
            assert(pre.links_ok_at(dd as int));
            assert(pre.links_ok_at(snlu as int));
            assert(pre.links_ok_at(snru as int));
            assert(pre.links_ok_at(snld as int));
            assert(pre.links_ok_at(snrd as int));
        }
        // close the gap the shard leaves behind, in both rings
        self.set_right(snlu, snru);
        self.set_left(snru, snlu);
        self.set_right(snld, snrd);
        self.set_left(snrd, snld);
        let ghost mid = *self;
        proof {
            assert forall|j: int| pre.valid_idx(j) implies (#[trigger] mid.tri(j)).orientation
                == pre.tri(j).orientation && mid.tri(j).time == pre.tri(j).time by {}
            assert forall|j: int| pre.valid_idx(j) implies (#[trigger] mid.tri(j)).right as int
                == (if j == snlu as int {
                snru as int
            } else if j == snld as int {
                snrd as int
            } else {
                pre.tri(j).right as int
            }) by {}
            assert forall|j: int| pre.valid_idx(j) implies (#[trigger] mid.tri(j)).left as int
                == (if j == snru as int {
                snlu as int
            } else if j == snrd as int {
                snld as int
            } else {
                pre.tri(j).left as int
            }) by {}
        }
        // the insertion points, read in the rings as they now stand
        let dnu = self.triangles[du].right;
        let dnd = self.triangles[dd].right;
        // splice the shard in to the right of the destination pair
        self.set_right(du, su);
        self.set_left(dnu, su);
        self.set_right(dd, sd);
        self.set_left(dnd, sd);
        self.set_right(su, dnu);
        self.set_left(su, du);
        self.set_right(sd, dnd);
        self.set_left(sd, dd);
        proof {
            let post = *self;
            assert forall|j: int| pre.valid_idx(j) implies (#[trigger] post.tri(j)).orientation
                == pre.tri(j).orientation && post.tri(j).time == pre.tri(j).time by {
                assert(mid.tri(j).orientation == pre.tri(j).orientation);
                assert(mid.tri(j).time == pre.tri(j).time);
            }
            assert forall|j: int| pre.valid_idx(j) implies (#[trigger] post.tri(j)).right as int
                == (if j == du as int {
                su as int
            } else if j == dd as int {
                sd as int
            } else if j == su as int {
                dnu as int
            } else if j == sd as int {
                dnd as int
            } else if j == snlu as int {
                snru as int
            } else if j == snld as int {
                snrd as int
            } else {
                pre.tri(j).right as int
            }) by {
                assert(mid.tri(j).right as int == (if j == snlu as int {
                    snru as int
                } else if j == snld as int {
                    snrd as int
                } else {
                    pre.tri(j).right as int
                }));
            }
            assert forall|j: int| pre.valid_idx(j) implies (#[trigger] post.tri(j)).left as int
                == (if j == su as int {
                du as int
            } else if j == sd as int {
                dd as int
            } else if j == dnu as int {
                su as int
            } else if j == dnd as int {
                sd as int
            } else if j == snru as int {
                snlu as int
            } else if j == snrd as int {
                snld as int
            } else {
                pre.tri(j).left as int
            }) by {
                assert(mid.tri(j).left as int == (if j == snru as int {
                    snlu as int
                } else if j == snrd as int {
                    snld as int
                } else {
                    pre.tri(j).left as int
                }));
            }
        }
    }

    /// Re-evaluates eligibility at eight sites in turn, leaving every other
    /// membership unchanged.
    fn refresh_sites(
        &mut self,
        s1: usize,
        s2: usize,
        s3: usize,
        s4: usize,
        s5: usize,
        s6: usize,
        s7: usize,
        s8: usize,
    )
        requires
            old(self).wf_links(),
            old(self).valid_idx(s1 as int),
            old(self).valid_idx(s2 as int),
            old(self).valid_idx(s3 as int),
            old(self).valid_idx(s4 as int),
            old(self).valid_idx(s5 as int),
            old(self).valid_idx(s6 as int),
            old(self).valid_idx(s7 as int),
            old(self).valid_idx(s8 as int),
            old(self).o4s().no_duplicates(),
            forall|j: int|
                0 <= j < old(self).o4s().len() ==> old(self).valid_idx(
                    #[trigger] old(self).o4s()[j] as int,
                ),
        ensures
            final(self).trs() == old(self).trs(),
            final(self).o4s().no_duplicates(),
            forall|j: int|
                0 <= j < final(self).o4s().len() ==> final(self).valid_idx(
                    #[trigger] final(self).o4s()[j] as int,
                ),
            forall|x: usize|
                (x == s1 || x == s2 || x == s3 || x == s4 || x == s5 || x == s6 || x == s7 || x
                    == s8) ==> (final(self).in_o4(x) <==> old(self).eligible(x as int)),
            forall|x: usize|
                !(x == s1 || x == s2 || x == s3 || x == s4 || x == s5 || x == s6 || x == s7 || x
                    == s8) ==> (final(self).in_o4(x) <==> old(self).in_o4(x)),
    {
        let ghost pre = *old(self);
        proof {
            assert(pre.links_ok_at(s1 as int));
            assert(pre.links_ok_at(s2 as int));
            assert(pre.links_ok_at(s3 as int));
            assert(pre.links_ok_at(s4 as int));
            assert(pre.links_ok_at(s5 as int));
            assert(pre.links_ok_at(s6 as int));
            assert(pre.links_ok_at(s7 as int));
            assert(pre.links_ok_at(s8 as int));
        }
        self.refresh(s1);
        let ghost q1 = *self;
        self.refresh(s2);
        let ghost q2 = *self;
        self.refresh(s3);
        let ghost q3 = *self;
        self.refresh(s4);
        let ghost q4 = *self;
        self.refresh(s5);
        let ghost q5 = *self;
        self.refresh(s6);
        let ghost q6 = *self;
        self.refresh(s7);
        let ghost q7 = *self;
        self.refresh(s8);
    }

    /// The shard relocation move: splice the timelike-paired shard at
    /// `shard_up` (an up triangle, with its down partner) out of its two
    /// spacelike rings and splice it back in immediately to the right of the
    /// destination pair at `dest_up`, then re-evaluate eligibility at every
    /// site the splice touched. Relocating to the shard's own current
    /// position (`dest_up` equal to its left neighbour) leaves the
    /// triangulation exactly unchanged. The result is well-formed again, and
    /// the triangle count is unchanged.
    #[verifier::rlimit(100)]
    pub fn shard_move(&mut self, shard_up: usize, dest_up: usize)
        requires
            old(self).wf(),
            shard_move_ok(*old(self), shard_up as int, dest_up as int),
        ensures
            final(self).wf(),
            final(self).trs().len() == old(self).trs().len(),
            dest_up == old(self).tri(shard_up as int).left ==> *final(self) == *old(self),
            dest_up != old(self).tri(shard_up as int).left ==> shard_relocated(
                *old(self),
                *final(self),
                shard_up as int,
                dest_up as int,
            ),
    {
        let ghost pre = *old(self);
        let su = shard_up;
        let du = dest_up;
        proof {
            assert(pre.links_ok_at(su as int));
            assert(pre.time_ok_at(su as int));
            assert(pre.links_ok_at(du as int));
            assert(pre.time_ok_at(du as int));
        }
        let snlu = self.triangles[su].left;
        if du == snlu {
            // relocation to the current position: nothing to do
            return ;
        }
        let sd = self.triangles[su].time;
        let dd = self.triangles[du].time;
        let snld = self.triangles[sd].left;
        proof {
            lemma_shard_distinct(pre, su as int, du as int);
            assert(pre.links_ok_at(sd as int));
            assert(pre.links_ok_at(snlu as int));
            assert(pre.links_ok_at(snld as int));
        }
        self.splice_shard(su, du);
        let ghost s2 = *self;
        proof {
            lemma_shard_wf(pre, s2, su as int, du as int);
        }
        // re-evaluate eligibility at every site the splice touched
        let tsnlu = self.triangles[snlu].time;
        let tsnld = self.triangles[snld].time;
        proof {
            assert(s2.links_ok_at(snlu as int));
            assert(s2.links_ok_at(snld as int));
            assert(s2.tri(snlu as int).time == pre.tri(snlu as int).time);
            assert(s2.tri(snld as int).time == pre.tri(snld as int).time);
        }
        self.refresh_sites(su, sd, du, dd, snlu, snld, tsnlu, tsnld);
        proof {
            let post = *self;
            assert(post.trs() == s2.trs());
            assert forall|j: int| pre.valid_idx(j) implies #[trigger] post.tri(j) == s2.tri(j) by {}
            assert(shard_relocated(pre, post, su as int, du as int));
            assert forall|j: int| post.valid_idx(j) implies #[trigger] post.links_ok_at(j) by {
                assert(s2.links_ok_at(j));
            }
            assert forall|j: int| post.valid_idx(j) implies #[trigger] post.time_ok_at(j) by {
                assert(s2.time_ok_at(j));
            }
            // every recorded membership now agrees with the new eligibility
            assert forall|x: int| post.valid_idx(x) implies #[trigger] post.o4_matches(x) by {
                assert(s2.eligible(x) == post.eligible(x));
                if x == su as int || x == sd as int || x == du as int || x == dd as int || x
                    == snlu as int || x == snld as int || x == tsnlu as int || x == tsnld as int {
                } else {
                    assert(pre.o4_matches(x));
                    assert(!shard_touched(pre, su as int, du as int, x));
                    assert(s2.eligible(x) <==> pre.eligible(x));
                }
            }
        }
    }
}

/// One elementary MCMC move relates `pre` to `post`: either a flip at some
/// flip-eligible site whose timelike partner is not its own right neighbour,
/// or a relocation of the shard right of some recorded order-four site to
/// some up destination under the splice's side conditions — a relocation to
/// the shard's own position leaving the state unchanged.
pub open spec fn stepped(pre: Universe, post: Universe) -> bool {
    ||| (exists|l: int|
        {
            &&& pre.valid_idx(l)
            &&& pre.tri(l).orientation != pre.tri(pre.tri(l).right as int).orientation
            &&& pre.tri(l).time as int != pre.tri(l).right as int
            &&& #[trigger] flip_rewired(pre, post, l)
        })
    ||| (exists|su: int, du: int|
        {
            &&& #[trigger] shard_move_ok(pre, su, du)
            &&& (exists|j: int|
                0 <= j < pre.o4s().len() && su == pre.tri(
                    #[trigger] pre.o4s()[j] as int,
                ).right as int)
            &&& if du == pre.tri(su).left as int {
                post == pre
            } else {
                shard_relocated(pre, post, su, du)
            }
        })
}

/// How many rejected draws a rejection sampler tolerates before it reports
/// the triangulation as structurally unable to satisfy it. On any valid
/// triangulation each draw succeeds with probability near one half, so a
/// genuine exhaustion is an invariant-violation signal, not a likely outcome.
pub const SAMPLE_ATTEMPTS: usize = 10000;

/// Relies on fastrand::usize over the range `0..bound`: a uniform draw below
/// `bound`, panicking only on an empty range (ruled out here).
#[verifier::external_body]
fn random_below(bound: usize) -> (r: usize)
    requires
        1 <= bound,
    ensures
        r < bound,
{
    fastrand::usize(0..bound)
}

impl Universe {
    /// Draws a triangle index uniformly at random.
    fn sample_uniform(&self) -> (r: usize)
        requires
            1 <= self.trs().len(),
        ensures
            self.valid_idx(r as int),
    {
        random_below(self.triangles.len())
    }

    /// Whether the pair at `left` (with its right neighbour) can be flipped:
    /// the two orientations differ.
    pub fn is_flippable(&self, left: usize) -> (r: bool)
        requires
            self.valid_idx(left as int),
            self.valid_idx(self.tri(left as int).right as int),
        ensures
            r == (self.tri(left as int).orientation != self.tri(
                self.tri(left as int).right as int,
            ).orientation),
    {
        let right = self.triangles[left].right;
        self.triangles[left].orientation != self.triangles[right].orientation
    }

    /// Draws a flip-eligible site by rejection: uniform draws until one's
    /// right neighbour has the opposite orientation. Returns nothing only if
    /// the draw budget is exhausted, which on a triangulation with a
    /// flippable pair (any with more than one slice) is an
    /// invariant-violation signal.
    pub fn sample_flip_candidate(&self) -> (r: Option<usize>)
        requires
            self.wf(),
            1 <= self.trs().len(),
        ensures
            match r {
                Some(c) => self.valid_idx(c as int) && self.tri(c as int).orientation != self.tri(
                    self.tri(c as int).right as int,
                ).orientation,
                None => true,
            },
    {
        let mut attempts: usize = 0;
        while attempts < SAMPLE_ATTEMPTS
            invariant
                self.wf(),
                1 <= self.trs().len(),
            decreases SAMPLE_ATTEMPTS - attempts,
        {
            let index = self.sample_uniform();
            proof {
                assert(self.links_ok_at(index as int));
            }
            if self.is_flippable(index) {
                return Some(index);
            }
            attempts = attempts + 1;
        }
        None
    }

    /// Draws a relocation destination by rejection: uniform draws, with a
    /// down triangle canonicalised to its up timelike partner, until one
    /// differs from `exclude`. Returns nothing only if the draw budget is
    /// exhausted, which on a triangulation with more than one up triangle is
    /// an invariant-violation signal.
    pub fn sample_dest(&self, exclude: usize) -> (r: Option<usize>)
        requires
            self.wf(),
            1 <= self.trs().len(),
        ensures
            match r {
                Some(d) => self.valid_idx(d as int) && self.tri(d as int).orientation
                    == Orientation::Up && d != exclude,
                None => true,
            },
    {
        let mut attempts: usize = 0;
        while attempts < SAMPLE_ATTEMPTS
            invariant
                self.wf(),
                1 <= self.trs().len(),
            decreases SAMPLE_ATTEMPTS - attempts,
        {
            let index = self.sample_uniform();
            proof {
                assert(self.links_ok_at(index as int));
                assert(self.time_ok_at(index as int));
            }
            let dest = if self.triangles[index].orientation == Orientation::Up {
                index
            } else {
                self.triangles[index].time
            };
            if dest != exclude {
                return Some(dest);
            }
            attempts = attempts + 1;
        }
        None
    }

    /// Draws a relocatable shard uniformly from the eligibility set: the
    /// right neighbour of a uniformly drawn order-four site, an up triangle.
    pub fn sample_shard(&self) -> (r: usize)
        requires
            self.wf(),
            1 <= self.o4s().len(),
        ensures
            self.valid_idx(r as int),
            self.tri(r as int).orientation == Orientation::Up,
            exists|j: int|
                0 <= j < self.o4s().len() && r == self.tri(#[trigger] self.o4s()[j] as int).right,
    {
        let index = random_below(self.order_four.len());
        let member = self.order_four[index];
        proof {
            assert(self.valid_idx(member as int));
            assert(self.o4s()[index as int] == member);
            assert(self.in_o4(member));
            assert(self.o4_matches(member as int));
            assert(self.eligible(member as int));
            assert(self.links_ok_at(member as int));
        }
        let r = self.triangles[member].right;
        proof {
            assert(r == self.tri(self.o4s()[index as int] as int).right);
        }
        r
    }

    /// Applies one MCMC update: a flip if `do_flip` is set or no site is
    /// eligible for relocation, a shard relocation otherwise (the caller
    /// draws `do_flip` with its chosen move ratio). On success exactly one
    /// elementary move relates the old state to the new one (`stepped`); with
    /// an empty eligibility set only the flip disjunct of `stepped` is
    /// satisfiable, so a flip is forced. Returns false only when a rejection
    /// sampler exhausted its draw budget or the chosen move's local side
    /// conditions failed, either of which signals a triangulation on which
    /// the move is structurally impossible; the triangulation is then left
    /// unchanged. The triangle count is invariant either way.
    pub fn mcmc_step(&mut self, do_flip: bool) -> (ok: bool)
        requires
            old(self).wf(),
            1 <= old(self).trs().len(),
        ensures
            final(self).wf(),
            final(self).trs().len() == old(self).trs().len(),
            ok ==> stepped(*old(self), *final(self)),
            !ok ==> *final(self) == *old(self),
    {
        if self.order_four.len() == 0 || do_flip {
            match self.sample_flip_candidate() {
                Some(left) => {
                    proof {
                        assert(self.links_ok_at(left as int));
                    }
                    // a flip candidate whose halves are timelike partners
                    // only occurs in a single-slice universe, where no flip
                    // preserves the invariants
                    if self.triangles[left].time != self.triangles[left].right {
                        self.triangle_flip(left);
                        proof {
                            assert(flip_rewired(*old(self), *self, left as int));
                            assert(stepped(*old(self), *self));
                        }
                        true
                    } else {
                        false
                    }
                },
                None => false,
            }
        } else {
            let shard_up = self.sample_shard();
            match self.sample_dest(shard_up) {
                Some(dest_up) => {
                    proof {
                        assert(self.links_ok_at(shard_up as int));
                        assert(self.time_ok_at(shard_up as int));
                        assert(self.links_ok_at(dest_up as int));
                    }
                    let snlu = self.triangles[shard_up].left;
                    let sd = self.triangles[shard_up].time;
                    let snru = self.triangles[shard_up].right;
                    proof {
                        assert(self.links_ok_at(sd as int));
                    }
                    let snld = self.triangles[sd].left;
                    let snrd = self.triangles[sd].right;
                    let dd = self.triangles[dest_up].time;
                    // the splice's local side conditions: they hold wherever
                    // the slice rings are disjoint cycles of two or more
                    // triangles, so a failure signals a degenerate state
                    if snlu != shard_up && snld != sd && sd != snlu && sd != snru && snld != snru
                        && snrd != snlu && dd != snlu {
                        proof {
                            assert(shard_move_ok(*old(self), shard_up as int, dest_up as int));
                        }
                        self.shard_move(shard_up, dest_up);
                        proof {
                            assert(stepped(*old(self), *self));
                        }
                        true
                    } else {
                        false
                    }
                },
                None => false,
            }
        }
    }
}

/// Law: the flip move is an involution. If a flip at a flip-eligible site `l`
/// turns `u0` into `u1`, then `l` is flip-eligible in `u1` again, and a
/// second flip there turns `u1` into a triangulation `u2` whose every
/// triangle record equals the one in `u0` and whose eligibility set records
/// exactly the memberships of `u0`.
pub proof fn lemma_flip_involution(u0: Universe, u1: Universe, u2: Universe, l: int)
    requires
        u0.wf(),
        u0.valid_idx(l),
        u0.tri(l).orientation != u0.tri(u0.tri(l).right as int).orientation,
        u0.tri(l).time != u0.tri(l).right,
        u1.wf(),
        flip_rewired(u0, u1, l),
        u2.wf(),
        flip_rewired(u1, u2, l),
    ensures
        u1.tri(l).orientation != u1.tri(u1.tri(l).right as int).orientation,
        u1.tri(l).time != u1.tri(l).right,
        forall|j: int| u0.valid_idx(j) ==> #[trigger] u2.tri(j) == u0.tri(j),
        forall|x: usize| u2.in_o4(x) <==> u0.in_o4(x),
{
    let r = u0.tri(l).right as int;
    let ln = u0.tri(l).time as int;
    let rn = u0.tri(r).time as int;
    assert(u0.links_ok_at(l));
    assert(u0.time_ok_at(l));
    assert(u0.links_ok_at(r));
    assert(u0.time_ok_at(r));
    assert(u0.links_ok_at(ln));
    assert(u0.time_ok_at(ln));
    assert(u0.links_ok_at(rn));
    assert(u0.time_ok_at(rn));
    // the four corners are pairwise distinct, as in the move itself
    assert(l != r && ln != l && rn != r);
    assert(ln != r);
    assert(rn != l) by {
        if rn == l {
            assert(u0.tri(rn).time as int == r);
        }
    }
    assert(ln != rn) by {
        if ln == rn {
            assert(u0.tri(ln).time as int == l);
            assert(u0.tri(rn).time as int == r);
        }
    }
    // the second flip sees the same right neighbour and the swapped partners
    assert(u1.tri(l).right as int == r);
    assert(u1.tri(l).time as int == rn);
    assert(u1.tri(r).time as int == ln);
    // record-for-record restoration
    assert forall|j: int| u0.valid_idx(j) implies #[trigger] u2.tri(j) == u0.tri(j) by {
        if j != l && j != r && j != ln && j != rn {
            assert(u1.tri(j) == u0.tri(j));
            assert(u2.tri(j) == u1.tri(j));
        }
    }
    // the recorded memberships coincide
    assert forall|x: usize| u2.in_o4(x) <==> u0.in_o4(x) by {
        if u0.valid_idx(x as int) {
            assert(u0.o4_matches(x as int));
            assert(u2.o4_matches(x as int));
            assert(u2.eligible(x as int) == u0.eligible(x as int)) by {
                assert(u2.tri(x as int) == u0.tri(x as int));
                assert(u0.links_ok_at(x as int));
                assert(u2.tri(u0.tri(x as int).right as int) == u0.tri(
                    u0.tri(x as int).right as int,
                ));
                assert(u2.tri(u0.tri(x as int).time as int) == u0.tri(
                    u0.tri(x as int).time as int,
                ));
            }
        } else {
            if u0.in_o4(x) {
                let jj = choose|jj: int| 0 <= jj < u0.o4s().len() && u0.o4s()[jj] == x;
                assert(u0.valid_idx(u0.o4s()[jj] as int));
            }
            if u2.in_o4(x) {
                let jj = choose|jj: int| 0 <= jj < u2.o4s().len() && u2.o4s()[jj] == x;
                assert(u2.valid_idx(u2.o4s()[jj] as int));
            }
        }
    }
}

/// Law: in a well-formed triangulation — as built by the constructor and
/// preserved by every move — the recorded eligibility set agrees with the
/// eligibility predicate at every index: `i` is recorded exactly when
/// `eligible(i)` holds.
pub proof fn lemma_eligibility_set_exact(u: Universe, i: int)
    requires
        u.wf(),
        u.valid_idx(i),
    ensures
        u.in_o4(i as usize) <==> u.eligible(i),
{
    assert(u.o4_matches(i));
}

/// The triangle `n` rightward steps from `i`: the walk that traces `i`'s
/// spacelike ring.
pub open spec fn orbit(u: Universe, i: int, n: nat) -> int
    decreases n,
{
    if n == 0 {
        i
    } else {
        u.tri(orbit(u, i, (n - 1) as nat)).right as int
    }
}

/// Some triangle on `i`'s spacelike ring points the way `o` does.
pub open spec fn ring_carries(u: Universe, i: int, o: Orientation) -> bool {
    exists|n: nat| u.tri(#[trigger] orbit(u, i, n)).orientation == o
}

/// The ring through `i` holds at least one up and one down triangle.
pub open spec fn mixed_at(u: Universe, i: int) -> bool {
    &&& ring_carries(u, i, Orientation::Up)
    &&& ring_carries(u, i, Orientation::Down)
}

/// Every spacelike ring holds both orientations. This is the well-formed
/// weakening of strict alternation — which only a freshly built flat universe
/// satisfies, since any flip places two like-oriented triangles side by
/// side — and it is what the measuring walk's slice-origin search needs.
pub open spec fn ring_mixed(u: Universe) -> bool {
    forall|i: int| u.valid_idx(i) ==> #[trigger] mixed_at(u, i)
}

/// Every step of a ring walk lands on a valid index.
proof fn lemma_orbit_valid(u: Universe, i: int, n: nat)
    requires
        u.wf_links(),
        u.valid_idx(i),
    ensures
        u.valid_idx(orbit(u, i, n)),
    decreases n,
{
    if n > 0 {
        lemma_orbit_valid(u, i, (n - 1) as nat);
        assert(u.links_ok_at(orbit(u, i, (n - 1) as nat)));
    }
}

/// Ring walks compose: `m` steps and then `n` more is `m + n` steps.
proof fn lemma_orbit_compose(u: Universe, i: int, m: nat, n: nat)
    ensures
        orbit(u, i, m + n) == orbit(u, orbit(u, i, m), n),
    decreases n,
{
    if n > 0 {
        lemma_orbit_compose(u, i, m, (n - 1) as nat);
        assert(m + n - 1 == m + ((n - 1) as nat));
    }
}

/// On consistent rings the rightward step is injective.
proof fn lemma_right_injective(u: Universe, p: int, q: int)
    requires
        u.wf_links(),
        u.valid_idx(p),
        u.valid_idx(q),
        u.tri(p).right == u.tri(q).right,
    ensures
        p == q,
{
    assert(u.links_ok_at(p));
    assert(u.links_ok_at(q));
}

/// Cancelling a common prefix: if walks of `a` and `b` steps from `x` agree,
/// the difference closes a loop at `x`.
proof fn lemma_orbit_cancel(u: Universe, x: int, a: nat, b: nat)
    requires
        u.wf_links(),
        u.valid_idx(x),
        a <= b,
        orbit(u, x, a) == orbit(u, x, b),
    ensures
        orbit(u, x, (b - a) as nat) == x,
    decreases a,
{
    if a > 0 {
        lemma_orbit_valid(u, x, (a - 1) as nat);
        lemma_orbit_valid(u, x, (b - 1) as nat);
        lemma_right_injective(u, orbit(u, x, (a - 1) as nat), orbit(u, x, (b - 1) as nat));
        lemma_orbit_cancel(u, x, (a - 1) as nat, (b - 1) as nat);
    }
}

/// Every ring walk returns to its start within the arena size: rings are
/// finite cycles.
proof fn lemma_orbit_cycle(u: Universe, x: int)
    requires
        u.wf_links(),
        u.valid_idx(x),
    ensures
        exists|c: nat| 1 <= c <= u.trs().len() && orbit(u, x, c) == x,
{
    let n = u.trs().len() as int;
    let s = Seq::new((n + 1) as nat, |j: int| orbit(u, x, j as nat));
    assert forall|j: int| 0 <= j < s.len() implies 0 <= #[trigger] s[j] < n by {
        lemma_orbit_valid(u, x, j as nat);
    }
    // n + 1 walk lengths land on at most n triangles, so two must agree
    assert(!s.no_duplicates()) by {
        if s.no_duplicates() {
            s.unique_seq_to_set();
            assert forall|e: int| s.to_set().contains(e) implies vstd::set_lib::set_int_range(
                0,
                n,
            ).contains(e) by {
                let j = choose|j: int| 0 <= j < s.len() && s[j] == e;
            }
            vstd::set_lib::lemma_int_range(0, n);
            vstd::set_lib::lemma_len_subset(s.to_set(), vstd::set_lib::set_int_range(0, n));
        }
    }
    let (a, b) = choose|a: int, b: int|
        0 <= a < s.len() && 0 <= b < s.len() && a != b && s[a] == s[b];
    let lo = if a < b {
        a
    } else {
        b
    };
    let hi = if a < b {
        b
    } else {
        a
    };
    lemma_orbit_cancel(u, x, lo as nat, hi as nat);
    assert(orbit(u, x, (hi - lo) as nat) == x);
    assert(1 <= hi - lo <= u.trs().len());
}

/// A flip leaves every ring walk unchanged step for step.
proof fn lemma_orbit_unchanged(pre: Universe, post: Universe, i: int, n: nat)
    requires
        pre.wf_links(),
        pre.valid_idx(i),
        post.trs().len() == pre.trs().len(),
        forall|j: int| pre.valid_idx(j) ==> (#[trigger] post.tri(j)).right == pre.tri(j).right,
    ensures
        orbit(post, i, n) == orbit(pre, i, n),
    decreases n,
{
    if n > 0 {
        lemma_orbit_unchanged(pre, post, i, (n - 1) as nat);
        lemma_orbit_valid(pre, i, (n - 1) as nat);
    }
}

/// The ring through `i` still carries a triangle pointing the way `o` does
/// after a flip at `l`: the flip either leaves the witness alone or slides it
/// one ring position, and the ring is a cycle, so the slid witness is still
/// reached.
proof fn lemma_flip_carries(pre: Universe, post: Universe, l: int, i: int, o: Orientation)
    requires
        pre.wf(),
        pre.valid_idx(l),
        pre.tri(l).orientation != pre.tri(pre.tri(l).right as int).orientation,
        pre.tri(l).time != pre.tri(l).right,
        flip_rewired(pre, post, l),
        pre.valid_idx(i),
        ring_carries(pre, i, o),
    ensures
        ring_carries(post, i, o),
{
    let r = pre.tri(l).right as int;
    let ln = pre.tri(l).time as int;
    let rn = pre.tri(r).time as int;
    assert(pre.links_ok_at(l));
    assert(pre.links_ok_at(r));
    assert(pre.time_ok_at(l));
    assert(pre.time_ok_at(r));
    assert forall|j: int| pre.valid_idx(j) implies (#[trigger] post.tri(j)).right == pre.tri(
        j,
    ).right by {
        if j != l && j != r && j != ln && j != rn {
            assert(post.tri(j) == pre.tri(j));
        }
    }
    let n = choose|n: nat| pre.tri(#[trigger] orbit(pre, i, n)).orientation == o;
    let d = orbit(pre, i, n);
    lemma_orbit_valid(pre, i, n);
    lemma_orbit_unchanged(pre, post, i, n);
    if d != l && d != r {
        // the witness is untouched (the timelike partners keep their
        // orientations too)
        assert(post.tri(d).orientation == o) by {
            if d != ln && d != rn {
                assert(post.tri(d) == pre.tri(d));
            }
        }
        assert(post.tri(orbit(post, i, n)).orientation == o);
    } else if d == l {
        // the witness slid right onto `r`, one more step along the ring
        assert(post.tri(r).orientation == pre.tri(l).orientation);
        assert(orbit(pre, i, n + 1) == r);
        lemma_orbit_unchanged(pre, post, i, n + 1);
        assert(post.tri(orbit(post, i, n + 1)).orientation == o);
    } else {
        // the witness slid left onto `l`; the ring is a cycle, so `l` is
        // reached from `r` in one lap less a step
        assert(post.tri(l).orientation == pre.tri(r).orientation);
        lemma_orbit_cycle(pre, r);
        let c = choose|c: nat| 1 <= c <= pre.trs().len() && orbit(pre, r, c) == r;
        let p = orbit(pre, r, (c - 1) as nat);
        lemma_orbit_valid(pre, r, (c - 1) as nat);
        assert(pre.tri(p).right as int == orbit(pre, r, c));
        lemma_right_injective(pre, p, l);
        assert(orbit(pre, i, n + ((c - 1) as nat)) == l) by {
            lemma_orbit_compose(pre, i, n, (c - 1) as nat);
        }
        lemma_orbit_unchanged(pre, post, i, n + ((c - 1) as nat));
        assert(post.tri(orbit(post, i, n + ((c - 1) as nat))).orientation == o);
    }
}

/// Law: a flip preserves ring-mixedness. After flipping a flip-eligible pair,
/// every spacelike ring still holds at least one up and one down triangle
/// (strict alternation, by contrast, is broken by any flip).
pub proof fn lemma_flip_preserves_ring_mix(pre: Universe, post: Universe, l: int)
    requires
        pre.wf(),
        pre.valid_idx(l),
        pre.tri(l).orientation != pre.tri(pre.tri(l).right as int).orientation,
        pre.tri(l).time != pre.tri(l).right,
        flip_rewired(pre, post, l),
        ring_mixed(pre),
    ensures
        ring_mixed(post),
{
    assert forall|i: int| post.valid_idx(i) implies #[trigger] mixed_at(post, i) by {
        assert(pre.valid_idx(i));
        assert(mixed_at(pre, i));
        lemma_flip_carries(pre, post, l, i, Orientation::Up);
        lemma_flip_carries(pre, post, l, i, Orientation::Down);
    }
}

/// A freshly built flat universe is ring-mixed: strict alternation puts an up
/// triangle and a down triangle side by side on every ring, so each walk
/// meets both within one step.
pub proof fn lemma_flat_ring_mix(u: Universe, ts: int, l2: int)
    requires
        is_flat(u, ts, l2),
    ensures
        ring_mixed(u),
{
    assert forall|i: int| u.valid_idx(i) implies #[trigger] mixed_at(u, i) by {
        let t = i / l2;
        let b = i % l2;
        vstd::arithmetic::div_mod::lemma_fundamental_div_mod(i, l2);
        vstd::arithmetic::div_mod::lemma_mod_bound(i, l2);
        assert(0 <= t < ts) by (nonlinear_arith)
            requires
                i == l2 * t + b,
                0 <= b < l2,
                0 <= i < ts * l2,
                2 <= l2,
        ;
        lemma_flat_slot(u, ts, l2, t, b);
        let b2 = if b == l2 - 1 {
            0
        } else {
            b + 1
        };
        lemma_flat_slot(u, ts, l2, t, b2);
        assert(orbit(u, i, 1) == u.tri(i).right as int);
        assert(u.tri(i).right as int == t * l2 + b2);
        // the right neighbour has the opposite parity, so the opposite way
        vstd::arithmetic::div_mod::lemma_mod_bound(b, 2);
        assert(l2 == 2 * (l2 / 2)) by {
            vstd::arithmetic::div_mod::lemma_fundamental_div_mod(l2, 2);
        }
        lemma_fundamental_div_mod_converse(l2 - 1, 2, l2 / 2 - 1, 1);
        if b % 2 == 0 {
            assert(b == 2 * (b / 2)) by {
                vstd::arithmetic::div_mod::lemma_fundamental_div_mod(b, 2);
            }
            assert(b != l2 - 1);
            lemma_fundamental_div_mod_converse(b + 1, 2, b / 2, 1);
            assert(u.tri(orbit(u, i, 0)).orientation == Orientation::Up);
            assert(u.tri(orbit(u, i, 1)).orientation == Orientation::Down);
        } else {
            assert(b == 2 * (b / 2) + 1) by {
                vstd::arithmetic::div_mod::lemma_fundamental_div_mod(b, 2);
            }
            if b != l2 - 1 {
                lemma_fundamental_div_mod_converse(b + 1, 2, b / 2 + 1, 0);
            }
            assert(u.tri(orbit(u, i, 0)).orientation == Orientation::Down);
            assert(u.tri(orbit(u, i, 1)).orientation == Orientation::Up);
        }
        assert(ring_carries(u, i, Orientation::Up));
        assert(ring_carries(u, i, Orientation::Down));
    }
}

impl Universe {
    /// The orientation of the triangle at index `i`.
    pub fn orientation_of(&self, i: usize) -> (d: Orientation)
        requires
            self.valid_idx(i as int),
        ensures
            d == self.tri(i as int).orientation,
    {
        self.triangles[i].orientation
    }

    /// The timelike neighbour of the triangle at index `i`.
    pub fn time_of(&self, i: usize) -> (t: usize)
        requires
            self.valid_idx(i as int),
        ensures
            t == self.tri(i as int).time,
    {
        self.triangles[i].time
    }

    /// The left spacelike neighbour of the triangle at index `i`.
    pub fn left_of(&self, i: usize) -> (l: usize)
        requires
            self.valid_idx(i as int),
        ensures
            l == self.tri(i as int).left,
    {
        self.triangles[i].left
    }

    /// The right spacelike neighbour of the triangle at index `i`.
    pub fn right_of(&self, i: usize) -> (r: usize)
        requires
            self.valid_idx(i as int),
        ensures
            r == self.tri(i as int).right,
    {
        self.triangles[i].right
    }
}

/// One measured length profile: the number of spatial links (up triangles)
/// in each time-slice, in the order the slice walk visits them.
pub struct LengthProfile {
    entries: Vec<usize>,
}

impl LengthProfile {
    /// The measured per-slice counts.
    pub closed spec fn vals(self) -> Seq<usize> {
        self.entries@
    }

    /// How many slices the profile covers.
    pub fn len(&self) -> (n: usize)
        ensures
            n == self.vals().len(),
    {
        self.entries.len()
    }

    /// The measured length of slice `i`.
    pub fn get(&self, i: usize) -> (v: usize)
        requires
            (i as int) < self.vals().len(),
        ensures
            v == self.vals()[i as int],
    {
        self.entries[i]
    }

    /// The per-slice counts as a plain vector.
    pub fn values(&self) -> (v: &Vec<usize>)
        ensures
            v@ == self.vals(),
    {
        &self.entries
    }
}

/// The step budget of every slice walk: no walk in a consistent triangulation
/// visits a triangle twice, so the arena size bounds every ring and the
/// number of slices.
pub open spec fn walk_fuel(u: Universe) -> nat {
    u.trs().len()
}

/// The canonical origin of the slice containing `k`: the first down triangle
/// on the rightward walk from `k`, if the walk finds one within `fuel` steps.
pub open spec fn slice_origin_from(u: Universe, k: int, fuel: nat) -> Option<int>
    decreases fuel,
{
    if fuel == 0 {
        Option::None
    } else if u.tri(k).orientation == Orientation::Down {
        Option::Some(k)
    } else {
        slice_origin_from(u, u.tri(k).right as int, (fuel - 1) as nat)
    }
}

/// The rightward ring walk from `w` that counts up triangles on top of `acc`
/// until it reaches `stop` (closing the ring), or — when `exit_at_origin` is
/// set — the walk's global origin; the boolean of the result says whether it
/// ended at the global origin. Exhausting `fuel` means the triangulation is
/// corrupted.
pub open spec fn slice_walk(
    u: Universe,
    w: int,
    stop: int,
    origin: int,
    exit_at_origin: bool,
    acc: nat,
    fuel: nat,
) -> Option<(nat, bool)>
    decreases fuel,
{
    if fuel == 0 {
        Option::None
    } else if exit_at_origin && w == origin {
        Option::Some((acc, true))
    } else if w == stop {
        Option::Some((acc, false))
    } else {
        slice_walk(
            u,
            u.tri(w).right as int,
            stop,
            origin,
            exit_at_origin,
            if u.tri(w).orientation == Orientation::Up {
                acc + 1
            } else {
                acc
            },
            (fuel - 1) as nat,
        )
    }
}

/// The slice-by-slice walk of the whole triangulation from `marker`: find the
/// slice origin, count the slice's up triangles around its ring, advance to
/// the next slice through the origin's timelike link, and stop — discarding
/// the doubled count — once a ring walk after the first re-reaches the global
/// origin.
pub open spec fn profile_from(
    u: Universe,
    marker: int,
    origin: int,
    first: bool,
    fuel: nat,
) -> Option<Seq<usize>>
    decreases fuel,
{
    if fuel == 0 {
        Option::None
    } else {
        match slice_origin_from(u, marker, walk_fuel(u)) {
            Option::None => Option::None,
            Option::Some(so) => match slice_walk(
                u,
                u.tri(so).right as int,
                so,
                origin,
                !first,
                0,
                walk_fuel(u),
            ) {
                Option::None => Option::None,
                Option::Some((count, hit)) => if hit {
                    Option::Some(Seq::empty())
                } else {
                    match profile_from(u, u.tri(so).time as int, origin, false, (fuel - 1) as nat) {
                        Option::None => Option::None,
                        Option::Some(rest) => Option::Some(seq![count as usize] + rest),
                    }
                },
            },
        }
    }
}

/// What `length_profile` measures from `origin`: the per-slice length
/// sequence of the slice-by-slice walk, or nothing if the walk does not close
/// within its step budget (a corrupted triangulation).
pub open spec fn spec_length_profile(u: Universe, origin: int) -> Option<Seq<usize>> {
    profile_from(u, origin, origin, true, walk_fuel(u))
}

impl Universe {
    /// The first down triangle on the rightward walk from `k`, or nothing if
    /// a full step budget finds none (a corrupted triangulation).
    fn find_slice_origin(&self, k: usize) -> (r: Option<usize>)
        requires
            self.wf(),
            self.valid_idx(k as int),
        ensures
            (match r {
                Option::Some(so) => {
                    &&& slice_origin_from(*self, k as int, walk_fuel(*self)) == Option::Some(
                        so as int,
                    )
                    &&& self.valid_idx(so as int)
                    &&& self.tri(so as int).orientation == Orientation::Down
                },
                Option::None => slice_origin_from(
                    *self,
                    k as int,
                    walk_fuel(*self),
                ) is None,
            }),
    {
        let n = self.triangles.len();
        let mut cur = k;
        let mut steps: usize = 0;
        while steps < n
            invariant
                self.wf(),
                n == self.trs().len(),
                steps <= n,
                self.valid_idx(cur as int),
                slice_origin_from(*self, k as int, walk_fuel(*self)) == slice_origin_from(
                    *self,
                    cur as int,
                    (n - steps) as nat,
                ),
            decreases n - steps,
        {
            if self.triangles[cur].orientation == Orientation::Down {
                return Option::Some(cur);
            }
            proof {
                assert(self.links_ok_at(cur as int));
            }
            cur = self.triangles[cur].right;
            steps = steps + 1;
        }
        Option::None
    }

    /// Walks the ring from `start` counting up triangles until `stop` or —
    /// after the first slice — the global origin, within the step budget.
    fn walk_slice_count(&self, start: usize, stop: usize, origin: usize, exit_at_origin: bool) -> (r:
        Option<(usize, bool)>)
        requires
            self.wf(),
            self.valid_idx(start as int),
        ensures
            (match r {
                Option::Some(p) => slice_walk(
                    *self,
                    start as int,
                    stop as int,
                    origin as int,
                    exit_at_origin,
                    0,
                    walk_fuel(*self),
                ) == Option::Some((p.0 as nat, p.1)),
                Option::None => slice_walk(
                    *self,
                    start as int,
                    stop as int,
                    origin as int,
                    exit_at_origin,
                    0,
                    walk_fuel(*self),
                ) is None,
            }),
    {
        let n = self.triangles.len();
        let mut w = start;
        let mut acc: usize = 0;
        let mut steps: usize = 0;
        while steps < n
            invariant
                self.wf(),
                n == self.trs().len(),
                acc <= steps <= n,
                self.valid_idx(w as int),
                slice_walk(
                    *self,
                    start as int,
                    stop as int,
                    origin as int,
                    exit_at_origin,
                    0,
                    walk_fuel(*self),
                ) == slice_walk(
                    *self,
                    w as int,
                    stop as int,
                    origin as int,
                    exit_at_origin,
                    acc as nat,
                    (n - steps) as nat,
                ),
            decreases n - steps,
        {
            if exit_at_origin && w == origin {
                return Option::Some((acc, true));
            }
            if w == stop {
                return Option::Some((acc, false));
            }
            proof {
                assert(self.links_ok_at(w as int));
            }
            if self.triangles[w].orientation == Orientation::Up {
                acc = acc + 1;
            }
            w = self.triangles[w].right;
            steps = steps + 1;
        }
        Option::None
    }

    /// Measures the length profile: starting at `origin`, walk each slice's
    /// ring counting its up triangles (its spatial links), advance to the
    /// next slice through the slice origin's timelike link, and stop once the
    /// walk returns to `origin`, discarding the doubled slice. Returns
    /// nothing exactly where the slice-by-slice walk does not close within
    /// its step budget, which cannot happen in an intact triangulation and
    /// signals a corrupted one.
    pub fn length_profile(&self, origin: usize) -> (r: Option<LengthProfile>)
        requires
            self.wf(),
            self.valid_idx(origin as int),
        ensures
            (match r {
                Option::Some(p) => spec_length_profile(*self, origin as int) == Option::Some(
                    p.vals(),
                ),
                Option::None => spec_length_profile(*self, origin as int) is None,
            }),
    {
        let n = self.triangles.len();
        let mut lengths: Vec<usize> = Vec::new();
        let mut marker = origin;
        let mut first = true;
        let mut outer: usize = 0;
        proof {
            assert(Seq::<usize>::empty() + Seq::<usize>::empty() =~= Seq::<usize>::empty());
        }
        while outer < n
            invariant
                self.wf(),
                n == self.trs().len(),
                outer <= n,
                self.valid_idx(origin as int),
                self.valid_idx(marker as int),
                first == (outer == 0),
                (match profile_from(
                    *self,
                    marker as int,
                    origin as int,
                    first,
                    (n - outer) as nat,
                ) {
                    Option::None => spec_length_profile(*self, origin as int) is None,
                    Option::Some(rest) => spec_length_profile(*self, origin as int)
                        == Option::Some(lengths@ + rest),
                }),
            decreases n - outer,
        {
            let so = match self.find_slice_origin(marker) {
                Option::Some(s) => s,
                Option::None => {
                    return Option::None;
                },
            };
            proof {
                assert(self.links_ok_at(so as int));
            }
            let walk = self.walk_slice_count(self.triangles[so].right, so, origin, !first);
            let (count, hit) = match walk {
                Option::Some(p) => p,
                Option::None => {
                    return Option::None;
                },
            };
            if hit {
                // the ring walk closed on the global origin: profile complete
                proof {
                    assert(lengths@ + Seq::<usize>::empty() =~= lengths@);
                }
                return Option::Some(LengthProfile { entries: lengths });
            }
            let ghost prefix = lengths@;
            lengths.push(count);
            marker = self.triangles[so].time;
            first = false;
            outer = outer + 1;
            proof {
                assert forall|rest2: Seq<usize>| true implies prefix + (seq![count] + rest2)
                    =~= lengths@ + rest2 by {}
            }
        }
        Option::None
    }
}

/// One mesh vertex, addressed by time-slice and position around that slice.
#[derive(Clone, Copy, Debug, PartialEq, Eq, Structural)]
pub struct Vertex(pub usize, pub usize);

/// A mesh vertex is addressable against the length profile `p`: its slice
/// index stays within one wrap of the profile and its position lies within
/// the addressed slice's length.
pub open spec fn vertex_ok(p: Seq<usize>, v: Vertex) -> bool {
    &&& 1 <= p.len()
    &&& v.0 <= p.len()
    &&& (v.1 as int) < p[(v.0 as int) % (p.len() as int)]
}

/// All three corners of a mesh triangle are addressable against `p`.
pub open spec fn triple_ok(p: Seq<usize>, tr: (Vertex, Vertex, Vertex)) -> bool {
    &&& vertex_ok(p, tr.0)
    &&& vertex_ok(p, tr.1)
    &&& vertex_ok(p, tr.2)
}

/// One slice of the mesh walk: starting at `marker` with per-slice vertex
/// counters `lower` and `upper`, take `steps` rightward steps, emitting one
/// vertex triple per triangle — an up triangle spans two vertices of slice
/// `t` and one of the next, a down triangle two of the next and one of slice
/// `t` — while noting the first down triangle's timelike link as the next
/// slice's start. Yields the emitted triples, the final marker and that noted
/// link.
pub open spec fn mesh_slice(
    u: Universe,
    t: int,
    lt: int,
    lt1: int,
    marker: int,
    lower: int,
    upper: int,
    next_origin: Option<int>,
    steps: nat,
) -> (Seq<(Vertex, Vertex, Vertex)>, int, Option<int>)
    decreases steps,
{
    if steps == 0 {
        (Seq::empty(), marker, next_origin)
    } else if u.tri(marker).orientation == Orientation::Up {
        let ri = if lower + 1 == lt {
            0
        } else {
            lower + 1
        };
        let triple = (
            Vertex(t as usize, lower as usize),
            Vertex((t + 1) as usize, upper as usize),
            Vertex(t as usize, ri as usize),
        );
        let rest = mesh_slice(
            u,
            t,
            lt,
            lt1,
            u.tri(marker).right as int,
            ri,
            upper,
            next_origin,
            (steps - 1) as nat,
        );
        (seq![triple] + rest.0, rest.1, rest.2)
    } else {
        let no2 = if next_origin is None {
            Option::Some(u.tri(marker).time as int)
        } else {
            next_origin
        };
        let ri = if upper + 1 == lt1 {
            0
        } else {
            upper + 1
        };
        let triple = (
            Vertex((t + 1) as usize, upper as usize),
            Vertex((t + 1) as usize, ri as usize),
            Vertex(t as usize, lower as usize),
        );
        let rest = mesh_slice(
            u,
            t,
            lt,
            lt1,
            u.tri(marker).right as int,
            lower,
            ri,
            no2,
            (steps - 1) as nat,
        );
        (seq![triple] + rest.0, rest.1, rest.2)
    }
}

/// The mesh walk against profile `p` from slice `t` onward: each slice emits
/// `p[t] + p[t + 1]` triples (wrapping) and hands the walk to the next slice
/// through its first down triangle's timelike link. Nothing means a corrupted
/// triangulation: an empty slice, a slice count too large to span, or a ring
/// without a down triangle.
pub open spec fn mesh_from(
    u: Universe,
    p: Seq<usize>,
    t: int,
    marker: int,
    fuel: nat,
) -> Option<Seq<(Vertex, Vertex, Vertex)>>
    decreases fuel,
{
    if fuel == 0 {
        Option::Some(Seq::empty())
    } else {
        let tmax = p.len() as int;
        let lt = p[t] as int;
        let tnext = if t + 1 == tmax {
            0int
        } else {
            t + 1
        };
        let lt1 = p[tnext] as int;
        if lt == 0 || lt1 == 0 || lt1 > usize::MAX - lt {
            Option::None
        } else {
            let walk = mesh_slice(u, t, lt, lt1, marker, 0, 0, Option::None, (lt + lt1) as nat);
            match walk.2 {
                Option::None => Option::None,
                Option::Some(m) => match mesh_from(u, p, t + 1, m, (fuel - 1) as nat) {
                    Option::None => Option::None,
                    Option::Some(rest) => Option::Some(walk.0 + rest),
                },
            }
        }
    }
}

/// What `triangle_vertices` reconstructs from `origin`: the mesh walk over
/// the measured length profile, or nothing where the profile itself or the
/// walk signals a corrupted triangulation.
pub open spec fn spec_triangle_vertices(u: Universe, origin: int) -> Option<
    Seq<(Vertex, Vertex, Vertex)>,
> {
    match spec_length_profile(u, origin) {
        Option::None => Option::None,
        Option::Some(p) => if p.len() == 0 {
            Option::None
        } else {
            mesh_from(u, p, 0, origin, p.len())
        },
    }
}

impl Universe {
    /// Reconstructs a vertex triple for every triangle by replaying the slice
    /// walk from `origin` against the measured length profile: each up
    /// triangle spans two vertices of its own slice and one of the next, each
    /// down triangle two of the next and one of its own. Every emitted vertex
    /// is addressable against the profile, so a mesh embedding that places
    /// `profile[t]` vertices on ring `t` can resolve every corner. Returns
    /// nothing exactly where the profile or the mesh walk signals a corrupted
    /// triangulation (no profile, an empty or oversized slice, or a slice
    /// without a down triangle).
    pub fn triangle_vertices(&self, origin: usize) -> (r: Option<Vec<(Vertex, Vertex, Vertex)>>)
        requires
            self.wf(),
            self.valid_idx(origin as int),
        ensures
            (match r {
                Option::Some(v) => spec_triangle_vertices(*self, origin as int) == Option::Some(v@)
                    && (spec_length_profile(*self, origin as int) matches Option::Some(p) && (
                forall|k: int| 0 <= k < v@.len() ==> triple_ok(p, #[trigger] v@[k]))),
                Option::None => spec_triangle_vertices(*self, origin as int) is None,
            }),
    {
        let lengths = match self.length_profile(origin) {
            Option::Some(p) => p,
            Option::None => {
                return Option::None;
            },
        };
        let ghost p = lengths.vals();
        let t_max = lengths.len();
        if t_max == 0 {
            return Option::None;
        }
        let mut verts: Vec<(Vertex, Vertex, Vertex)> = Vec::new();
        let mut marker = origin;
        let mut t: usize = 0;
        proof {
            assert(Seq::<(Vertex, Vertex, Vertex)>::empty() + Seq::<(
                Vertex,
                Vertex,
                Vertex,
            )>::empty() =~= Seq::<(Vertex, Vertex, Vertex)>::empty());
        }
        while t < t_max
            invariant
                self.wf(),
                self.valid_idx(marker as int),
                t <= t_max,
                1 <= t_max,
                t_max == p.len(),
                p == lengths.vals(),
                spec_length_profile(*self, origin as int) == Option::Some(p),
                (match mesh_from(*self, p, t as int, marker as int, (t_max - t) as nat) {
                    Option::None => spec_triangle_vertices(*self, origin as int) is None,
                    Option::Some(rest) => spec_triangle_vertices(*self, origin as int)
                        == Option::Some(verts@ + rest),
                }),
                forall|k: int| 0 <= k < verts@.len() ==> triple_ok(p, #[trigger] verts@[k]),
            decreases t_max - t,
        {
            let lt = lengths.get(t);
            let tnext = if t + 1 == t_max {
                0
            } else {
                t + 1
            };
            let lt1 = lengths.get(tnext);
            if lt == 0 || lt1 == 0 {
                // a slice without spatial links: corrupted
                return Option::None;
            }
            if lt1 > usize::MAX - lt {
                return Option::None;
            }
            proof {
                lemma_fundamental_div_mod_converse(t as int, t_max as int, 0, t as int);
                if t + 1 == t_max {
                    lemma_fundamental_div_mod_converse(t + 1 as int, t_max as int, 1, 0);
                } else {
                    lemma_fundamental_div_mod_converse(t + 1 as int, t_max as int, 0, t + 1 as int);
                }
            }
            let span = lt + lt1;
            let mut lower: usize = 0;
            let mut upper: usize = 0;
            let mut next_origin: Option<usize> = Option::None;
            let mut s: usize = 0;
            let ghost vbase = verts@;
            let ghost full = mesh_slice(
                *self,
                t as int,
                lt as int,
                lt1 as int,
                marker as int,
                0,
                0,
                Option::None,
                span as nat,
            );
            while s < span
                invariant
                    self.wf(),
                    self.valid_idx(marker as int),
                    s <= span,
                    t < t_max,
                    t_max == p.len(),
                    p == lengths.vals(),
                    lt == p[t as int],
                    lt1 == p[tnext as int],
                    1 <= lt,
                    1 <= lt1,
                    span == lt + lt1,
                    lower < lt,
                    upper < lt1,
                    (t as int) % (t_max as int) == t as int,
                    ((t + 1) as int) % (t_max as int) == tnext as int,
                    (match next_origin {
                        Option::Some(m) => self.valid_idx(m as int),
                        Option::None => true,
                    }),
                    vbase.len() <= verts@.len(),
                    verts@.subrange(0, vbase.len() as int) == vbase,
                    (full == {
                        let part = mesh_slice(
                            *self,
                            t as int,
                            lt as int,
                            lt1 as int,
                            marker as int,
                            lower as int,
                            upper as int,
                            (match next_origin {
                                Option::Some(m) => Option::Some(m as int),
                                Option::None => Option::<int>::None,
                            }),
                            (span - s) as nat,
                        );
                        (
                            verts@.subrange(vbase.len() as int, verts@.len() as int) + part.0,
                            part.1,
                            part.2,
                        )
                    }),
                    forall|k: int| 0 <= k < verts@.len() ==> triple_ok(p, #[trigger] verts@[k]),
                decreases span - s,
            {
                proof {
                    assert(self.links_ok_at(marker as int));
                    assert(self.time_ok_at(marker as int));
                }
                let ghost emitted_pre = verts@.subrange(vbase.len() as int, verts@.len() as int);
                if self.triangles[marker].orientation == Orientation::Up {
                    let right_index = if lower + 1 == lt {
                        0
                    } else {
                        lower + 1
                    };
                    verts.push((Vertex(t, lower), Vertex(t + 1, upper), Vertex(t, right_index)));
                    lower = right_index;
                } else {
                    if next_origin.is_none() {
                        next_origin = Option::Some(self.triangles[marker].time);
                    }
                    let right_index = if upper + 1 == lt1 {
                        0
                    } else {
                        upper + 1
                    };
                    verts.push((Vertex(t + 1, upper), Vertex(t + 1, right_index), Vertex(t, lower)));
                    upper = right_index;
                }
                proof {
                    let last = verts@[verts@.len() - 1];
                    assert(verts@.subrange(0, vbase.len() as int) == vbase);
                    assert(verts@.subrange(vbase.len() as int, verts@.len() as int) =~= emitted_pre
                        + seq![last]);
                    assert forall|rest2: Seq<(Vertex, Vertex, Vertex)>|
                        true implies emitted_pre + (seq![last] + rest2) =~= (emitted_pre + seq![
                        last,
                    ]) + rest2 by {}
                }
                marker = self.triangles[marker].right;
                s = s + 1;
            }
            let ghost emitted = verts@.subrange(vbase.len() as int, verts@.len() as int);
            proof {
                assert(emitted + Seq::<(Vertex, Vertex, Vertex)>::empty() =~= emitted);
            }
            marker = match next_origin {
                Option::Some(m) => m,
                Option::None => {
                    // a slice ring without a down triangle: corrupted
                    return Option::None;
                },
            };
            t = t + 1;
            proof {
                assert forall|rest2: Seq<(Vertex, Vertex, Vertex)>|
                    true implies vbase + (emitted + rest2) =~= verts@ + rest2 by {
                    assert(vbase + emitted =~= verts@);
                }
            }
        }
        proof {
            assert(verts@ + Seq::<(Vertex, Vertex, Vertex)>::empty() =~= verts@);
        }
        Option::Some(verts)
    }
}

/// How many of `d` consecutive ring positions starting at `b` (wrapping at
/// `l2`) are even — in a flat slice, how many point up.
pub open spec fn ups_from(l2: int, b: int, d: nat) -> nat
    decreases d,
{
    if d == 0 {
        0
    } else {
        (if b % 2 == 0 {
            1nat
        } else {
            0nat
        }) + ups_from(
            l2,
            if b + 1 == l2 {
                0
            } else {
                b + 1
            },
            (d - 1) as nat,
        )
    }
}

/// Alternating positions: starting even, a span of `d` holds `(d + 1) / 2`
/// even positions; starting odd, `d / 2`.
proof fn lemma_ups_count(l2: int, b: int, d: nat)
    requires
        2 <= l2,
        l2 % 2 == 0,
        0 <= b < l2,
    ensures
        ups_from(l2, b, d) == if b % 2 == 0 {
            (((d + 1) / 2) as nat)
        } else {
            ((d / 2) as nat)
        },
    decreases d,
{
    if d > 0 {
        let b2 = if b + 1 == l2 {
            0
        } else {
            b + 1
        };
        lemma_ups_count(l2, b2, (d - 1) as nat);
    }
}

/// A ring walk of a flat slice that stops `d` steps ahead at `sb` (with the
/// global origin out of this slice, if it may exit there) counts exactly the
/// even positions it passes.
proof fn lemma_flat_walk(
    u: Universe,
    ts: int,
    l2: int,
    a: int,
    b: int,
    sb: int,
    origin: int,
    exitf: bool,
    acc: nat,
    d: nat,
    fuel: nat,
)
    requires
        is_flat(u, ts, l2),
        0 <= a < ts,
        0 <= b < l2,
        0 <= sb < l2,
        d < l2,
        sb == (if b + d < l2 {
            b + d
        } else {
            b + d - l2
        }),
        fuel >= d + 1,
        exitf ==> (origin < a * l2 || origin >= a * l2 + l2),
    ensures
        slice_walk(u, a * l2 + b, a * l2 + sb, origin, exitf, acc, fuel) == Option::Some(
            ((acc + ups_from(l2, b, d)) as nat, false),
        ),
    decreases d,
{
    lemma_flat_slot(u, ts, l2, a, b);
    lemma_flat_slot(u, ts, l2, a, sb);
    if d == 0 {
    } else {
        let b2 = if b + 1 == l2 {
            0
        } else {
            b + 1
        };
        let acc2: nat = if b % 2 == 0 {
            acc + 1
        } else {
            acc
        };
        lemma_flat_walk(u, ts, l2, a, b2, sb, origin, exitf, acc2, (d - 1) as nat, (fuel - 1) as nat);
    }
}

/// A ring walk of the origin's own slice, allowed to exit there, reaches the
/// origin `d` steps ahead — before it could close the ring — and reports the
/// hit.
proof fn lemma_flat_walk_hit(
    u: Universe,
    ts: int,
    l2: int,
    a: int,
    b: int,
    sb: int,
    origin: int,
    acc: nat,
    d: nat,
    ds: nat,
    fuel: nat,
)
    requires
        is_flat(u, ts, l2),
        0 <= a < ts,
        0 <= b < l2,
        0 <= sb < l2,
        d <= ds < l2,
        origin == a * l2 + (if b + d < l2 {
            b + d
        } else {
            b + d - l2
        }),
        sb == (if b + ds < l2 {
            b + ds
        } else {
            b + ds - l2
        }),
        fuel >= d + 1,
    ensures
        slice_walk(u, a * l2 + b, a * l2 + sb, origin, true, acc, fuel) matches Option::Some(p)
            && p.1,
    decreases d,
{
    lemma_flat_slot(u, ts, l2, a, b);
    lemma_flat_slot(u, ts, l2, a, sb);
    if d == 0 {
    } else {
        let b2 = if b + 1 == l2 {
            0
        } else {
            b + 1
        };
        let acc2: nat = if b % 2 == 0 {
            acc + 1
        } else {
            acc
        };
        lemma_flat_walk_hit(
            u,
            ts,
            l2,
            a,
            b2,
            sb,
            origin,
            acc2,
            (d - 1) as nat,
            (ds - 1) as nat,
            (fuel - 1) as nat,
        );
    }
}

/// In a flat slice, the first down triangle rightward of position `b` is `b`
/// itself if `b` is odd, else its immediate right neighbour.
proof fn lemma_flat_find(u: Universe, ts: int, l2: int, a: int, b: int, fuel: nat)
    requires
        is_flat(u, ts, l2),
        0 <= a < ts,
        0 <= b < l2,
        fuel >= 2,
    ensures
        slice_origin_from(u, a * l2 + b, fuel) == Option::Some(
            a * l2 + (if b % 2 == 1 {
                b
            } else {
                b + 1
            }),
        ),
        (if b % 2 == 1 {
            b
        } else {
            b + 1
        }) % 2 == 1,
        0 <= (if b % 2 == 1 {
            b
        } else {
            b + 1
        }) < l2,
{
    vstd::arithmetic::div_mod::lemma_mod_bound(b, 2);
    lemma_flat_slot(u, ts, l2, a, b);
    if b % 2 == 0 {
        assert(b == 2 * (b / 2)) by {
            vstd::arithmetic::div_mod::lemma_fundamental_div_mod(b, 2);
        }
        lemma_fundamental_div_mod_converse(b + 1, 2, b / 2, 1);
        assert(l2 == 2 * (l2 / 2)) by {
            vstd::arithmetic::div_mod::lemma_fundamental_div_mod(l2, 2);
        }
        lemma_fundamental_div_mod_converse(l2 - 1, 2, l2 / 2 - 1, 1);
        assert(b != l2 - 1);
        lemma_flat_slot(u, ts, l2, a, b + 1);
        assert(u.tri(a * l2 + b).orientation == Orientation::Up);
        assert(u.tri(a * l2 + b).right as int == a * l2 + b + 1);
        assert(slice_origin_from(u, a * l2 + b, fuel) == slice_origin_from(
            u,
            a * l2 + b + 1,
            (fuel - 1) as nat,
        ));
        assert(u.tri(a * l2 + b + 1).orientation == Orientation::Down);
        assert(slice_origin_from(u, a * l2 + b + 1, (fuel - 1) as nat) == Option::Some(
            a * l2 + b + 1,
        ));
    } else {
        assert(u.tri(a * l2 + b).orientation == Orientation::Down);
        assert(slice_origin_from(u, a * l2 + b, fuel) == Option::Some(a * l2 + b));
    }
}

/// The tail of the flat measuring walk: from the marker one slot left of the
/// slice origins, `dist` slices short of the origin's slice, it measures one
/// flat slice length per remaining slice and stops on the origin's slice.
proof fn lemma_flat_profile_tail(
    u: Universe,
    ts: int,
    l2: int,
    t0: int,
    j0: int,
    origin: int,
    a: int,
    dist: nat,
    fuel: nat,
)
    requires
        is_flat(u, ts, l2),
        0 <= t0 < ts,
        0 <= a < ts,
        j0 % 2 == 1,
        0 < j0 < l2,
        origin == t0 * l2 + j0 || origin == t0 * l2 + (j0 - 1),
        dist == (if a <= t0 {
            t0 - a
        } else {
            ts - a + t0
        }),
        fuel >= dist + 1,
    ensures
        profile_from(u, a * l2 + (j0 - 1), origin, false, fuel) == Option::Some(
            Seq::new(dist, |i: int| (l2 / 2) as usize),
        ),
    decreases dist,
{
    assert(walk_fuel(u) >= 2) by {
        assert(l2 <= ts * l2) by (nonlinear_arith)
            requires
                1 <= ts,
                0 <= l2,
        ;
    }
    lemma_flat_find(u, ts, l2, a, j0 - 1, walk_fuel(u));
    lemma_flat_slot(u, ts, l2, a, j0);
    let b = if j0 + 1 == l2 {
        0
    } else {
        j0 + 1
    };
    assert(b % 2 == 0) by {
        vstd::arithmetic::div_mod::lemma_mod_bound(j0, 2);
        assert(j0 == 2 * (j0 / 2) + 1) by {
            vstd::arithmetic::div_mod::lemma_fundamental_div_mod(j0, 2);
        }
        if j0 + 1 < l2 {
            lemma_fundamental_div_mod_converse(j0 + 1, 2, j0 / 2 + 1, 0);
        }
    }
    assert(walk_fuel(u) >= l2) by {
        assert(l2 <= ts * l2) by (nonlinear_arith)
            requires
                1 <= ts,
                0 <= l2,
        ;
    }
    // the slice origin's right neighbour starts the ring walk
    assert(u.tri(a * l2 + j0).right as int == a * l2 + b);
    if a == t0 {
        // the origin's own slice: the walk exits on the origin
        assert(dist == 0);
        let d: nat = if origin == t0 * l2 + j0 {
            (l2 - 1) as nat
        } else {
            (l2 - 2) as nat
        };
        lemma_flat_walk_hit(u, ts, l2, a, b, j0, origin, 0, d, (l2 - 1) as nat, walk_fuel(u));
        assert(Seq::new(0nat, |i: int| (l2 / 2) as usize) =~= Seq::<usize>::empty());
    } else {
        // an intermediate slice: a clean full ring of l2 / 2 up triangles
        assert(origin < a * l2 || origin >= a * l2 + l2) by {
            if a < t0 {
                assert((a + 1) * l2 <= t0 * l2 && (a + 1) * l2 == a * l2 + l2) by (nonlinear_arith)
                    requires
                        a + 1 <= t0,
                        0 <= l2,
                ;
            } else {
                assert((t0 + 1) * l2 <= a * l2 && (t0 + 1) * l2 == t0 * l2 + l2) by (
                nonlinear_arith)
                    requires
                        t0 + 1 <= a,
                        0 <= l2,
                ;
            }
        }
        lemma_flat_walk(u, ts, l2, a, b, j0, origin, true, 0, (l2 - 1) as nat, walk_fuel(u));
        lemma_ups_count(l2, b, (l2 - 1) as nat);
        // advance through the slice origin's timelike link
        let a2 = if a == ts - 1 {
            0
        } else {
            a + 1
        };
        assert(u.tri(a * l2 + j0).time as int == a2 * l2 + (j0 - 1)) by {
            assert(0 <= a2 * l2 + (j0 - 1) < ts * l2) by (nonlinear_arith)
                requires
                    0 <= a2 < ts,
                    0 < j0 < l2,
            ;
        }
        let dist2: nat = (dist - 1) as nat;
        assert(dist2 == (if a2 <= t0 {
            t0 - a2
        } else {
            ts - a2 + t0
        }));
        lemma_flat_profile_tail(u, ts, l2, t0, j0, origin, a2, dist2, (fuel - 1) as nat);
        assert(seq![(l2 / 2) as usize] + Seq::new(dist2, |i: int| (l2 / 2) as usize) =~= Seq::new(
            dist,
            |i: int| (l2 / 2) as usize,
        ));
    }
}

/// Law: a freshly built flat universe measures the flat profile from every
/// origin. With `timespan` slices of `2 * length` triangles, the length
/// profile from any valid origin is defined, has exactly `timespan` entries,
/// and every entry is `length` — so its sum is half the triangle count and is
/// the same whatever origin is chosen.
pub proof fn lemma_flat_length_profile(u: Universe, timespan: int, length: int, origin: int)
    requires
        is_flat(u, timespan, 2 * length),
        0 <= origin < u.trs().len(),
    ensures
        spec_length_profile(u, origin) == Option::Some(
            Seq::new(timespan as nat, |i: int| length as usize),
        ),
{
    let ts = timespan;
    let l2 = 2 * length;
    let t0 = origin / l2;
    let i0 = origin % l2;
    vstd::arithmetic::div_mod::lemma_fundamental_div_mod(origin, l2);
    vstd::arithmetic::div_mod::lemma_mod_bound(origin, l2);
    assert(0 <= t0 < ts) by (nonlinear_arith)
        requires
            origin == l2 * t0 + i0,
            0 <= i0 < l2,
            0 <= origin < ts * l2,
            2 <= l2,
    ;
    assert(origin == t0 * l2 + i0) by (nonlinear_arith)
        requires
            origin == l2 * t0 + i0,
    ;
    assert(walk_fuel(u) >= l2 && walk_fuel(u) >= ts + 1) by {
        assert(l2 <= ts * l2 && ts + 1 <= ts * l2) by (nonlinear_arith)
            requires
                1 <= ts,
                2 <= l2,
        ;
    }
    lemma_flat_find(u, ts, l2, t0, i0, walk_fuel(u));
    let j0 = if i0 % 2 == 1 {
        i0
    } else {
        i0 + 1
    };
    lemma_flat_slot(u, ts, l2, t0, j0);
    let b = if j0 + 1 == l2 {
        0
    } else {
        j0 + 1
    };
    assert(b % 2 == 0) by {
        vstd::arithmetic::div_mod::lemma_mod_bound(j0, 2);
        assert(j0 == 2 * (j0 / 2) + 1) by {
            vstd::arithmetic::div_mod::lemma_fundamental_div_mod(j0, 2);
        }
        if j0 + 1 < l2 {
            lemma_fundamental_div_mod_converse(j0 + 1, 2, j0 / 2 + 1, 0);
        }
    }
    assert(u.tri(t0 * l2 + j0).right as int == t0 * l2 + b);
    // the first slice is walked without an origin exit: a clean full ring
    lemma_flat_walk(u, ts, l2, t0, b, j0, origin, false, 0, (l2 - 1) as nat, walk_fuel(u));
    lemma_ups_count(l2, b, (l2 - 1) as nat);
    // then the walk advances slice by slice until it returns to the origin's
    let a2 = if t0 == ts - 1 {
        0
    } else {
        t0 + 1
    };
    assert(u.tri(t0 * l2 + j0).time as int == a2 * l2 + (j0 - 1)) by {
        assert(0 <= a2 * l2 + (j0 - 1) < ts * l2) by (nonlinear_arith)
            requires
                0 <= a2 < ts,
                0 < j0 < l2,
        ;
    }
    let dist: nat = (ts - 1) as nat;
    assert(dist == (if a2 <= t0 {
        t0 - a2
    } else {
        ts - a2 + t0
    }));
    lemma_flat_profile_tail(u, ts, l2, t0, j0, origin, a2, dist, (walk_fuel(u) - 1) as nat);
    assert(seq![(l2 / 2) as usize] + Seq::new(dist, |i: int| (l2 / 2) as usize) =~= Seq::new(
        ts as nat,
        |i: int| (l2 / 2) as usize,
    ));
    assert(l2 / 2 == length) by (nonlinear_arith)
        requires
            l2 == 2 * length,
    ;
    assert(Seq::new(ts as nat, |i: int| (l2 / 2) as usize) =~= Seq::new(
        ts as nat,
        |i: int| length as usize,
    ));
}

/// The total of a measured profile's per-slice counts.
pub open spec fn sum_of(s: Seq<usize>) -> int
    decreases s.len(),
{
    if s.len() == 0 {
        0
    } else {
        sum_of(s.drop_last()) + s.last()
    }
}

/// A constant sequence sums to its length times the constant.
proof fn lemma_sum_const(m: nat, c: usize)
    ensures
        sum_of(Seq::new(m, |i: int| c)) == m * c,
    decreases m,
{
    let s = Seq::new(m, |i: int| c);
    if m > 0 {
        lemma_sum_const((m - 1) as nat, c);
        assert(s.drop_last() =~= Seq::new((m - 1) as nat, |i: int| c));
        assert(s.last() == c);
        assert(sum_of(s) == sum_of(Seq::new((m - 1) as nat, |i: int| c)) + c);
        assert(((m - 1) as nat) * c + c == m * c) by (nonlinear_arith)
            requires
                m >= 1,
        ;
    } else {
        assert(sum_of(s) == 0);
        assert(m * c == 0) by (nonlinear_arith)
            requires
                m == 0,
        ;
    }
}

/// Law: the length profile of a flat universe is well-formed from every
/// origin: it is defined, covers exactly `timespan` slices, and its total is
/// half the triangle count — the same total whatever origin is chosen.
pub proof fn lemma_flat_profile_sum(u: Universe, timespan: int, length: int, origin: int)
    requires
        is_flat(u, timespan, 2 * length),
        0 <= origin < u.trs().len(),
    ensures
        spec_length_profile(u, origin) matches Option::Some(p) && p.len() == timespan && sum_of(p)
            * 2 == u.trs().len(),
{
    lemma_flat_length_profile(u, timespan, length, origin);
    assert(2 * length <= timespan * (2 * length)) by (nonlinear_arith)
        requires
            1 <= timespan,
            0 <= length,
    ;
    lemma_sum_const(timespan as nat, length as usize);
    assert((length as usize) as int == length);
    assert(timespan * ((length as usize) as int) * 2 == timespan * (2 * length))
        by (nonlinear_arith)
        requires
            (length as usize) as int == length,
    ;
}

} // verus!
