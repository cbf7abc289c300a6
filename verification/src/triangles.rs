//! A simpler variant of the triangulation engine, kept alongside the full
//! engine: the same arena-of-triangles data model, with a constructor that
//! takes a total triangle budget instead of a per-slice length, a
//! slice-walking length measurement, and a move dispatcher that flips or
//! relocates depending on the orientations it finds at the chosen position.

use vstd::arithmetic::div_mod::lemma_fundamental_div_mod_converse;
use vstd::prelude::*;

verus! {

/// Which way a triangle points.
#[derive(Clone, Copy, Debug, PartialEq, Eq, Structural)]
pub enum Direction {
    Up,
    Down,
}

/// One triangle record: its direction and the arena indices of its spacelike
/// (`left`, `right`) and timelike (`time`) neighbours.
#[derive(Clone, Copy, Debug, PartialEq, Eq, Structural)]
pub struct Triangle {
    pub direction: Direction,
    pub left: usize,
    pub time: usize,
    pub right: usize,
}

/// The triangulation: a dense arena of triangle records.
pub struct Universe {
    triangles: Vec<Triangle>,
}

impl Universe {
    /// The arena contents, as a sequence of triangle records.
    pub closed spec fn trs(self) -> Seq<Triangle> {
        self.triangles@
    }

    /// The triangle record at index `i`.
    pub open spec fn tri(self, i: int) -> Triangle {
        self.trs()[i]
    }

    /// `i` is a valid arena index.
    pub open spec fn valid_idx(self, i: int) -> bool {
        0 <= i < self.trs().len()
    }

    /// All three links of triangle `i` are in bounds.
    pub open spec fn bounded_at(self, i: int) -> bool {
        &&& self.valid_idx(self.tri(i).left as int)
        &&& self.valid_idx(self.tri(i).right as int)
        &&& self.valid_idx(self.tri(i).time as int)
    }

    /// Every link of every triangle is in bounds.
    pub open spec fn links_bounded(self) -> bool {
        forall|i: int| self.valid_idx(i) ==> #[trigger] self.bounded_at(i)
    }

    /// The number of triangles in the arena.
    pub fn triangle_count(&self) -> (n: usize)
        ensures
            n == self.trs().len(),
    {
        self.triangles.len()
    }

    /// The direction of the triangle at index `i`.
    pub fn direction_of(&self, i: usize) -> (d: Direction)
        requires
            self.valid_idx(i as int),
        ensures
            d == self.tri(i as int).direction,
    {
        self.triangles[i].direction
    }

    /// The timelike neighbour of the triangle at index `i`.
    pub fn time_of(&self, i: usize) -> (t: usize)
        requires
            self.valid_idx(i as int),
        ensures
            t == self.tri(i as int).time,
    {
        self.triangles[i].time
    }

    /// The left spacelike neighbour of the triangle at index `i`.
    pub fn left_of(&self, i: usize) -> (l: usize)
        requires
            self.valid_idx(i as int),
        ensures
            l == self.tri(i as int).left,
    {
        self.triangles[i].left
    }

    /// The right spacelike neighbour of the triangle at index `i`.
    pub fn right_of(&self, i: usize) -> (r: usize)
        requires
            self.valid_idx(i as int),
        ensures
            r == self.tri(i as int).right,
    {
        self.triangles[i].right
    }
}

/// Exactly what flipping the pair `toup` (to become up) and `todown` (to
/// become down) does to the arena: rewrite the two directions, then exchange
/// the timelike partners so that each of the four corners points at its new
/// opposite, in the order the engine performs the writes.
pub open spec fn flipped_seq(trs: Seq<Triangle>, toup: int, todown: int) -> Seq<Triangle> {
    let s1 = trs.update(
        toup,
        (Triangle {
            direction: Direction::Up,
            left: trs[toup].left,
            time: trs[toup].time,
            right: trs[toup].right,
        }),
    );
    let s2 = s1.update(
        todown,
        (Triangle {
            direction: Direction::Down,
            left: s1[todown].left,
            time: s1[todown].time,
            right: s1[todown].right,
        }),
    );
    let above = s2[toup].time as int;
    let below = s2[todown].time as int;
    let s3 = s2.update(
        toup,
        (Triangle {
            direction: s2[toup].direction,
            left: s2[toup].left,
            time: below as usize,
            right: s2[toup].right,
        }),
    );
    let s4 = s3.update(
        todown,
        (Triangle {
            direction: s3[todown].direction,
            left: s3[todown].left,
            time: above as usize,
            right: s3[todown].right,
        }),
    );
    let s5 = s4.update(
        above,
        (Triangle {
            direction: s4[above].direction,
            left: s4[above].left,
            time: todown as usize,
            right: s4[above].right,
        }),
    );
    let s6 = s5.update(
        below,
        (Triangle {
            direction: s5[below].direction,
            left: s5[below].left,
            time: toup as usize,
            right: s5[below].right,
        }),
    );
    s6
}

/// Exactly what relocating the shard pair at `op` (with its timelike partner)
/// to the right of `np` does to the arena: close the two gaps the pair leaves
/// behind, pick the destination half of matching direction, and relink the
/// pair to the right of it — each read taken from the arena as the preceding
/// writes left it, in the order the engine performs them.
pub open spec fn shard_moved_seq(trs: Seq<Triangle>, op: int, onr: int, np: int) -> Seq<
    Triangle,
> {
    let onl = trs[op].left as int;
    let s1 = trs.update(
        onr,
        (Triangle {
            direction: trs[onr].direction,
            left: onl as usize,
            time: trs[onr].time,
            right: trs[onr].right,
        }),
    );
    let s2 = s1.update(
        onl,
        (Triangle {
            direction: s1[onl].direction,
            left: s1[onl].left,
            time: s1[onl].time,
            right: onr as usize,
        }),
    );
    let opt = s2[op].time as int;
    let otr = s2[opt].right as int;
    let otl = s2[opt].left as int;
    let s3 = s2.update(
        otr,
        (Triangle {
            direction: s2[otr].direction,
            left: otl as usize,
            time: s2[otr].time,
            right: s2[otr].right,
        }),
    );
    let s4 = s3.update(
        otl,
        (Triangle {
            direction: s3[otl].direction,
            left: s3[otl].left,
            time: s3[otl].time,
            right: otr as usize,
        }),
    );
    let same = s4[np].direction == s4[op].direction;
    let nnl = if same {
        np
    } else {
        s4[np].time as int
    };
    let ntl = if same {
        s4[np].time as int
    } else {
        np
    };
    let nnr = s4[nnl].right as int;
    let ntr = s4[ntl].right as int;
    let s5 = s4.update(
        nnl,
        (Triangle {
            direction: s4[nnl].direction,
            left: s4[nnl].left,
            time: s4[nnl].time,
            right: op as usize,
        }),
    );
    let s6 = s5.update(
        ntl,
        (Triangle {
            direction: s5[ntl].direction,
            left: s5[ntl].left,
            time: s5[ntl].time,
            right: opt as usize,
        }),
    );
    let s7 = s6.update(
        nnr,
        (Triangle {
            direction: s6[nnr].direction,
            left: op as usize,
            time: s6[nnr].time,
            right: s6[nnr].right,
        }),
    );
    let s8 = s7.update(
        ntr,
        (Triangle {
            direction: s7[ntr].direction,
            left: opt as usize,
            time: s7[ntr].time,
            right: s7[ntr].right,
        }),
    );
    let s9 = s8.update(
        op,
        (Triangle {
            direction: s8[op].direction,
            left: nnl as usize,
            time: s8[op].time,
            right: s8[op].right,
        }),
    );
    let s10 = s9.update(
        op,
        (Triangle {
            direction: s9[op].direction,
            left: s9[op].left,
            time: s9[op].time,
            right: nnr as usize,
        }),
    );
    let s11 = s10.update(
        opt,
        (Triangle {
            direction: s10[opt].direction,
            left: ntl as usize,
            time: s10[opt].time,
            right: s10[opt].right,
        }),
    );
    let s12 = s11.update(
        opt,
        (Triangle {
            direction: s11[opt].direction,
            left: s11[opt].left,
            time: s11[opt].time,
            right: ntr as usize,
        }),
    );
    s12
}

/// What one move at `position` does: flip the pair where the two directions
/// differ (the down triangle becoming up), relocate the shard to
/// `new_position` where they agree.
pub open spec fn moved_seq(trs: Seq<Triangle>, position: int, new_position: int) -> Seq<
    Triangle,
> {
    let neighbour = trs[position].right as int;
    if trs[position].direction == Direction::Up {
        if trs[neighbour].direction == Direction::Down {
            flipped_seq(trs, neighbour, position)
        } else {
            shard_moved_seq(trs, position, neighbour, new_position)
        }
    } else {
        if trs[neighbour].direction == Direction::Up {
            flipped_seq(trs, position, neighbour)
        } else {
            shard_moved_seq(trs, position, neighbour, new_position)
        }
    }
}

impl Universe {
    /// Overwrites the direction of triangle `i`.
    fn set_direction(&mut self, i: usize, v: Direction)
        requires
            old(self).valid_idx(i as int),
        ensures
            final(self).trs() == old(self).trs().update(
                i as int,
                (Triangle {
                    direction: v,
                    left: old(self).tri(i as int).left,
                    time: old(self).tri(i as int).time,
                    right: old(self).tri(i as int).right,
                }),
            ),
    {
        let mut tr = self.triangles[i];
        tr.direction = v;
        self.triangles.set(i, tr);
    }

    /// Overwrites the timelike link of triangle `i`.
    fn set_time(&mut self, i: usize, v: usize)
        requires
            old(self).valid_idx(i as int),
        ensures
            final(self).trs() == old(self).trs().update(
                i as int,
                (Triangle {
                    direction: old(self).tri(i as int).direction,
                    left: old(self).tri(i as int).left,
                    time: v,
                    right: old(self).tri(i as int).right,
                }),
            ),
    {
        let mut tr = self.triangles[i];
        tr.time = v;
        self.triangles.set(i, tr);
    }

    /// Overwrites the left spacelike link of triangle `i`.
    fn set_left(&mut self, i: usize, v: usize)
        requires
            old(self).valid_idx(i as int),
        ensures
            final(self).trs() == old(self).trs().update(
                i as int,
                (Triangle {
                    direction: old(self).tri(i as int).direction,
                    left: v,
                    time: old(self).tri(i as int).time,
                    right: old(self).tri(i as int).right,
                }),
            ),
    {
        let mut tr = self.triangles[i];
        tr.left = v;
        self.triangles.set(i, tr);
    }

    /// Overwrites the right spacelike link of triangle `i`.
    fn set_right(&mut self, i: usize, v: usize)
        requires
            old(self).valid_idx(i as int),
        ensures
            final(self).trs() == old(self).trs().update(
                i as int,
                (Triangle {
                    direction: old(self).tri(i as int).direction,
                    left: old(self).tri(i as int).left,
                    time: old(self).tri(i as int).time,
                    right: v,
                }),
            ),
    {
        let mut tr = self.triangles[i];
        tr.right = v;
        self.triangles.set(i, tr);
    }

    /// Flips the adjacent pair `toup`, `todown` so that `toup` points up and
    /// `todown` points down, exchanging their timelike partners.
    pub fn flip_triangles(&mut self, toup: usize, todown: usize)
        requires
            old(self).valid_idx(toup as int),
            old(self).valid_idx(todown as int),
            old(self).valid_idx(old(self).tri(toup as int).time as int),
            old(self).valid_idx(old(self).tri(todown as int).time as int),
        ensures
            final(self).trs() == flipped_seq(old(self).trs(), toup as int, todown as int),
            final(self).trs().len() == old(self).trs().len(),
    {
        self.set_direction(toup, Direction::Up);
        self.set_direction(todown, Direction::Down);
        let above = self.triangles[toup].time;
        let below = self.triangles[todown].time;
        self.set_time(toup, below);
        self.set_time(todown, above);
        self.set_time(above, todown);
        self.set_time(below, toup);
    }

    /// Relocates the shard pair at `old_position` (whose ring neighbour to
    /// the right is `old_neighbour_right`) to the right of `new_position`,
    /// closing the gaps it leaves behind and matching each half of the shard
    /// to the destination half of its own direction.
    pub fn move_shard(
        &mut self,
        old_position: usize,
        old_neighbour_right: usize,
        new_position: usize,
    )
        requires
            old(self).links_bounded(),
            old(self).valid_idx(old_position as int),
            old(self).valid_idx(old_neighbour_right as int),
            old(self).valid_idx(new_position as int),
        ensures
            final(self).trs() == shard_moved_seq(
                old(self).trs(),
                old_position as int,
                old_neighbour_right as int,
                new_position as int,
            ),
            final(self).trs().len() == old(self).trs().len(),
    {
        let ghost pre = *old(self);
        proof {
            assert(pre.bounded_at(old_position as int));
            assert(pre.bounded_at(old_neighbour_right as int));
            assert(pre.bounded_at(new_position as int));
        }
        let old_neighbour_left = self.triangles[old_position].left;
        proof {
            assert(pre.bounded_at(old_neighbour_left as int));
        }
        self.set_left(old_neighbour_right, old_neighbour_left);
        self.set_right(old_neighbour_left, old_neighbour_right);
        let old_position_time = self.triangles[old_position].time;
        proof {
            assert(pre.bounded_at(old_position_time as int));
        }
        let old_time_right = self.triangles[old_position_time].right;
        let old_time_left = self.triangles[old_position_time].left;
        proof {
            assert(pre.bounded_at(pre.tri(old_position_time as int).right as int));
            assert(pre.bounded_at(pre.tri(old_position_time as int).left as int));
        }
        self.set_left(old_time_right, old_time_left);
        self.set_right(old_time_left, old_time_right);
        let (new_neighbour_left, new_time_left) = if self.triangles[new_position].direction
            == self.triangles[old_position].direction {
            (new_position, self.triangles[new_position].time)
        } else {
            (self.triangles[new_position].time, new_position)
        };
        proof {
            assert(pre.bounded_at(pre.tri(new_position as int).time as int));
        }
        let new_neighbour_right = self.triangles[new_neighbour_left].right;
        let new_time_right = self.triangles[new_time_left].right;
        proof {
            assert(pre.bounded_at(pre.tri(new_neighbour_left as int).right as int));
            assert(pre.bounded_at(pre.tri(new_time_left as int).right as int));
        }
        self.set_right(new_neighbour_left, old_position);
        self.set_right(new_time_left, old_position_time);
        self.set_left(new_neighbour_right, old_position);
        self.set_left(new_time_right, old_position_time);
        self.set_left(old_position, new_neighbour_left);
        self.set_right(old_position, new_neighbour_right);
        self.set_left(old_position_time, new_time_left);
        self.set_right(old_position_time, new_time_right);
    }

    /// Performs one move at `position`: a flip if the pair's directions
    /// differ (turning an up-down pair into down-up, or the reverse), a shard
    /// relocation to `new_position` if they agree.
    pub fn do_move(&mut self, position: usize, new_position: usize)
        requires
            old(self).links_bounded(),
            old(self).valid_idx(position as int),
            old(self).valid_idx(new_position as int),
        ensures
            final(self).trs() == moved_seq(old(self).trs(), position as int, new_position as int),
            final(self).trs().len() == old(self).trs().len(),
    {
        proof {
            assert(old(self).bounded_at(position as int));
        }
        let neighbour = self.triangles[position].right;
        proof {
            assert(old(self).bounded_at(neighbour as int));
        }
        if self.triangles[position].direction == Direction::Up {
            if self.triangles[neighbour].direction == Direction::Down {
                self.flip_triangles(neighbour, position);
            } else {
                self.move_shard(position, neighbour, new_position);
            }
        } else {
            if self.triangles[neighbour].direction == Direction::Up {
                self.flip_triangles(position, neighbour);
            } else {
                self.move_shard(position, neighbour, new_position);
            }
        }
    }
}

/// One slice of the measuring walk: note the first down triangle seen,
/// step right, and exit when the step reaches the walk's global start (once
/// past the first slice) or closes the ring on the slice's own start. The
/// count is the number of triangles the slice holds; the boolean says whether
/// the walk closed on the global start. Nothing means the ring walk did not
/// close within its step budget (a corrupted triangulation).
pub open spec fn ring_walk(
    u: Universe,
    key: int,
    slice_start: int,
    start: int,
    allow_start_exit: bool,
    down: Option<int>,
    acc: nat,
    fuel: nat,
) -> Option<(nat, Option<int>, bool)>
    decreases fuel,
{
    if fuel == 0 {
        Option::None
    } else {
        let down2 = if down is None && u.tri(key).direction == Direction::Down {
            Option::Some(key)
        } else {
            down
        };
        let key2 = u.tri(key).right as int;
        if allow_start_exit && key2 == start {
            Option::Some((acc, down2, true))
        } else if key2 == slice_start {
            Option::Some((acc, down2, false))
        } else {
            ring_walk(
                u,
                key2,
                slice_start,
                start,
                allow_start_exit,
                down2,
                acc + 1,
                (fuel - 1) as nat,
            )
        }
    }
}

/// The slice-by-slice measuring walk from `key`: count each slice's ring,
/// advance through the first down triangle's timelike link, and stop —
/// discarding the doubled count — when a ring walk past the first re-reaches
/// the global start. Nothing means a ring without a down triangle or an
/// exhausted budget (a corrupted triangulation).
pub open spec fn profile_rec(u: Universe, key: int, start: int, first: bool, fuel: nat) -> Option<
    Seq<usize>,
>
    decreases fuel,
{
    if fuel == 0 {
        Option::None
    } else {
        match ring_walk(u, key, key, start, !first, Option::None, 1, u.trs().len()) {
            Option::None => Option::None,
            Option::Some((count, down, hit)) => {
                if hit {
                    Option::Some(Seq::empty())
                } else {
                    match down {
                        Option::None => Option::None,
                        Option::Some(d) => match profile_rec(
                            u,
                            u.tri(d).time as int,
                            start,
                            false,
                            (fuel - 1) as nat,
                        ) {
                            Option::None => Option::None,
                            Option::Some(rest) => Option::Some(seq![count as usize] + rest),
                        },
                    }
                }
            },
        }
    }
}

/// What `lengths` measures: the per-slice triangle counts of the walk from
/// index zero, or an empty sequence where the arena is empty or the walk
/// signals a corrupted triangulation.
pub open spec fn spec_lengths(u: Universe) -> Seq<usize> {
    if u.trs().len() == 0 {
        Seq::empty()
    } else {
        match profile_rec(u, 0, 0, true, u.trs().len() / 2 + 1) {
            Option::None => Seq::empty(),
            Option::Some(s) => s,
        }
    }
}

impl Universe {
    /// Walks one slice ring from `slice_start`, counting its triangles and
    /// noting its first down triangle, with the measuring walk's
    /// exits.
    fn walk_slice(&self, slice_start: usize, start: usize, allow_start_exit: bool) -> (r: Option<
        (usize, Option<usize>, bool),
    >)
        requires
            self.links_bounded(),
            self.valid_idx(slice_start as int),
        ensures
            (match r {
                Option::Some(w) => {
                    &&& ring_walk(
                        *self,
                        slice_start as int,
                        slice_start as int,
                        start as int,
                        allow_start_exit,
                        Option::None,
                        1,
                        self.trs().len(),
                    ) == Option::Some(
                        (
                            w.0 as nat,
                            (match w.1 {
                                Option::Some(d) => Option::Some(d as int),
                                Option::None => Option::<int>::None,
                            }),
                            w.2,
                        ),
                    )
                    &&& (w.1 matches Option::Some(d) ==> self.valid_idx(d as int))
                },
                Option::None => ring_walk(
                    *self,
                    slice_start as int,
                    slice_start as int,
                    start as int,
                    allow_start_exit,
                    Option::None,
                    1,
                    self.trs().len(),
                ) is None,
            }),
    {
        let n = self.triangles.len();
        let mut key = slice_start;
        let mut down: Option<usize> = Option::None;
        let mut steps: usize = 0;
        while steps < n
            invariant
                self.links_bounded(),
                n == self.trs().len(),
                steps <= n,
                self.valid_idx(key as int),
                (match down {
                    Option::Some(d) => self.valid_idx(d as int),
                    Option::None => true,
                }),
                ring_walk(
                    *self,
                    slice_start as int,
                    slice_start as int,
                    start as int,
                    allow_start_exit,
                    Option::None,
                    1,
                    n as nat,
                ) == ring_walk(
                    *self,
                    key as int,
                    slice_start as int,
                    start as int,
                    allow_start_exit,
                    (match down {
                        Option::Some(d) => Option::Some(d as int),
                        Option::None => Option::<int>::None,
                    }),
                    (steps + 1) as nat,
                    (n - steps) as nat,
                ),
            decreases n - steps,
        {
            proof {
                assert(self.bounded_at(key as int));
            }
            if down.is_none() && self.triangles[key].direction == Direction::Down {
                down = Option::Some(key);
            }
            let key2 = self.triangles[key].right;
            if allow_start_exit && key2 == start {
                return Option::Some((steps + 1, down, true));
            }
            if key2 == slice_start {
                return Option::Some((steps + 1, down, false));
            }
            key = key2;
            steps = steps + 1;
        }
        Option::None
    }

    /// Measures the per-slice triangle counts: walk each slice's ring from a
    /// start key, advance to the next slice through the first down triangle's
    /// timelike link, and stop when the walk returns to the start, discarding
    /// the doubled slice. An empty result on a non-empty arena signals a
    /// corrupted triangulation (a ring without a down triangle, or a walk
    /// that does not close within its budget).
    pub fn lengths(&self) -> (r: Vec<usize>)
        requires
            self.links_bounded(),
        ensures
            r@ == spec_lengths(*self),
    {
        let n = self.triangles.len();
        if n == 0 {
            return Vec::new();
        }
        let outer_max = n / 2 + 1;
        let mut lengths: Vec<usize> = Vec::new();
        let mut key: usize = 0;
        let mut t: usize = 0;
        proof {
            assert(Seq::<usize>::empty() + Seq::<usize>::empty() =~= Seq::<usize>::empty());
        }
        while t < outer_max
            invariant
                self.links_bounded(),
                n == self.trs().len(),
                1 <= n,
                outer_max == n / 2 + 1,
                t <= outer_max,
                self.valid_idx(key as int),
                (match profile_rec(*self, key as int, 0, t == 0, (outer_max - t) as nat) {
                    Option::None => spec_lengths(*self) == Seq::<usize>::empty(),
                    Option::Some(rest) => spec_lengths(*self) == lengths@ + rest,
                }),
            decreases outer_max - t,
        {
            let walk = self.walk_slice(key, 0, t != 0);
            let (count, down, hit) = match walk {
                Option::Some(w) => w,
                Option::None => {
                    // the ring walk did not close: corrupted
                    return Vec::new();
                },
            };
            if hit {
                proof {
                    assert(lengths@ + Seq::<usize>::empty() =~= lengths@);
                }
                return lengths;
            }
            let d = match down {
                Option::Some(d) => d,
                Option::None => {
                    // a slice ring without a down triangle: corrupted
                    return Vec::new();
                },
            };
            let ghost prefix = lengths@;
            lengths.push(count);
            proof {
                assert(self.bounded_at(d as int));
            }
            key = self.triangles[d].time;
            t = t + 1;
            proof {
                assert forall|rest2: Seq<usize>| true implies prefix + (seq![count] + rest2)
                    =~= lengths@ + rest2 by {}
            }
        }
        // the walk outlasted every possible slice count: corrupted
        Vec::new()
    }
}

/// The triangle at arena index `k` of a flat universe of `ts` slices with `l`
/// triangles per slice (`n == ts * l` in total): direction alternates as on a
/// checkerboard of slice and position, the spacelike links close a ring of
/// `l` triangles within the slice, and the timelike link pairs each up
/// triangle with the triangle one slice below and each down triangle with the
/// one one slice above, wrapping around the cylinder.
pub open spec fn grid_triangle(l: int, n: int, k: int) -> Triangle {
    let t = k / l;
    let i = k % l;
    Triangle {
        direction: if t % 2 == i % 2 {
            Direction::Up
        } else {
            Direction::Down
        },
        left: (t * l + (if i == 0 {
            l - 1
        } else {
            i - 1
        })) as usize,
        time: if t % 2 == i % 2 {
            (if k >= l {
                k - l
            } else {
                k + (n - l)
            }) as usize
        } else {
            (if k >= n - l {
                k - (n - l)
            } else {
                k + l
            }) as usize
        },
        right: (t * l + (if i == l - 1 {
            0
        } else {
            i + 1
        })) as usize,
    }
}

impl Universe {
    /// Builds a flat cylindrical universe with `timespan` slices of
    /// `triangle_budget / timespan` triangles each. The budget must divide
    /// into whole slices: a count that does not is a caller error.
    pub fn new(timespan: usize, triangle_budget: usize) -> (u: Universe)
        requires
            1 <= timespan,
            triangle_budget % timespan == 0,
        ensures
            u.trs().len() == triangle_budget,
            forall|k: int|
                0 <= k < u.trs().len() ==> u.tri(k) == grid_triangle(
                    (triangle_budget / timespan) as int,
                    u.trs().len() as int,
                    k,
                ),
    {
        let length: usize = triangle_budget / timespan;
        let ghost l: int = length as int;
        let ghost ts: int = timespan as int;
        proof {
            assert(l * ts == triangle_budget) by (nonlinear_arith)
                requires
                    1 <= ts,
                    l == triangle_budget as int / ts,
                    triangle_budget as int % ts == 0,
                    0 <= triangle_budget,
            {
                vstd::arithmetic::div_mod::lemma_fundamental_div_mod(triangle_budget as int, ts);
            }
        }
        let total: usize = length * timespan;
        let ghost n: int = total as int;
        let mut triangles: Vec<Triangle> = Vec::new();
        let mut t: usize = 0;
        while t < timespan
            invariant
                t <= timespan,
                1 <= timespan,
                l == length as int,
                ts == timespan as int,
                n == total as int,
                n == l * ts,
                triangles@.len() == t * l,
                forall|k: int|
                    0 <= k < triangles@.len() ==> triangles@[k] == grid_triangle(l, n, k),
            decreases timespan - t,
        {
            proof {
                assert((t + 1) * l <= ts * l && ts * l == l * ts) by (nonlinear_arith)
                    requires
                        t < ts,
                        0 <= l,
                ;
                assert((t + 1) * l == t * l + l) by (nonlinear_arith);
            }
            let base: usize = t * length;
            let mut i: usize = 0;
            while i < length
                invariant
                    i <= length,
                    t < timespan,
                    1 <= timespan,
                    l == length as int,
                    ts == timespan as int,
                    n == total as int,
                    n == l * ts,
                    base == t * l,
                    base + l <= n,
                    triangles@.len() == t * l + i,
                    forall|k: int|
                        0 <= k < triangles@.len() ==> triangles@[k] == grid_triangle(l, n, k),
                decreases length - i,
            {
                let k: usize = base + i;
                let (direction, time) = if (t % 2) == (i % 2) {
                    (
                        Direction::Up,
                        if k >= length {
                            k - length
                        } else {
                            k + (total - length)
                        },
                    )
                } else {
                    (
                        Direction::Down,
                        if k >= total - length {
                            k - (total - length)
                        } else {
                            k + length
                        },
                    )
                };
                let left: usize = base + (if i == 0 {
                    length - 1
                } else {
                    i - 1
                });
                let right: usize = base + (if i == length - 1 {
                    0
                } else {
                    i + 1
                });
                triangles.push(Triangle { direction, left, time, right });
                proof {
                    lemma_fundamental_div_mod_converse(k as int, l, t as int, i as int);
                    assert(triangles@[k as int] == grid_triangle(l, n, k as int));
                }
                i = i + 1;
            }
            t = t + 1;
            proof {
                assert(t * l == (t - 1) * l + l) by (nonlinear_arith);
            }
        }
        proof {
            assert(ts * l == l * ts) by (nonlinear_arith);
        }
        Universe { triangles }
    }
}

} // verus!
