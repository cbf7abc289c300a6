use monte_carlo_cdt::universe::Orientation;
use monte_carlo_cdt::universe::Universe;

/// Brute-force check of the structural invariants: consistent spacelike
/// rings, a symmetric orientation-opposing timelike matching, and an
/// eligibility set that agrees everywhere with the from-scratch predicate.
fn assert_invariants(u: &Universe) {
    let n = u.triangle_count();
    for i in 0..n {
        let left = u.left_of(i);
        let right = u.right_of(i);
        let time = u.time_of(i);
        assert_eq!(u.right_of(left), i);
        assert_eq!(u.left_of(right), i);
        assert_eq!(u.time_of(time), i);
        assert!(u.orientation_of(time) != u.orientation_of(i));
        assert_eq!(u.o4_contains(i), u.is_order_four_at(i));
    }
}

#[test]
fn fresh_universe_is_flat() {
    let u = Universe::new(10, 5);
    assert_eq!(u.triangle_count(), 100);
    assert_eq!(u.orientation_of(0), Orientation::Up);
    assert_eq!(u.orientation_of(1), Orientation::Down);
    assert_eq!(u.left_of(0), 9);
    assert_eq!(u.right_of(0), 1);
    assert_eq!(u.time_of(10), 1);
    assert_eq!(u.time_of(11), 20);
    assert_invariants(&u);
    // no site of a flat universe has coordination number four
    for i in 0..u.triangle_count() {
        assert!(!u.o4_contains(i));
    }
}

#[test]
fn known_flip_rewires_timelike_links() {
    // one known flip; the four affected sites repoint exactly as documented
    let mut u = Universe::new(10, 5);
    assert_eq!(u.time_of(10), 1);
    assert_eq!(u.time_of(11), 20);
    u.triangle_flip(10);
    assert_eq!(u.orientation_of(10), Orientation::Down);
    assert_eq!(u.orientation_of(11), Orientation::Up);
    assert_eq!(u.time_of(10), 20);
    assert_eq!(u.time_of(11), 1);
    assert_eq!(u.time_of(1), 11);
    assert_eq!(u.time_of(20), 10);
    assert_invariants(&u);
}

#[test]
fn flip_is_involution() {
    let mut u = Universe::new(10, 5);
    let reference = Universe::new(10, 5);
    u.triangle_flip(10);
    u.triangle_flip(10);
    let n = u.triangle_count();
    assert_eq!(n, reference.triangle_count());
    for i in 0..n {
        assert_eq!(u.orientation_of(i), reference.orientation_of(i));
        assert_eq!(u.time_of(i), reference.time_of(i));
        assert_eq!(u.left_of(i), reference.left_of(i));
        assert_eq!(u.right_of(i), reference.right_of(i));
        assert_eq!(u.o4_contains(i), reference.o4_contains(i));
    }
}

#[test]
fn shard_move_to_own_position_is_noop() {
    let mut u = Universe::new(10, 5);
    // create an up-up pair: after the flip, 11 points up and is 12's left
    u.triangle_flip(10);
    let reference = {
        let mut r = Universe::new(10, 5);
        r.triangle_flip(10);
        r
    };
    assert_eq!(u.left_of(12), 11);
    assert_eq!(u.orientation_of(12), Orientation::Up);
    assert_eq!(u.orientation_of(11), Orientation::Up);
    // relocating the shard at 12 to its own left neighbour changes nothing
    u.shard_move(12, 11);
    let n = u.triangle_count();
    for i in 0..n {
        assert_eq!(u.orientation_of(i), reference.orientation_of(i));
        assert_eq!(u.time_of(i), reference.time_of(i));
        assert_eq!(u.left_of(i), reference.left_of(i));
        assert_eq!(u.right_of(i), reference.right_of(i));
        assert_eq!(u.o4_contains(i), reference.o4_contains(i));
    }
}

#[test]
fn eligibility_set_tracks_predicate() {
    let mut u = Universe::new(10, 5);
    assert_invariants(&u);
    assert!(!u.has_order_four_sites());
    // two flips in adjacent slabs align a pair of up triangles over adjacent
    // down partners, making site 11 an order-four site
    u.triangle_flip(10);
    assert_invariants(&u);
    assert!(!u.o4_contains(11));
    u.triangle_flip(2);
    assert_invariants(&u);
    assert!(u.o4_contains(11));
    assert!(u.is_order_four_at(11));
    assert!(u.has_order_four_sites());
    // undoing the first flip dissolves the site again
    u.triangle_flip(10);
    assert_invariants(&u);
    assert!(!u.o4_contains(11));
}

#[test]
fn triangle_count_is_conserved() {
    let mut u = Universe::new(7, 5);
    let n = u.triangle_count();
    u.triangle_flip(0);
    assert_eq!(u.triangle_count(), n);
    for step in 0..600 {
        let ok = u.mcmc_step(step % 3 != 0);
        assert!(ok);
        assert_eq!(u.triangle_count(), n);
    }
}

#[test]
fn random_walk_preserves_invariants() {
    let mut u = Universe::new(7, 6);
    for step in 0..400 {
        let ok = u.mcmc_step(step % 2 == 0);
        assert!(ok);
        if step % 25 == 0 {
            assert_invariants(&u);
        }
    }
    assert_invariants(&u);
}

#[test]
fn length_profile_of_flat_universe() {
    let u = Universe::new(7, 5);
    let profile = u.length_profile(0).expect("flat universe measures cleanly");
    assert_eq!(profile.len(), 7);
    let mut total = 0;
    for t in 0..profile.len() {
        assert_eq!(profile.get(t), 5);
        total += profile.get(t);
    }
    assert_eq!(total, 35);
    assert_eq!(2 * total, u.triangle_count());
}

#[test]
fn length_profile_sum_is_origin_independent() {
    let mut u = Universe::new(6, 4);
    for step in 0..300 {
        assert!(u.mcmc_step(step % 2 == 0));
    }
    let mut sums = Vec::new();
    for origin in [0usize, 7, 23, 41] {
        let profile = u.length_profile(origin).expect("walk closes");
        assert_eq!(profile.len(), 6);
        let mut total = 0;
        for t in 0..profile.len() {
            total += profile.get(t);
        }
        sums.push(total);
    }
    for s in sums.iter() {
        assert_eq!(*s, sums[0]);
        assert_eq!(2 * *s, u.triangle_count());
    }
}

#[test]
fn mesh_vertices_cover_every_triangle() {
    let u = Universe::new(3, 2);
    let profile = u.length_profile(0).expect("flat universe measures cleanly");
    let verts = u.triangle_vertices(0).expect("flat universe meshes cleanly");
    assert_eq!(verts.len(), u.triangle_count());
    let t_max = profile.len();
    for (a, b, c) in verts.iter() {
        for v in [a, b, c] {
            assert!(v.0 <= t_max);
            assert!(v.1 < profile.get(v.0 % t_max));
        }
    }
}

#[test]
fn samplers_return_usable_sites() {
    let mut u = Universe::new(10, 5);
    let candidate = u.sample_flip_candidate().expect("flippable pairs exist");
    assert!(u.is_flippable(candidate));
    let dest = u.sample_dest(0).expect("another up triangle exists");
    assert!(dest != 0);
    assert_eq!(u.orientation_of(dest), Orientation::Up);
    // make 11 the only order-four site; its relocatable shard is 12
    u.triangle_flip(10);
    u.triangle_flip(2);
    assert!(u.o4_contains(11));
    assert_eq!(u.sample_shard(), 12);
}

#[test]
fn sampler_reports_exhaustion_on_degenerate_universe() {
    // two triangles: every draw canonicalises to index zero, so excluding it
    // leaves the destination sampler nothing to return
    let u = Universe::new(1, 1);
    assert_eq!(u.triangle_count(), 2);
    assert!(u.sample_dest(0).is_none());
}

#[test]
fn degenerate_flip_is_refused() {
    // in a single-slice universe every flip candidate pairs with its own
    // right neighbour, and the step reports the violation without mutating
    let mut u = Universe::new(1, 1);
    let before: Vec<(usize, usize, usize)> =
        (0..u.triangle_count()).map(|i| (u.time_of(i), u.left_of(i), u.right_of(i))).collect();
    let ok = u.mcmc_step(true);
    assert!(!ok);
    for i in 0..u.triangle_count() {
        assert_eq!(before[i], (u.time_of(i), u.left_of(i), u.right_of(i)));
    }
}
