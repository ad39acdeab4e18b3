use bevy_mod_raycast::markers::NoBackfaceCulling;
use bevy_mod_raycast::raycast::Backfaces;
use bevy_mod_raycast::scene::{
    cull, distance_key, nearest_ahead, resolve_hits, sort_by_distance, BoxTest, BroadPhase,
    Candidate, EntityBox, Hit, NearestHit, RaycastVisibility, INFINITY_KEY,
};

fn key(d: f32) -> u32 {
    distance_key(d.to_bits())
}

/// Three concentric cubes along the ray: boxes entered at 1, 2, 3, surfaces hit at 4, 5, 6.
fn concentric_cubes(blocks: bool) -> Vec<Candidate> {
    let outer = Candidate { entry: key(1.0), entity: 30, selected: true, hit: Some(key(6.0)), blocks };
    let middle = Candidate { entry: key(2.0), entity: 20, selected: true, hit: Some(key(5.0)), blocks };
    let inner = Candidate { entry: key(3.0), entity: 10, selected: true, hit: Some(key(4.0)), blocks };
    vec![outer, middle, inner]
}

#[test]
fn early_exit_returns_only_the_nearest_cube() {
    let hits = resolve_hits(&concentric_cubes(true));
    assert_eq!(hits, vec![Hit { distance: key(4.0), entity: 10 }]);
}

#[test]
fn never_early_exit_returns_every_cube_sorted() {
    let hits = resolve_hits(&concentric_cubes(false));
    assert_eq!(hits.len(), 3);
    let entities: Vec<u64> = hits.iter().map(|h| h.entity).collect();
    assert_eq!(entities, vec![10, 20, 30]);
    assert!(hits.windows(2).all(|w| w[0].distance < w[1].distance));
}

#[test]
fn same_candidates_give_same_hits() {
    let a = resolve_hits(&concentric_cubes(false));
    let b = resolve_hits(&concentric_cubes(false));
    assert_eq!(a, b);
}

#[test]
fn far_boxes_are_skipped_after_a_blocking_hit() {
    let near = Candidate { entry: key(0.5), entity: 1, selected: true, hit: Some(key(1.0)), blocks: true };
    let far = Candidate { entry: key(2.0), entity: 2, selected: true, hit: Some(key(2.5)), blocks: false };
    let unselected = Candidate { entry: key(0.0), entity: 3, selected: false, hit: Some(key(0.1)), blocks: true };
    let missed = Candidate { entry: key(0.7), entity: 4, selected: true, hit: None, blocks: true };
    let hits = resolve_hits(&vec![unselected, near, missed, far]);
    assert_eq!(hits, vec![Hit { distance: key(1.0), entity: 1 }]);
}

#[test]
fn nearer_hit_in_a_later_box_replaces_the_blocker() {
    // the first box is entered first, but the second holds the nearer hit
    let first = Candidate { entry: key(1.0), entity: 1, selected: true, hit: Some(key(5.0)), blocks: true };
    let second = Candidate { entry: key(2.0), entity: 2, selected: true, hit: Some(key(3.0)), blocks: true };
    let passing = Candidate { entry: key(2.5), entity: 3, selected: true, hit: Some(key(2.9)), blocks: false };
    let hits = resolve_hits(&vec![first, second, passing]);
    assert_eq!(
        hits,
        vec![Hit { distance: key(2.9), entity: 3 }, Hit { distance: key(3.0), entity: 2 }]
    );
}

#[test]
fn no_candidates_no_hits() {
    assert!(resolve_hits(&Vec::new()).is_empty());
}

#[test]
fn step_by_step_matches_resolve() {
    let cands = concentric_cubes(true);
    let mut state = BroadPhase::new();
    assert_eq!(state.nearest_blocking_hit, INFINITY_KEY);
    for c in &cands {
        if state.should_test(c.entry) {
            if let Some(d) = c.hit {
                state.record_hit(Hit { distance: d, entity: c.entity }, c.blocks);
            }
        }
    }
    assert_eq!(state.nearest_blocking_hit, key(4.0));
    assert_eq!(state.finish(), resolve_hits(&cands));
}

#[test]
fn distance_keys_order_like_floats() {
    let values = [f32::NEG_INFINITY, -3.5, -1.0, -0.0, 0.0, 1e-30, 1.0, 4.0, 1e30, f32::INFINITY];
    for w in values.windows(2) {
        assert!(key(w[0]) <= key(w[1]), "{} {}", w[0], w[1]);
    }
    assert!(key(-1.0) < key(1.0));
    assert_eq!(key(-0.0), key(0.0));
    assert_eq!(key(f32::INFINITY), INFINITY_KEY);
    assert!(key(f32::NAN) < key(f32::NEG_INFINITY));
    assert_eq!(key(f32::NAN), key(-f32::NAN));
}

#[test]
fn sorting_is_stable() {
    let hits = vec![
        Hit { distance: 5, entity: 1 },
        Hit { distance: 3, entity: 2 },
        Hit { distance: 5, entity: 3 },
        Hit { distance: 3, entity: 4 },
    ];
    let sorted: Vec<u64> = sort_by_distance(&hits).iter().map(|h| h.entity).collect();
    assert_eq!(sorted, vec![2, 4, 1, 3]);
    let boxes = vec![
        Hit { distance: 9, entity: 1 },
        Hit { distance: 2, entity: 2 },
        Hit { distance: 9, entity: 3 },
    ];
    let order: Vec<u64> = sort_by_distance(&boxes).iter().map(|h| h.entity).collect();
    assert_eq!(order, vec![2, 1, 3]);
}

#[test]
fn visibility_modes() {
    assert!(RaycastVisibility::Ignore.admits(false, false));
    assert!(RaycastVisibility::MustBeVisible.admits(true, false));
    assert!(!RaycastVisibility::MustBeVisible.admits(false, true));
    assert!(RaycastVisibility::MustBeVisibleAndInView.admits(false, true));
    assert!(!RaycastVisibility::MustBeVisibleAndInView.admits(true, false));
}

#[test]
fn backface_policy_follows_marker() {
    let _marker = NoBackfaceCulling;
    assert_eq!(Backfaces::for_entity(true), Backfaces::Include);
    assert_eq!(Backfaces::for_entity(false), Backfaces::Cull);
    assert_eq!(Backfaces::default(), Backfaces::Cull);
}

#[test]
fn cull_drops_hidden_missed_and_behind_boxes() {
    let visible = |entity: u64, aabb: BoxTest| EntityBox {
        entity,
        visible_in_hierarchy: true,
        visible_in_view: true,
        aabb,
    };
    let entities = vec![
        visible(1, BoxTest::Hit { near: key(4.0), far: key(6.0) }),
        visible(2, BoxTest::Miss),
        visible(3, BoxTest::Hit { near: key(-3.0), far: key(-1.0) }),
        visible(4, BoxTest::Hit { near: key(-1.0), far: key(2.0) }),
        visible(5, BoxTest::Unbounded),
        EntityBox {
            entity: 6,
            visible_in_hierarchy: true,
            visible_in_view: false,
            aabb: BoxTest::Hit { near: key(1.0), far: key(2.0) },
        },
    ];
    let kept: Vec<u64> = cull(RaycastVisibility::MustBeVisibleAndInView, &entities)
        .iter()
        .map(|h| h.entity)
        .collect();
    assert_eq!(kept, vec![5, 4, 1]);
    let kept_ignoring: Vec<u64> = cull(RaycastVisibility::Ignore, &entities)
        .iter()
        .map(|h| h.entity)
        .collect();
    assert_eq!(kept_ignoring, vec![5, 4, 6, 1]);
}

#[test]
fn nearest_hit_ahead_of_origin() {
    let hits = vec![
        Hit { distance: key(-2.0), entity: 0 },
        Hit { distance: key(3.0), entity: 1 },
        Hit { distance: key(0.0), entity: 2 },
        Hit { distance: key(1.5), entity: 3 },
        Hit { distance: key(1.5), entity: 4 },
    ];
    assert_eq!(nearest_ahead(&hits), Some(Hit { distance: key(1.5), entity: 3 }));
    assert_eq!(nearest_ahead(&hits[..3].to_vec()), Some(Hit { distance: key(3.0), entity: 1 }));
    assert_eq!(nearest_ahead(&vec![hits[0], hits[2]]), None);
    let mut search = NearestHit::new();
    assert!(!search.accepts(key(0.0)));
    assert!(search.accepts(key(2.0)));
    search.offer(Hit { distance: key(2.0), entity: 9 });
    assert!(!search.accepts(key(2.0)));
    assert!(search.accepts(key(1.0)));
}

#[test]
fn equal_distances_keep_candidate_order() {
    let a = Candidate { entry: key(1.0), entity: 7, selected: true, hit: Some(key(2.0)), blocks: false };
    let b = Candidate { entry: key(1.5), entity: 3, selected: true, hit: Some(key(2.0)), blocks: false };
    let c = Candidate { entry: key(1.7), entity: 5, selected: true, hit: Some(key(1.0)), blocks: false };
    let entities: Vec<u64> = resolve_hits(&vec![a, b, c]).iter().map(|h| h.entity).collect();
    assert_eq!(entities, vec![5, 7, 3]);
}
