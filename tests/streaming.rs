use voxel_world::coords::ChunkCoord;
use voxel_world::streaming::StreamingController;

fn col(x: i32, z: i32) -> ChunkCoord {
    ChunkCoord::new(x, 0, z)
}

#[test]
fn first_tick_loads_square_nearest_first() {
    let mut s = StreamingController::new(1, 1000);
    let plan = s.tick(col(0, 0), 0);
    assert_eq!(
        plan.load,
        vec![
            col(0, 0),
            col(-1, 0),
            col(0, -1),
            col(0, 1),
            col(1, 0),
            col(-1, -1),
            col(-1, 1),
            col(1, -1),
            col(1, 1),
        ]
    );
    assert!(plan.unload.is_empty());
    for x in -2..=2 {
        for z in -2..=2 {
            assert_eq!(s.is_kept(col(x, z)), x.abs() <= 1 && z.abs() <= 1);
        }
    }
}

#[test]
fn observer_height_is_ignored_in_column_streaming() {
    let mut s = StreamingController::new(0, 10);
    let plan = s.tick(ChunkCoord::new(4, 7, -2), 0);
    assert_eq!(plan.load, vec![col(4, -2)]);
}

#[test]
fn settled_set_is_square_plus_grace() {
    let mut s = StreamingController::new(1, 1000);
    s.tick(col(0, 0), 0);
    let plan = s.tick(col(3, 0), 500);
    assert!(plan.unload.is_empty());
    assert_eq!(plan.load.len(), 9);
    for c in &plan.load {
        assert!((2..=4).contains(&c.x) && (-1..=1).contains(&c.z));
    }
    for x in -1..=4 {
        for z in -1..=1 {
            assert!(s.is_kept(col(x, z)));
        }
    }
    // Grace runs out for the old square.
    let plan = s.tick(col(3, 0), 1500);
    assert!(plan.load.is_empty());
    let mut gone = plan.unload.clone();
    gone.sort_by_key(|c| (c.x, c.z));
    let mut expected = Vec::new();
    for x in -1..=1 {
        for z in -1..=1 {
            expected.push(col(x, z));
        }
    }
    assert_eq!(gone, expected);
    for x in -1..=4 {
        for z in -1..=1 {
            assert_eq!(s.is_kept(col(x, z)), x >= 2);
        }
    }
}

#[test]
fn returning_within_grace_reloads_nothing() {
    let mut s = StreamingController::new(1, 1000);
    s.tick(col(0, 0), 0);
    let away = s.tick(col(3, 0), 500);
    assert!(away.unload.is_empty());
    let back = s.tick(col(0, 0), 900);
    assert!(back.load.is_empty());
    assert!(back.unload.is_empty());
    for x in -1..=1 {
        for z in -1..=1 {
            assert!(s.is_kept(col(x, z)));
        }
    }
}

#[test]
fn staying_put_needs_no_work() {
    let mut s = StreamingController::new(2, 0);
    let first = s.tick(col(5, 5), 10);
    assert_eq!(first.load.len(), 25);
    let second = s.tick(col(5, 5), 20);
    assert!(second.load.is_empty() && second.unload.is_empty());
}

#[test]
fn zero_grace_unloads_on_the_next_tick() {
    let mut s = StreamingController::new(0, 0);
    s.tick(col(0, 0), 0);
    let plan = s.tick(col(1, 0), 0);
    assert_eq!(plan.load, vec![col(1, 0)]);
    assert_eq!(plan.unload, vec![col(0, 0)]);
    assert!(!s.is_kept(col(0, 0)));
}
