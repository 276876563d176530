use voxelmarch::raymarch::{Color, Ray, RayAxis, RayMarch, VoxelList};

// One distance unit of the caller's fixed-point scale.
const SCALE: u64 = 1024;

fn still_axis(cell: i64) -> RayAxis {
    RayAxis { cell, step: 0, tnext: u64::MAX, delta: u64::MAX }
}

fn moving_axis(cell: i64, step: i64, tnext: u64, delta: u64) -> RayAxis {
    RayAxis { cell, step, tnext, delta }
}

// A ray at (5.5, 5.5, 0.0) aimed along increasing z: the origin sits at the
// center of cell (5, 5, 0), so the first z boundary is one cell away.
fn ray_up_z() -> Ray {
    Ray {
        x: still_axis(5),
        y: still_axis(5),
        z: moving_axis(0, 1, SCALE, SCALE),
    }
}

#[test]
fn march_hits_nearest_present_cell() {
    let mut grid = VoxelList::new([10, 10, 10]);
    let color = Color { r: 200, g: 10, b: 30 };
    grid.set([5, 5, 5], color);
    let hit = grid.march(ray_up_z(), 10 * SCALE);
    assert!(hit.is_some());
    assert_eq!(hit.unwrap().color, color);
}

#[test]
fn march_respects_distance_bound() {
    let mut grid = VoxelList::new([10, 10, 10]);
    grid.set([5, 5, 5], Color { r: 200, g: 10, b: 30 });
    let hit = grid.march(ray_up_z(), 2 * SCALE);
    assert!(hit.is_none());
}

#[test]
fn march_empty_grid_misses() {
    let grid = VoxelList::new([10, 10, 10]);
    assert!(grid.march(ray_up_z(), 10 * SCALE).is_none());
    let diagonal = Ray {
        x: moving_axis(0, 1, SCALE / 2, SCALE),
        y: moving_axis(0, 1, SCALE / 3, SCALE),
        z: moving_axis(0, 1, SCALE / 4, SCALE),
    };
    assert!(grid.march(diagonal, 50 * SCALE).is_none());
    assert!(grid.march(diagonal, 1).is_none());
}

#[test]
fn march_tie_break_prefers_x_then_y() {
    let mut grid = VoxelList::new([4, 4, 4]);
    let on_x = Color { r: 255, g: 0, b: 0 };
    let on_y = Color { r: 0, g: 255, b: 0 };
    let on_z = Color { r: 0, g: 0, b: 255 };
    grid.set([1, 0, 0], on_x);
    grid.set([0, 1, 0], on_y);
    grid.set([0, 0, 1], on_z);

    // x and y reach their next boundary at exactly the same distance: the
    // tie must fall to x, every time.
    let tie_xy = Ray {
        x: moving_axis(0, 1, 7 * SCALE / 10, 3 * SCALE / 2),
        y: moving_axis(0, 1, 7 * SCALE / 10, 3 * SCALE / 2),
        z: still_axis(0),
    };
    for _ in 0..3 {
        let hit = grid.march(tie_xy, 10 * SCALE);
        assert_eq!(hit.unwrap().color, on_x);
    }

    // A three-way tie also falls to x.
    let tie_xyz = Ray {
        x: moving_axis(0, 1, SCALE, 2 * SCALE),
        y: moving_axis(0, 1, SCALE, 2 * SCALE),
        z: moving_axis(0, 1, SCALE, 2 * SCALE),
    };
    assert_eq!(grid.march(tie_xyz, 10 * SCALE).unwrap().color, on_x);

    // With x out of the race, a y/z tie falls to y.
    let tie_yz = Ray {
        x: still_axis(0),
        y: moving_axis(0, 1, SCALE, 2 * SCALE),
        z: moving_axis(0, 1, SCALE, 2 * SCALE),
    };
    assert_eq!(grid.march(tie_yz, 10 * SCALE).unwrap().color, on_y);

    // A strictly sooner y wins over x.
    let y_sooner = Ray {
        x: moving_axis(0, 1, SCALE, 2 * SCALE),
        y: moving_axis(0, 1, SCALE - 1, 2 * SCALE),
        z: still_axis(0),
    };
    assert_eq!(grid.march(y_sooner, 10 * SCALE).unwrap().color, on_y);
}

#[test]
fn march_starts_outside_grid() {
    let mut grid = VoxelList::new([10, 10, 10]);
    let color = Color { r: 1, g: 2, b: 3 };
    grid.set([1, 5, 5], color);
    // The origin's own cell lies left of the grid; the ray walks in along x.
    let ray = Ray {
        x: moving_axis(-3, 1, SCALE / 2, SCALE),
        y: still_axis(5),
        z: still_axis(5),
    };
    let hit = grid.march(ray, 10 * SCALE);
    assert_eq!(hit.unwrap().color, color);
}

#[test]
fn march_negative_direction() {
    let mut grid = VoxelList::new([10, 10, 10]);
    let color = Color { r: 9, g: 8, b: 7 };
    grid.set([2, 5, 5], color);
    // From the center of cell (7, 5, 5), walking along decreasing x.
    let ray = Ray {
        x: moving_axis(7, -1, SCALE / 2, SCALE),
        y: still_axis(5),
        z: still_axis(5),
    };
    assert_eq!(grid.march(ray, 10 * SCALE).unwrap().color, color);
    assert!(grid.march(ray, 4 * SCALE).is_none());
}

#[test]
fn march_origin_cell_itself_present() {
    let mut grid = VoxelList::new([4, 4, 4]);
    let color = Color { r: 50, g: 60, b: 70 };
    grid.set([2, 2, 2], color);
    let ray = Ray {
        x: still_axis(2),
        y: still_axis(2),
        z: moving_axis(2, 1, SCALE, SCALE),
    };
    // The very first cell tested is the origin's own.
    assert_eq!(grid.march(ray, 1).unwrap().color, color);
}

#[test]
fn grid_set_marks_only_that_cell() {
    let mut grid = VoxelList::new([3, 3, 3]);
    let color = Color { r: 4, g: 5, b: 6 };
    grid.set([1, 1, 1], color);
    assert_eq!(*grid.presence.get_at([1, 1, 1]), true);
    assert_eq!(*grid.colors.get_at([1, 1, 1]), color);
    for x in 0..3 {
        for y in 0..3 {
            for z in 0..3 {
                if (x, y, z) != (1, 1, 1) {
                    assert_eq!(*grid.presence.get_at([x, y, z]), false);
                }
            }
        }
    }
}
