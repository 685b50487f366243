//! Tests of the bit grid and the shape-packing rules.

use endo::grid::{ell, stair_step, Bits2D, Grid};

#[test]
fn test_bits2d() {
    let mut bits = Bits2D::new(3, 2);
    assert_eq!(bits.length1(), 3);
    assert_eq!(bits.length2(), 2);
    // All cells start clear.
    for x in 0..3 {
        for y in 0..2 {
            assert!(!bits.get(x, y));
        }
    }
    bits.set(2, 1);
    assert!(bits.get(2, 1));
    assert!(!bits.get(1, 2));
    assert!(!bits.get(0, 0));
    bits.assign(2, 1, false);
    assert!(!bits.get(2, 1));
    // Out-of-range coordinates read as clear.
    assert!(!bits.get(3, 0));
    assert!(!bits.get(0, 2));
}

#[test]
fn test_shapes() {
    let stair = stair_step();
    assert_eq!(stair.length1(), 3);
    assert_eq!(stair.length2(), 2);
    let stair_cells = [(0, 0), (1, 0), (1, 1), (2, 1)];
    for x in 0..3 {
        for y in 0..2 {
            assert_eq!(stair.get(x, y), stair_cells.contains(&(x, y)));
        }
    }

    let ell_shape = ell();
    assert_eq!(ell_shape.length1(), 2);
    assert_eq!(ell_shape.length2(), 3);
    let ell_cells = [(0, 0), (1, 0), (0, 1), (0, 2)];
    for x in 0..2 {
        for y in 0..3 {
            assert_eq!(ell_shape.get(x, y), ell_cells.contains(&(x, y)));
        }
    }
}

#[test]
fn test_try_place() {
    let mut grid = Grid::new(10, 10);
    // The two shapes of the toy driver both fit.
    assert!(grid.try_place(&ell(), 0, 0));
    assert!(grid.try_place(&stair_step(), 2, 2));
    assert!(grid.get(0, 0));
    assert!(grid.get(1, 0));
    assert!(grid.get(0, 2));
    assert!(!grid.get(1, 1));
    assert!(grid.get(2, 2));
    assert!(grid.get(3, 3));
    assert!(!grid.get(2, 3));

    // Placing over an occupied cell fails and changes nothing.
    let before: Vec<bool> = (0..100).map(|i| grid.get(i % 10, i / 10)).collect();
    assert!(!grid.try_place(&ell(), 0, 0));
    let after: Vec<bool> = (0..100).map(|i| grid.get(i % 10, i / 10)).collect();
    assert_eq!(before, after);

    // A shape reaching past the border is rejected.
    assert!(!grid.try_place(&stair_step(), 8, 0));
    assert!(!grid.try_place(&stair_step(), 0, 9));

    // Occupied plus clear cells may interleave: the stair fits around the
    // ell's corner.
    let mut grid2 = Grid::new(4, 4);
    assert!(grid2.try_place(&ell(), 0, 0));
    assert!(!grid2.try_place(&stair_step(), 0, 1));
    assert!(grid2.try_place(&stair_step(), 1, 1));
}
