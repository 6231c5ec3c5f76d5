// Continuous coordinates are written in tenths: 9.5 is 95.
use rl_solver::tile::{Bounds, ContinuousDimension, TilingSet};

fn pc(items: &[i64]) -> Vec<i64> {
    items.to_vec()
}

fn pi(items: &[i32]) -> Vec<i32> {
    items.to_vec()
}

#[test]
fn single_tiling_1d() {
    let c1 = ContinuousDimension::new(0, 100, 10);
    let tilings = TilingSet::from_dimensions(&vec![c1], &Vec::new(), 1);

    assert_eq!(tilings.count(), 1);
    assert_eq!(tilings.tile_count(), 10);

    assert_eq!(tilings.get_tiles(&pc(&[0]), &pi(&[])), vec![0]);
    assert_eq!(tilings.get_tiles(&pc(&[-10]), &pi(&[])), vec![0]);
    assert_eq!(tilings.get_tiles(&pc(&[95]), &pi(&[])), vec![9]);
    assert_eq!(tilings.get_tiles(&pc(&[110]), &pi(&[])), vec![9]);
}

#[test]
fn single_tiling_2d() {
    let c1 = ContinuousDimension::new(-100, 100, 20);
    let c2 = ContinuousDimension::new(0, 100, 10);
    let tilings = TilingSet::from_dimensions(&vec![c1, c2], &Vec::new(), 1);

    assert_eq!(tilings.count(), 1);
    assert_eq!(tilings.tile_count(), 200);

    assert_eq!(tilings.get_tiles(&pc(&[-10, 0]), &pi(&[])), vec![9]);
    assert_eq!(tilings.get_tiles(&pc(&[-10, 10]), &pi(&[])), vec![29]);
}

#[test]
fn single_tiling_1i() {
    let i1 = Bounds::new(0, 5);
    let tilings = TilingSet::from_dimensions(&vec![], &vec![i1], 1);

    assert_eq!(tilings.count(), 1);
    assert_eq!(tilings.tile_count(), 5);

    assert_eq!(tilings.get_tiles(&pc(&[]), &pi(&[0])), vec![0]);
    assert_eq!(tilings.get_tiles(&pc(&[]), &pi(&[-1])), vec![0]);
    assert_eq!(tilings.get_tiles(&pc(&[]), &pi(&[1])), vec![1]);
    assert_eq!(tilings.get_tiles(&pc(&[]), &pi(&[4])), vec![4]);
    assert_eq!(tilings.get_tiles(&pc(&[]), &pi(&[5])), vec![4]);
}

#[test]
fn single_tiling_1d_1i() {
    let c1 = ContinuousDimension::new(0, 100, 10);
    let i1 = Bounds::new(0, 5);
    let tilings = TilingSet::from_dimensions(&vec![c1], &vec![i1], 1);

    assert_eq!(tilings.count(), 1);
    assert_eq!(tilings.tile_count(), 50);

    assert_eq!(tilings.get_tiles(&pc(&[0]), &pi(&[0])), vec![0]);
    assert_eq!(tilings.get_tiles(&pc(&[0]), &pi(&[1])), vec![10]);
}

#[test]
fn multi_tiling_1d_1i() {
    let c1 = ContinuousDimension::new(0, 100, 10);
    let i1 = Bounds::new(0, 5);
    let tilings = TilingSet::from_dimensions(&vec![c1], &vec![i1], 3);

    assert_eq!(tilings.count(), 3);
    assert_eq!(tilings.tile_count(), 150);

    // Point (0, 0) should be in tile 0 on all tilings.
    assert_eq!(tilings.get_tiles(&pc(&[0]), &pi(&[0])), vec![0, 50, 100]);

    // Offset step is 1/3, so point 1.4 should be on tile 1 for tilings
    // 0 and 1, but tile 0 on tiling 2.
    assert_eq!(tilings.get_tiles(&pc(&[14]), &pi(&[0])), vec![1, 51, 100]);
}

#[test]
fn finer_unit_gives_the_same_tiles() {
    let coarse = TilingSet::from_dimensions(&vec![ContinuousDimension::new(0, 100, 10)], &vec![], 3);
    let fine = TilingSet::from_dimensions(&vec![ContinuousDimension::new(0, 10_000, 10)], &vec![], 3);
    for x in [-50i64, 0, 14, 33, 34, 67, 95, 99, 100, 250] {
        assert_eq!(coarse.get_tiles(&pc(&[x]), &pi(&[])), fine.get_tiles(&pc(&[x * 100]), &pi(&[])));
    }
}

#[test]
fn shifted_tilings_saturate_at_both_ends() {
    let tilings = TilingSet::from_dimensions(&vec![ContinuousDimension::new(0, 100, 10)], &vec![Bounds::new(-2, 3)], 4);
    assert_eq!(tilings.tile_count(), 200);
    assert_eq!(tilings.get_tiles(&pc(&[-1000]), &pi(&[-100])), vec![0, 50, 100, 150]);
    assert_eq!(tilings.get_tiles(&pc(&[1000]), &pi(&[100])), vec![49, 99, 149, 199]);
    // Just below the upper end: the last cell in every tiling.
    assert_eq!(tilings.get_tiles(&pc(&[99]), &pi(&[2])), vec![49, 99, 149, 199]);
    // 2.6 with a quarter-step shift per tiling: cells 2, 2, 2, 1.
    assert_eq!(tilings.get_tiles(&pc(&[26]), &pi(&[-2])), vec![2, 52, 102, 151]);
}

#[test]
fn no_tilings_no_tiles() {
    let tilings = TilingSet::from_dimensions(&vec![ContinuousDimension::new(0, 10, 2)], &vec![], 0);
    assert_eq!(tilings.count(), 0);
    assert_eq!(tilings.tile_count(), 0);
    assert_eq!(tilings.get_tiles(&pc(&[5]), &pi(&[])), Vec::<usize>::new());
}
