use collider::engine::grid::Grid;
use collider::engine::grid::GridArea;
use collider::engine::grid::GridKey;
use collider::index_rect::IndexRect;

fn sorted(set: fnv::FnvHashSet<u64>) -> Vec<u64> {
    let mut items: Vec<u64> = set.into_iter().collect();
    items.sort();
    items
}

#[test]
fn cell_codes_are_distinct() {
    let corners = [i32::MIN, -1, 0, 1, i32::MAX];
    let groups = [0u32, 1, u32::MAX];
    let mut seen = std::collections::HashSet::new();
    for &x in corners.iter() {
        for &y in corners.iter() {
            for &group in groups.iter() {
                assert!(seen.insert(GridKey { x, y, group }.code()));
            }
        }
    }
    assert_eq!(GridKey { x: i32::MIN, y: i32::MIN, group: 0 }.code(), 0);
    assert_eq!(
        GridKey { x: 0, y: 0, group: 5 }.code(),
        (0x8000_0000u128 << 64) + (0x8000_0000u128 << 32) + 5
    );
}

#[test]
fn grid_area_contains() {
    let area = GridArea { rect: IndexRect::new((0, 0), (2, 3)), group: 4 };
    assert!(area.contains(GridKey { x: 0, y: 0, group: 4 }));
    assert!(area.contains(GridKey { x: 1, y: 2, group: 4 }));
    assert!(!area.contains(GridKey { x: 1, y: 2, group: 5 }));
    assert!(!area.contains(GridKey { x: 2, y: 0, group: 4 }));
    assert!(!area.contains(GridKey { x: 0, y: 3, group: 4 }));
    assert!(!area.contains(GridKey { x: -1, y: 0, group: 4 }));
}

#[test]
fn update_hitbox_returns_the_other_cellmates() {
    let mut grid = Grid::new();
    let a = IndexRect::new((0, 0), (2, 2));
    let b = IndexRect::new((1, 1), (3, 3));
    let far = IndexRect::new((10, 10), (11, 11));
    assert_eq!(sorted(grid.update_hitbox(1, 0, None, Some(a), &[0]).unwrap()), Vec::<u64>::new());
    assert_eq!(sorted(grid.update_hitbox(2, 0, None, Some(b), &[0]).unwrap()), vec![1]);
    assert_eq!(sorted(grid.update_hitbox(3, 0, None, Some(far), &[0]).unwrap()), Vec::<u64>::new());
    assert_eq!(sorted(grid.update_hitbox(4, 1, None, Some(a), &[0, 1]).unwrap()), vec![1, 2]);
    assert_eq!(sorted(grid.update_hitbox(5, 1, None, Some(a), &[1]).unwrap()), vec![4]);
    assert_eq!(sorted(grid.update_hitbox(6, 1, None, Some(a), &[]).unwrap()), Vec::<u64>::new());
}

#[test]
fn shape_cellmates_reads_without_changing() {
    let mut grid = Grid::new();
    let a = IndexRect::new((0, 0), (2, 2));
    grid.update_hitbox(1, 0, None, Some(a), &[0]);
    grid.update_hitbox(2, 3, None, Some(a), &[0]);
    let probe = IndexRect::new((1, 1), (5, 5));
    assert_eq!(sorted(grid.shape_cellmates(probe, &[0])), vec![1]);
    assert_eq!(sorted(grid.shape_cellmates(probe, &[3])), vec![2]);
    assert_eq!(sorted(grid.shape_cellmates(probe, &[0, 3])), vec![1, 2]);
    assert_eq!(sorted(grid.shape_cellmates(probe, &[7])), Vec::<u64>::new());
    assert_eq!(sorted(grid.shape_cellmates(IndexRect::new((2, 2), (3, 3)), &[0, 3])), Vec::<u64>::new());
    assert_eq!(sorted(grid.shape_cellmates(probe, &[0])), vec![1]);
}

#[test]
fn moving_a_hitbox_changes_its_cells() {
    let mut grid = Grid::new();
    let old = IndexRect::new((0, 0), (2, 2));
    let new = IndexRect::new((1, 0), (3, 2));
    grid.update_hitbox(1, 0, None, Some(old), &[0]);
    let found = grid.update_hitbox(1, 0, Some(old), Some(new), &[0]).unwrap();
    assert_eq!(sorted(found), Vec::<u64>::new());
    assert_eq!(sorted(grid.shape_cellmates(IndexRect::new((0, 0), (1, 2)), &[0])), Vec::<u64>::new());
    assert_eq!(sorted(grid.shape_cellmates(IndexRect::new((1, 0), (2, 2)), &[0])), vec![1]);
    assert_eq!(sorted(grid.shape_cellmates(IndexRect::new((2, 0), (3, 2)), &[0])), vec![1]);
    assert_eq!(sorted(grid.shape_cellmates(IndexRect::new((3, 0), (4, 2)), &[0])), Vec::<u64>::new());
}

#[test]
fn removing_a_hitbox_frees_its_cells() {
    let mut grid = Grid::new();
    let a = IndexRect::new((-2, -2), (2, 2));
    grid.update_hitbox(1, 0, None, Some(a), &[0]);
    grid.update_hitbox(2, 0, None, Some(a), &[0]);
    assert!(grid.update_hitbox(1, 0, Some(a), None, &[]).is_none());
    assert_eq!(sorted(grid.shape_cellmates(a, &[0])), vec![2]);
    assert!(grid.update_hitbox(2, 0, Some(a), None, &[]).is_none());
    assert_eq!(sorted(grid.shape_cellmates(a, &[0])), Vec::<u64>::new());
    assert_eq!(sorted(grid.update_hitbox(1, 0, None, Some(a), &[0]).unwrap()), Vec::<u64>::new());
}

#[test]
fn overlapping_ids_leaves_out_the_hitbox_itself() {
    let mut grid = Grid::new();
    let a = IndexRect::new((0, 0), (1, 1));
    grid.update_hitbox(1, 0, None, Some(a), &[0]);
    grid.update_hitbox(2, 0, None, Some(a), &[0]);
    assert_eq!(sorted(grid.overlapping_ids(None, a, &[0])), vec![1, 2]);
    assert_eq!(sorted(grid.overlapping_ids(Some(1), a, &[0])), vec![2]);
    assert_eq!(sorted(grid.overlapping_ids(Some(9), a, &[0])), vec![1, 2]);
}
