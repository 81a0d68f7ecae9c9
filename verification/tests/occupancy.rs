use city_gen::occupancy::{CellType, OccupancyIndex};

#[test]
fn a_new_index_is_free() {
    let index = OccupancyIndex::new();
    assert_eq!(index.tag_of((0, 0)), None);
    assert!(!index.is_occupied((3, -4)));
}

#[test]
fn mark_then_tag_of() {
    let mut index = OccupancyIndex::new();
    index.mark((3, -4), CellType::Building);
    index.mark((-4, 3), CellType::Road);
    assert_eq!(index.tag_of((3, -4)), Some(CellType::Building));
    assert_eq!(index.tag_of((-4, 3)), Some(CellType::Road));
    assert_eq!(index.tag_of((3, 4)), None);
    assert_eq!(index.tag_of((-3, -4)), None);
    assert!(index.is_occupied((3, -4)));
}

#[test]
fn mark_writes_over_the_tag() {
    let mut index = OccupancyIndex::new();
    index.mark((1, 1), CellType::Building);
    index.mark((1, 1), CellType::Road);
    assert_eq!(index.tag_of((1, 1)), Some(CellType::Road));
}

#[test]
fn unmark_frees_one_cell() {
    let mut index = OccupancyIndex::new();
    index.mark((1, 1), CellType::Building);
    index.mark((1, 2), CellType::Building);
    index.unmark((1, 1));
    index.unmark((9, 9));
    assert_eq!(index.tag_of((1, 1)), None);
    assert_eq!(index.tag_of((1, 2)), Some(CellType::Building));
}

#[test]
fn clear_frees_every_cell() {
    let mut index = OccupancyIndex::new();
    for x in -5..5 {
        index.mark((x, 2 * x), CellType::Road);
    }
    index.clear();
    for x in -5..5 {
        assert_eq!(index.tag_of((x, 2 * x)), None);
    }
}

#[test]
fn cells_at_the_ends_of_the_grid_stay_apart() {
    let mut index = OccupancyIndex::new();
    let corners = [
        (i32::MIN, i32::MIN),
        (i32::MIN, i32::MAX),
        (i32::MAX, i32::MIN),
        (i32::MAX, i32::MAX),
        (0, 0),
        (-1, -1),
        (0, -1),
        (-1, 0),
    ];
    for (i, c) in corners.iter().enumerate() {
        index.mark(*c, if i % 2 == 0 { CellType::Road } else { CellType::Building });
    }
    for (i, c) in corners.iter().enumerate() {
        assert_eq!(index.tag_of(*c), Some(if i % 2 == 0 { CellType::Road } else { CellType::Building }));
    }
    index.unmark((i32::MIN, i32::MAX));
    assert_eq!(index.tag_of((i32::MIN, i32::MAX)), None);
    assert_eq!(index.tag_of((i32::MAX, i32::MIN)), Some(CellType::Road));
    assert_eq!(index.tag_of((1, 0)), None);
}
