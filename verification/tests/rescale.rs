use city_gen::building::Building;
use city_gen::city::City;
use city_gen::city_generation::CityGenerator;
use city_gen::layout::mark_footprint;
use city_gen::occupancy::CellType;
use city_gen::rescale::stretch;

#[test]
fn stretch_draws_each_step_anew() {
    let road = vec![(0, 0), (1, 0), (1, 1), (0, 1), (0, 0)];
    assert_eq!(
        stretch(&road, 3),
        vec![
            (0, 0), (1, 0), (2, 0),
            (3, 0), (3, 1), (3, 2),
            (3, 3), (2, 3), (1, 3),
            (0, 3), (0, 2), (0, 1),
        ]
    );
}

#[test]
fn stretch_by_one_leaves_out_the_last_cell() {
    let road = vec![(5, -2), (5, -1), (6, -1)];
    assert_eq!(stretch(&road, 1), vec![(5, -2), (5, -1)]);
}

#[test]
fn stretch_of_short_roads_is_empty() {
    assert_eq!(stretch(&vec![], 4), vec![]);
    assert_eq!(stretch(&vec![(7, 7)], 4), vec![]);
}

#[test]
fn stretch_far_from_the_origin() {
    let road = vec![(-100, 50), (-101, 50), (-101, 49)];
    assert_eq!(stretch(&road, 2), vec![(-200, 100), (-201, 100), (-202, 100), (-202, 99)]);
}

#[test]
fn stretch_keeps_the_road_in_one_piece() {
    let road = vec![(0, 0), (0, 1), (0, 2), (1, 2), (2, 2), (2, 1), (3, 1)];
    for k in 1..6 {
        let drawn = stretch(&road, k);
        assert_eq!(drawn.len(), 6 * k as usize);
        assert_eq!(drawn[0], (0, 0));
        for pair in drawn.windows(2) {
            assert_eq!((pair[0].0 - pair[1].0).abs() + (pair[0].1 - pair[1].1).abs(), 1);
        }
        let last = drawn[drawn.len() - 1];
        assert_eq!((last.0 - 3 * k).abs() + (last.1 - k).abs(), 1);
    }
}

#[test]
fn rescale_multiplies_the_city_and_writes_the_index_afresh() {
    let mut generator = CityGenerator::new(1, 8..30, 8..30, 20..100, 500);
    let mut city = City::new();
    let left = Building { door: (2, 1), x: 0, y: 0, width: 2, height: 2, is_important: true, id: 0 };
    let right = Building { door: (6, 1), x: 6, y: 0, width: 2, height: 2, is_important: true, id: 0 };
    for b in [left, right] {
        mark_footprint(&mut generator.occupancy, &b);
        city.important_buildings.push((b.x, b.y));
        city.update_borders_from_new_building(&b);
        city.insert(b);
    }
    generator.connect_important_buildings(&mut city);
    assert_eq!(
        city.roads,
        vec![vec![(2, 1), (3, 1), (4, 1), (5, 1), (6, 1)], vec![(6, 1), (5, 1)]]
    );
    assert_eq!((city.min_x, city.min_y, city.max_x, city.max_y), (-20, -20, 28, 22));
    generator.occupancy.mark((40, 40), CellType::Road);

    generator.rescale(&mut city, 3);

    assert_eq!(city.buildings, vec![left.scaled(3), right.scaled(3)]);
    assert_eq!(city.buildings[0].door, (6, 3));
    assert_eq!(city.important_buildings, vec![(0, 0), (18, 0)]);
    assert_eq!((city.min_x, city.min_y, city.max_x, city.max_y), (-60, -60, 84, 66));
    assert_eq!(
        city.roads,
        vec![
            vec![
                (6, 3), (7, 3), (8, 3), (9, 3), (10, 3), (11, 3), (12, 3), (13, 3), (14, 3),
                (15, 3), (16, 3), (17, 3),
            ],
            vec![(18, 3), (17, 3), (16, 3)],
        ]
    );
    // what was in the index before is gone
    assert_eq!(generator.occupancy.tag_of((40, 40)), None);
    // the doors are free, the rest of each footprint is taken
    assert_eq!(generator.occupancy.tag_of((6, 3)), None);
    assert_eq!(generator.occupancy.tag_of((18, 3)), None);
    for b in &city.buildings {
        for x in b.x..=b.x + b.width {
            for y in b.y..=b.y + b.height {
                if (x, y) != b.door {
                    assert_eq!(generator.occupancy.tag_of((x, y)), Some(CellType::Building));
                }
            }
        }
    }
    // the roads are written, but for the doors
    for x in 7..=17 {
        assert_eq!(generator.occupancy.tag_of((x, 3)), Some(CellType::Road));
    }
}
