use automations::hex_table::HexTable;
use automations::plate_automation::PlateAutomation;
use automations::rng::{random_unit, unit_from_word, UNIT_SCALE};
use automations::seed_automation::SeedAutomation;
use automations::subplate_automation::{territory_bounds, SubPlateAutomation};
use automations::table::Table;
use rand_chacha::rand_core::SeedableRng;
use rand_chacha::ChaCha8Rng;

fn byte_table(side: usize, cells: &[u8]) -> Table<u8> {
    let mut table = Table::new(0u8, side);
    for (i, c) in cells.iter().enumerate() {
        table.set(i, *c);
    }
    table
}

fn cells_of<T: Copy>(table: &Table<T>) -> Vec<T> {
    table.iter().copied().collect()
}

#[test]
fn seed_place_only_on_empty_cells() {
    let mut seeds = SeedAutomation { world: Table::new(false, 64) };
    assert!(seeds.place(20, 30));
    assert!(*seeds.world.get_dim(20, 30));
    assert!(!seeds.place(20, 30));
    assert_eq!(cells_of(&seeds.world).iter().filter(|v| **v).count(), 1);
}

#[test]
fn seed_drop_outside_the_world_is_refused() {
    let mut seeds = SeedAutomation { world: Table::new(false, 20) };
    assert_eq!(seeds.drop_at(19, 30), None);
    assert_eq!(seeds.drop_at(usize::MAX, 2), None);
    assert!(cells_of(&seeds.world).iter().all(|v| !*v));
    // Column 25 of row 3 on a grid of side 20 is the cell at index 85.
    assert_eq!(seeds.drop_at(25, 3), Some(true));
    assert!(*seeds.world.get(85));
    assert_eq!(seeds.drop_at(5, 4), Some(false));
    assert_eq!(cells_of(&seeds.world).iter().filter(|v| **v).count(), 1);
}

#[test]
fn seed_draws_on_a_small_world_may_fall_outside() {
    let mut rng = ChaCha8Rng::seed_from_u64(3);
    let mut seeds = SeedAutomation { world: Table::new(false, 20) };
    let mut outside = 0;
    for _ in 0..20 {
        match seeds.try_next(&mut rng) {
            None => outside += 1,
            Some(_) => {}
        }
    }
    assert!(outside > 0);
    let placed = cells_of(&seeds.world).iter().filter(|v| **v).count();
    assert!(placed + outside <= 20);
}

#[test]
fn seed_draws_spread_over_the_middle() {
    let mut rng = ChaCha8Rng::seed_from_u64(7);
    let mut seeds = SeedAutomation { world: Table::new(false, 64) };
    let mut placed = 0;
    for _ in 0..100 {
        if seeds.try_next(&mut rng) == Some(true) {
            placed += 1;
        }
    }
    let cells = cells_of(&seeds.world);
    assert_eq!(cells.iter().filter(|v| **v).count(), placed);
    assert!(placed > 50);
    for (i, v) in cells.iter().enumerate() {
        if *v {
            let (x, y) = (i % 64, i / 64);
            assert!((16..48).contains(&x) && (16..48).contains(&y));
        }
    }
}

#[test]
fn random_units_lie_below_the_scale() {
    let mut rng = ChaCha8Rng::seed_from_u64(3);
    let draws: Vec<u32> = (0..200).map(|_| random_unit(&mut rng)).collect();
    assert!(draws.iter().all(|u| *u < UNIT_SCALE));
    assert!(draws.iter().any(|u| *u != draws[0]));
}

#[test]
fn plate_step_grows_next_to_plates() {
    let mut world = Table::new(false, 3);
    world.set(4, true);
    let mut plates = PlateAutomation { world };
    plates.step(vec![0; 9]);
    assert_eq!(
        cells_of(&plates.world),
        vec![false, true, false, true, true, true, false, true, false]
    );
}

#[test]
fn plate_step_threshold() {
    // One set neighbour: the cell joins exactly when the draw is at most 1/16.
    let mut world = Table::new(false, 2);
    world.set(0, true);
    let mut plates = PlateAutomation { world };
    plates.step(vec![0, 0x10_0000, 0x10_0001, 0]);
    assert_eq!(cells_of(&plates.world), vec![true, true, false, false]);
    // Two set neighbours: the limit is 4/16.
    let mut world = Table::new(false, 2);
    world.set(1, true);
    world.set(2, true);
    let mut plates = PlateAutomation { world };
    plates.step(vec![0x40_0001, 0, 0, 0x40_0000]);
    assert_eq!(cells_of(&plates.world), vec![false, true, true, true]);
}

#[test]
fn plate_next_keeps_plates() {
    let mut rng = ChaCha8Rng::seed_from_u64(11);
    let mut world = Table::new(false, 8);
    world.set(27, true);
    let mut plates = PlateAutomation { world };
    for _ in 0..5 {
        plates.next(&mut rng);
        assert!(*plates.world.get(27));
    }
    let full = Table::new(true, 4);
    let mut plates = PlateAutomation { world: full };
    plates.next(&mut rng);
    assert!(cells_of(&plates.world).iter().all(|v| *v));
}

#[test]
fn sub_plates_start_unclaimed_on_plates() {
    let mut plates = Table::new(false, 2);
    plates.set(0, true);
    plates.set(3, true);
    let sub = SubPlateAutomation::from_plates(&plates);
    assert_eq!(cells_of(&sub.world), vec![255, 0, 0, 255]);
}

#[test]
fn seed_at_skips_ground() {
    let mut sub = SubPlateAutomation { world: byte_table(2, &[0, 255, 255, 0]) };
    assert!(!sub.seed_at(0, 8));
    assert!(sub.seed_at(1, 8));
    assert_eq!(cells_of(&sub.world), vec![0, 8, 255, 0]);
}

#[test]
fn spread_candidates_are_sub_plate_neighbours() {
    let sub = SubPlateAutomation { world: byte_table(3, &[255, 3, 0, 255, 255, 7, 0, 0, 255]) };
    assert_eq!(sub.spread_candidates(4), vec![3, 7]);
    assert_eq!(sub.spread_candidates(0), vec![3]);
    assert_eq!(sub.spread_candidates(6), Vec::<u8>::new());
}

#[test]
fn spreading_claims_only_unclaimed_cells() {
    let mut rng = ChaCha8Rng::seed_from_u64(5);
    let start = [0, 255, 255, 255, 0, 255, 9, 255, 255, 255, 255, 0, 255, 255, 255, 255];
    let mut sub = SubPlateAutomation { world: byte_table(4, &start) };
    for _ in 0..40 {
        sub.next(&mut rng);
    }
    let cells = cells_of(&sub.world);
    for (i, c) in cells.iter().enumerate() {
        if start[i] != 255 {
            assert_eq!(*c, start[i]);
        } else {
            assert!(*c == 255 || *c == 9);
        }
    }
    assert!(cells.iter().filter(|c| **c == 9).count() > 1);
}

#[test]
fn smoothing_follows_the_tallies() {
    let mut sub = SubPlateAutomation { world: byte_table(2, &[1, 2, 3, 4]) };
    sub.smooth();
    assert_eq!(cells_of(&sub.world), vec![2, 2, 4, 4]);
    let mut sub = SubPlateAutomation { world: byte_table(3, &[6, 6, 6, 6, 1, 6, 6, 6, 6]) };
    sub.smooth();
    assert_eq!(*sub.world.get(4), 6);
}

#[test]
fn sub_plates_grouped_by_colour() {
    let sub = SubPlateAutomation { world: byte_table(3, &[0, 4, 4, 2, 0, 4, 2, 2, 0]) };
    let groups = sub.calculate_subplates();
    assert_eq!(groups.colours, vec![0, 4, 2]);
    assert_eq!(groups.cells, vec![vec![0, 4, 8], vec![1, 2, 5], vec![3, 6, 7]]);
}

#[test]
fn collision_layout_of_two_sub_plates() {
    let sub = SubPlateAutomation { world: byte_table(3, &[0, 4, 4, 2, 0, 4, 2, 2, 0]) };
    let layout = sub.collision_layout(2, 2);
    assert_eq!(layout.colours, vec![2, 4]);
    assert_eq!(
        layout.territories,
        vec![vec![(0, 1), (0, 2), (1, 2)], vec![(1, 0), (2, 0), (2, 1)]]
    );
    assert_eq!(layout.borders, vec![vec![(0, 1)], vec![(1, 0)]]);
    assert_eq!(territory_bounds(&layout.territories[0]), (0, 1, 1, 2));
    assert_eq!(territory_bounds(&layout.territories[1]), (1, 0, 2, 1));
}

#[test]
fn front_lines_empty_the_inside_of_sub_plates() {
    let points: Vec<(usize, usize)> = (0..9).map(|i| (i % 3, i / 3)).collect();
    let sub = SubPlateAutomation { world: byte_table(3, &[5, 5, 5, 5, 7, 5, 5, 5, 5]) };
    let mut hex = HexTable::new(3, 9u8, 3);
    sub.calculate_front_lines(&mut hex, &points);
    let cells: Vec<u8> = (0..9).map(|i| *hex.get(i)).collect();
    assert_eq!(cells, vec![0, 5, 5, 5, 0, 5, 5, 5, 0]);

    let sub = SubPlateAutomation { world: byte_table(3, &[5, 5, 5, 5, 7, 5, 5, 5, 0]) };
    let mut hex = HexTable::new(3, 9u8, 3);
    sub.calculate_front_lines(&mut hex, &points);
    let cells: Vec<u8> = (0..9).map(|i| *hex.get(i)).collect();
    assert_eq!(cells, vec![0, 5, 5, 5, 0, 5, 5, 5, 9]);
}

#[test]
fn unit_is_the_top_of_the_word() {
    assert_eq!(unit_from_word(0xFFFF_FFFF), 0xFF_FFFF);
    assert_eq!(unit_from_word(0x1234_5678), 0x12_3456);
    assert_eq!(unit_from_word(0xFF), 0);
}
