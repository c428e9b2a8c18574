use liquid_tiles::tiles::generic_tiles::{GenericTiles, Tile};
use liquid_tiles::tiles::liquid::{Direction, LiquidTile, EMPTY_THRESHOLD, UNIT};
use liquid_tiles::tiles::OptTileIndex;

const DT: u32 = 1000;

fn total_amount(tiles: &GenericTiles<LiquidTile>) -> u64 {
    let mut sum = 0u64;
    for (_, chunk) in tiles.indexed_chunks() {
        for (_, tile) in chunk.indexed_tiles() {
            sum += tile.amount;
        }
    }
    sum
}

fn amount_at(tiles: &GenericTiles<LiquidTile>, p: [i32; 2]) -> u64 {
    tiles.get(&p).map(|t| t.amount).unwrap_or(0)
}

#[test]
fn liquid_cell_emptiness() {
    assert!(LiquidTile::new(0).is_empty());
    assert!(LiquidTile::new(EMPTY_THRESHOLD).is_empty());
    assert!(!LiquidTile::new(EMPTY_THRESHOLD + 1).is_empty());
    assert!(LiquidTile::new(UNIT).needs_sprite());
    assert!(!LiquidTile::default_tile().needs_sprite());
    assert!(OptTileIndex::from_index(0).needs_sprite());
    assert!(!OptTileIndex::default_tile().needs_sprite());
}

#[test]
fn directions_and_offsets() {
    let all = Direction::all();
    assert_eq!(all, [Direction::Right, Direction::Down, Direction::Left, Direction::Up]);
    assert_eq!(Direction::Right.offset(), [1, 0]);
    assert_eq!(Direction::Down.offset(), [0, -1]);
    assert_eq!(Direction::Left.offset(), [-1, 0]);
    assert_eq!(Direction::Up.offset(), [0, 1]);
    assert_eq!(Direction::Up.index(), 3);
    assert_eq!(Direction::map(|d| d.index() * 10), [0, 10, 20, 30]);
    assert_eq!(
        Direction::map_offset([5, 5], |p, _| p),
        [[6, 5], [5, 4], [4, 5], [5, 6]]
    );
    assert_eq!(Direction::Right.neighbor(&[i32::MAX, 0]), None);
    assert_eq!(Direction::Down.neighbor(&[3, 0]), Some([3, -1]));
    Direction::for_each(|d| assert!(d.index() < 4));
    Direction::for_each_offset([0, 0], |p, d| assert_eq!(p, d.offset()));
}

#[test]
fn flow_of_a_free_cell() {
    let tile = LiquidTile::new(UNIT);
    let (velocity, flows) = tile.flow(&[0, 0, 0, 0], &[false; 4], DT);
    assert_eq!(velocity, [1000, 1100, 1000, 900]);
    assert_eq!(flows, [1000, 1100, 1000, 900]);
}

#[test]
fn flow_is_capped_by_amount() {
    // a small amount with a large velocity sends out at most what it holds
    let tile = LiquidTile { amount: 500, velocity: [10000, 10000, 10000, 10000] };
    let (velocity, flows) = tile.flow(&[0, 0, 0, 0], &[false; 4], DT);
    assert_eq!(velocity, [9050, 9150, 9050, 9000]);
    let sum: u64 = flows.iter().sum();
    assert!(sum <= 500);
    assert_eq!(flows, [124, 126, 124, 124]);
}

#[test]
fn flow_blocked_by_solid() {
    let tile = LiquidTile::new(UNIT);
    let (velocity, flows) = tile.flow(&[0, 0, 0, 0], &[false, true, false, false], DT);
    assert_eq!(velocity, [1000, 0, 1000, 900]);
    assert_eq!(flows, [1000, 0, 1000, 900]);
}

#[test]
fn flow_of_empty_cell_changes_nothing() {
    let tile = LiquidTile { amount: EMPTY_THRESHOLD, velocity: [7, 8, 9, 10] };
    let (velocity, flows) = tile.flow(&[0, 0, 0, 0], &[false; 4], DT);
    assert_eq!(velocity, [7, 8, 9, 10]);
    assert_eq!(flows, [0, 0, 0, 0]);
}

#[test]
fn step_keeps_still_cells() {
    let solid = GenericTiles::<OptTileIndex>::new(16);
    let mut liquid = GenericTiles::<LiquidTile>::new(16);
    let still = LiquidTile { amount: 5, velocity: [1, 2, 3, 4] };
    liquid.set(&[40, 40], still);
    liquid.step(&solid, DT);
    assert_eq!(liquid.get(&[40, 40]), Some(&still));
    assert_eq!(amount_at(&liquid, [41, 40]), 0);
}

#[test]
fn step_does_not_push_into_solid() {
    let mut solid = GenericTiles::<OptTileIndex>::new(16);
    solid.set(&[0, 0], OptTileIndex::from_index(0));
    let mut liquid = GenericTiles::<LiquidTile>::new(16);
    liquid.set(&[0, 1], LiquidTile::new(UNIT));
    liquid.step(&solid, DT);
    let cell = liquid.get(&[0, 1]).unwrap();
    assert_eq!(cell.velocity[Direction::Down.index()], 0);
    assert_eq!(amount_at(&liquid, [0, 0]), 0);
    assert_eq!(cell.amount, UNIT - 2900);
    assert_eq!(amount_at(&liquid, [1, 1]), 1000);
    assert_eq!(amount_at(&liquid, [-1, 1]), 1000);
    assert_eq!(amount_at(&liquid, [0, 2]), 900);
}

#[test]
fn step_reads_the_start_of_the_tick() {
    // two full cells side by side push into each other by the same rule
    let solid = GenericTiles::<OptTileIndex>::new(16);
    let mut liquid = GenericTiles::<LiquidTile>::new(16);
    liquid.set(&[0, 0], LiquidTile::new(UNIT));
    liquid.set(&[1, 0], LiquidTile::new(UNIT));
    liquid.step(&solid, DT);
    let a = liquid.get(&[0, 0]).unwrap();
    let b = liquid.get(&[1, 0]).unwrap();
    assert_eq!(a.velocity[Direction::Right.index()], 0);
    assert_eq!(b.velocity[Direction::Left.index()], 0);
    assert_eq!(a.amount, b.amount);
    assert_eq!(total_amount(&liquid), 2 * UNIT);
}

#[test]
fn step_marks_written_cells() {
    let solid = GenericTiles::<OptTileIndex>::new(16);
    let mut liquid = GenericTiles::<LiquidTile>::new(16);
    liquid.set(&[15, 0], LiquidTile::new(UNIT));
    liquid.clear_modified();
    liquid.step(&solid, DT);
    liquid.deduplicate_modified();
    assert_eq!(liquid.modified_chunks(), &[[0, -1], [0, 0], [1, 0]]);
}

#[test]
fn end_to_end_floor() {
    let mut solid = GenericTiles::<OptTileIndex>::new(16);
    for x in 0..10 {
        solid.set(&[x, 0], OptTileIndex::from_index(0));
    }
    let mut liquid = GenericTiles::<LiquidTile>::new(16);
    liquid.set(&[0, 5], LiquidTile::new(UNIT));
    let total = total_amount(&liquid);
    assert_eq!(total, UNIT);

    let before = amount_at(&liquid, [0, 5]);
    liquid.step(&solid, DT);
    assert!(amount_at(&liquid, [0, 5]) < before);
    assert!(amount_at(&liquid, [0, 4]) > 0);
    assert_eq!(total_amount(&liquid), total);

    for _ in 0..60 {
        liquid.step(&solid, DT);
        assert_eq!(total_amount(&liquid), total);
        for x in 0..10 {
            assert_eq!(amount_at(&liquid, [x, 0]), 0);
        }
    }
    assert!(amount_at(&liquid, [0, 1]) > 0);
    assert!(amount_at(&liquid, [1, 1]) > 0);
}

#[test]
fn plan_step_reads_neighbors_and_solids() {
    let mut solid = GenericTiles::<OptTileIndex>::new(16);
    solid.set(&[0, 0], OptTileIndex::from_index(0));
    let mut liquid = GenericTiles::<LiquidTile>::new(16);
    liquid.set(&[0, 1], LiquidTile::new(UNIT));
    liquid.set(&[1, 1], LiquidTile::new(UNIT / 2));
    liquid.set(&[5, 5], LiquidTile::new(EMPTY_THRESHOLD));
    let plans = liquid.plan_step(&solid, DT);
    assert_eq!(plans.len(), 2);
    let first = plans.iter().find(|p| p.0 == [0, 1]).unwrap();
    // right: 10000 - 5000 = 5000 -> 500; down: blocked; left: 1000; up: 900
    assert_eq!(first.1, [500, 0, 1000, 900]);
    assert_eq!(first.2, [500, 0, 1000, 900]);
    let second = plans.iter().find(|p| p.0 == [1, 1]).unwrap();
    // right: 5000 -> 500; down: 5000 + 1000 -> 600; left: 5000 - 10000 < 0 -> 0; up: 4000 -> 400
    assert_eq!(second.1, [500, 600, 0, 400]);
    assert_eq!(second.2, [500, 600, 0, 400]);
}

#[test]
fn end_to_end_first_tick_values() {
    let mut solid = GenericTiles::<OptTileIndex>::new(16);
    for x in 0..10 {
        solid.set(&[x, 0], OptTileIndex::from_index(0));
    }
    let mut liquid = GenericTiles::<LiquidTile>::new(16);
    liquid.set(&[0, 5], LiquidTile::new(UNIT));
    liquid.step(&solid, DT);
    let source = liquid.get(&[0, 5]).unwrap();
    assert_eq!(source.amount, UNIT - 4000);
    assert_eq!(source.velocity, [1000, 1100, 1000, 900]);
    assert_eq!(amount_at(&liquid, [1, 5]), 1000);
    assert_eq!(amount_at(&liquid, [0, 4]), 1100);
    assert_eq!(amount_at(&liquid, [-1, 5]), 1000);
    assert_eq!(amount_at(&liquid, [0, 6]), 900);
    // cells that received liquid keep their velocity at rest
    assert_eq!(liquid.get(&[0, 4]).unwrap().velocity, [0, 0, 0, 0]);
}

#[test]
fn step_saturates_at_the_largest_amount() {
    let solid = GenericTiles::<OptTileIndex>::new(16);
    let mut liquid = GenericTiles::<LiquidTile>::new(16);
    liquid.set(&[0, 0], LiquidTile::new(u64::MAX));
    liquid.set(&[1, 0], LiquidTile::new(u64::MAX));
    liquid.step(&solid, DT);
    let a = liquid.get(&[0, 0]).unwrap();
    assert!(a.amount <= u64::MAX);
    assert_eq!(a.velocity[Direction::Right.index()], 0);
}
