use liquid_tiles::tiles::coord::{combine_coord as combine, point_to_chunk_coord as chunk_of};
use liquid_tiles::tiles::generic_tiles::GenericTiles;
use liquid_tiles::tiles::liquid::LiquidTile;
use liquid_tiles::tiles::OptTileIndex;

#[test]
fn point_to_chunk_coord() {
    let tiles = GenericTiles::<OptTileIndex>::new(16);
    assert_eq!(tiles.point_to_chunk_coord(&[0, 0]), [0, 0]);
    assert_eq!(tiles.point_to_chunk_coord(&[10, 10]), [0, 0]);
    assert_eq!(tiles.point_to_chunk_coord(&[16, 16]), [1, 1]);
    assert_eq!(tiles.point_to_chunk_coord(&[-5, -5]), [-1, -1]);
    assert_eq!(tiles.point_to_chunk_coord(&[-15, -15]), [-1, -1]);
    assert_eq!(tiles.point_to_chunk_coord(&[-16, -16]), [-1, -1]);
    assert_eq!(tiles.point_to_chunk_coord(&[-17, -17]), [-2, -2]);
}

#[test]
fn point_to_inner_coord() {
    let tiles = GenericTiles::<OptTileIndex>::new(16);
    assert_eq!(tiles.point_to_inner_coord(&[0, 0]), [0, 0]);
    assert_eq!(tiles.point_to_inner_coord(&[10, 10]), [10, 10]);
    assert_eq!(tiles.point_to_inner_coord(&[16, 16]), [0, 0]);
    assert_eq!(tiles.point_to_inner_coord(&[-1, -1]), [15, 15]);
    assert_eq!(tiles.point_to_inner_coord(&[-2, -2]), [14, 14]);
    assert_eq!(tiles.point_to_inner_coord(&[-16, -16]), [0, 0]);
    assert_eq!(tiles.point_to_inner_coord(&[-17, -17]), [15, 15]);
}

#[test]
fn chunk_coord_to_corner() {
    let tiles = GenericTiles::<OptTileIndex>::new(16);
    assert_eq!(tiles.chunk_coord_to_corner(&[0, 0]), [0, 0]);
    assert_eq!(tiles.chunk_coord_to_corner(&[1, 1]), [16, 16]);
    assert_eq!(tiles.chunk_coord_to_corner(&[-1, -1]), [-16, -16]);
    assert_eq!(tiles.chunk_coord_to_corner(&[-2, -2]), [-32, -32]);
}

#[test]
fn combine_coord() {
    let tiles = GenericTiles::<OptTileIndex>::new(16);

    let points = [
        [0, 0],
        [10, 10],
        [16, 16],
        [-5, -5],
        [-15, -15],
        [-16, -16],
        [-17, -17],
    ];

    for point in &points {
        let chunk_coord = tiles.point_to_chunk_coord(point);
        let inner_coord = tiles.point_to_inner_coord(point);
        assert_eq!(tiles.combine_coord(&chunk_coord, &inner_coord), *point);
    }
}

#[test]
fn round_trip_negative_point() {
    let chunk = chunk_of(16, &[-17, -17]);
    let inner = liquid_tiles::tiles::coord::point_to_inner_coord(16, &[-17, -17]);
    assert_eq!(chunk, [-2, -2]);
    assert_eq!(inner, [15, 15]);
    assert_eq!(combine(16, &chunk, &inner), [-17, -17]);
}

#[test]
fn round_trip_other_chunk_sizes() {
    for n in [1usize, 3, 7, 16, 100] {
        for x in -40i32..40 {
            let p = [x, -x * 3 + 1];
            let (c, i) = liquid_tiles::tiles::coord::split_coord(n, &p);
            assert!(i[0] < n && i[1] < n);
            assert_eq!(combine(n, &c, &i), p);
        }
    }
}

#[test]
fn split_coord_parts() {
    let tiles = GenericTiles::<OptTileIndex>::new(16);
    assert_eq!(tiles.split_coord(&[-1, 33]), ([-1, 2], [15, 1]));
    assert_eq!(tiles.combine_coord_tuple(&[-1, 2], (15, 1)), [-1, 33]);
}

#[test]
fn fresh_grid_is_empty_and_lazily_created() {
    let mut tiles = GenericTiles::<LiquidTile>::new(16);
    assert!(tiles.get(&[0, 0]).is_none());
    assert!(tiles.get(&[-100, 37]).is_none());
    assert_eq!(tiles.indexed_chunks().len(), 0);

    let cell = *tiles.get_or_create(&[-3, 20]);
    assert_eq!(cell, LiquidTile::new(0));
    assert_eq!(tiles.get(&[-3, 20]), Some(&LiquidTile::new(0)));
    // other cells of the same chunk now exist with the default value
    assert_eq!(tiles.get(&[-16, 31]), Some(&LiquidTile::new(0)));
    // cells of other chunks are still absent
    assert!(tiles.get(&[0, 20]).is_none());
    let chunks = tiles.indexed_chunks();
    assert_eq!(chunks.len(), 1);
    assert_eq!(chunks[0].0, [-1, 1]);
    assert_eq!(tiles.modified_chunks(), &[[-1, 1]]);
    assert_eq!(chunks[0].1.modified_tiles(), &[[13, 4]]);
}

#[test]
fn set_then_clear_modified() {
    let mut tiles = GenericTiles::<OptTileIndex>::new(16);
    tiles.set(&[5, -7], OptTileIndex::from_index(3));
    assert_eq!(tiles.modified_chunks(), &[[0, -1]]);
    tiles.clear_modified();
    assert!(tiles.modified_chunks().is_empty());
    assert_eq!(tiles.get(&[5, -7]), Some(&OptTileIndex::from_index(3)));
    let chunk = tiles.chunk(&[0, -1]).unwrap();
    assert!(chunk.modified_tiles().is_empty());
}

#[test]
fn clear_drops_everything() {
    let mut tiles = GenericTiles::<OptTileIndex>::new(16);
    tiles.set(&[1, 1], OptTileIndex::from_index(0));
    tiles.set(&[100, -100], OptTileIndex::from_index(1));
    tiles.clear();
    assert!(tiles.get(&[1, 1]).is_none());
    assert!(tiles.get(&[100, -100]).is_none());
    assert!(tiles.modified_chunks().is_empty());
    assert_eq!(tiles.indexed_chunks().len(), 0);
}

#[test]
fn deduplicate_sorts_and_drops_repeats() {
    let mut tiles = GenericTiles::<OptTileIndex>::new(16);
    tiles.set(&[20, 0], OptTileIndex::from_index(0));
    tiles.set(&[1, 2], OptTileIndex::from_index(0));
    tiles.set(&[20, 0], OptTileIndex::from_index(1));
    tiles.set(&[-1, 0], OptTileIndex::from_index(0));
    tiles.set(&[0, 3], OptTileIndex::from_index(0));
    tiles.set(&[1, 2], OptTileIndex::from_index(2));
    assert_eq!(tiles.modified_chunks().len(), 6);
    tiles.deduplicate_modified();
    assert_eq!(tiles.modified_chunks(), &[[-1, 0], [0, 0], [1, 0]]);
    let chunk = tiles.chunk(&[0, 0]).unwrap();
    assert_eq!(chunk.modified_tiles(), &[[0, 3], [1, 2]]);
    let chunk = tiles.chunk(&[1, 0]).unwrap();
    assert_eq!(chunk.modified_tiles(), &[[4, 0]]);
    assert_eq!(tiles.get(&[20, 0]), Some(&OptTileIndex::from_index(1)));
    assert_eq!(tiles.get(&[1, 2]), Some(&OptTileIndex::from_index(2)));
}

#[test]
fn chunk_cells_are_row_major() {
    let mut tiles = GenericTiles::<OptTileIndex>::new(4);
    tiles.set(&[1, 2], OptTileIndex::from_index(9));
    let chunk = tiles.chunk(&[0, 0]).unwrap();
    assert_eq!(chunk.size(), 4);
    assert_eq!(chunk.tiles().len(), 16);
    assert_eq!(chunk.tiles()[6], OptTileIndex::from_index(9));
    assert_eq!(*chunk.get(&[1, 2]), OptTileIndex::from_index(9));
    let cells = chunk.indexed_tiles();
    assert_eq!(cells.len(), 16);
    assert_eq!(cells[6].0, [1, 2]);
    assert_eq!(*cells[6].1, OptTileIndex::from_index(9));
    assert_eq!(cells[15].0, [3, 3]);
    assert_eq!(*cells[15].1, OptTileIndex::empty());
}

#[test]
fn solid_cell_index() {
    assert_eq!(OptTileIndex::empty().get_index(), None);
    assert_eq!(OptTileIndex::from_index(0).get_index(), Some(0));
    assert_eq!(OptTileIndex::from_index(7).get_index(), Some(7));
}

#[test]
fn get_chunk_or_create_marks_and_fills() {
    let mut tiles = GenericTiles::<OptTileIndex>::new(8);
    let chunk = tiles.get_chunk_or_create(&[-3, 2]);
    assert_eq!(chunk.tiles().len(), 64);
    assert!(chunk.tiles().iter().all(|t| *t == OptTileIndex::empty()));
    assert!(chunk.modified_tiles().is_empty());
    assert_eq!(tiles.modified_chunks(), &[[-3, 2]]);
    assert_eq!(tiles.get(&[-24, 16]), Some(&OptTileIndex::empty()));
    assert!(tiles.get(&[-25, 16]).is_none());
    tiles.set(&[-24, 16], OptTileIndex::from_index(4));
    let again = tiles.get_chunk_or_create(&[-3, 2]);
    assert_eq!(*again.get(&[0, 0]), OptTileIndex::from_index(4));
    assert_eq!(tiles.indexed_chunks().len(), 1);
    assert_eq!(tiles.chunks().len(), 1);
}

#[test]
fn get_or_create_hands_out_a_writable_cell() {
    let mut tiles = GenericTiles::<OptTileIndex>::new(16);
    *tiles.get_or_create(&[3, -40]) = OptTileIndex::from_index(6);
    assert_eq!(tiles.get(&[3, -40]), Some(&OptTileIndex::from_index(6)));
    // an existing value is handed out as it is, and the write is recorded again
    assert_eq!(*tiles.get_or_create(&[3, -40]), OptTileIndex::from_index(6));
    assert_eq!(tiles.modified_chunks(), &[[0, -3], [0, -3]]);
    let chunk = tiles.chunk(&[0, -3]).unwrap();
    assert_eq!(chunk.modified_tiles(), &[[3, 8], [3, 8]]);
    assert_eq!(tiles.indexed_chunks().len(), 1);
}

#[test]
fn get_mut_only_where_the_chunk_exists() {
    let mut tiles = GenericTiles::<OptTileIndex>::new(16);
    assert!(tiles.get_mut(&[1, 1]).is_none());
    assert!(tiles.modified_chunks().is_empty());
    assert_eq!(tiles.indexed_chunks().len(), 0);
    tiles.set(&[0, 0], OptTileIndex::from_index(1));
    tiles.clear_modified();
    *tiles.get_mut(&[1, 1]).unwrap() = OptTileIndex::from_index(2);
    assert_eq!(tiles.get(&[1, 1]), Some(&OptTileIndex::from_index(2)));
    assert_eq!(tiles.modified_chunks(), &[[0, 0]]);
    assert_eq!(tiles.chunk(&[0, 0]).unwrap().modified_tiles(), &[[1, 1]]);
}

#[test]
fn clear_modified_keeps_other_chunk_lists() {
    let mut tiles = GenericTiles::<OptTileIndex>::new(16);
    tiles.set(&[0, 0], OptTileIndex::from_index(1));
    tiles.set(&[20, 0], OptTileIndex::from_index(1));
    tiles.clear_modified();
    assert!(tiles.chunk(&[0, 0]).unwrap().modified_tiles().is_empty());
    assert!(tiles.chunk(&[1, 0]).unwrap().modified_tiles().is_empty());
    tiles.deduplicate_modified();
    assert!(tiles.modified_chunks().is_empty());
}

#[test]
fn coordinates_with_large_chunk_size() {
    let n = i32::MAX as usize;
    assert_eq!(chunk_of(n, &[-1, i32::MAX]), [-1, 1]);
    let (c, i) = liquid_tiles::tiles::coord::split_coord(n, &[i32::MIN, 5]);
    assert_eq!(combine(n, &c, &i), [i32::MIN, 5]);
}
