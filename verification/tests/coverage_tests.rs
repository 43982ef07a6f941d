use hexmvt::coverage::bubble_up;
use hexmvt::tile::TileID;

#[test]
fn bubble_up_single_chain() {
    // One deep tile bubbles up to exactly one ancestor per zoom level.
    let tiles = vec![TileID::new_unchecked(265544, 180338, 19)];
    let result = bubble_up(tiles, 19, 0);

    let expected = vec![
        TileID::new_unchecked(265544, 180338, 19),
        TileID::new_unchecked(132772, 90169, 18),
        TileID::new_unchecked(66386, 45084, 17),
        TileID::new_unchecked(33193, 22542, 16),
        TileID::new_unchecked(16596, 11271, 15),
        TileID::new_unchecked(8298, 5635, 14),
        TileID::new_unchecked(4149, 2817, 13),
        TileID::new_unchecked(2074, 1408, 12),
        TileID::new_unchecked(1037, 704, 11),
        TileID::new_unchecked(518, 352, 10),
        TileID::new_unchecked(259, 176, 9),
        TileID::new_unchecked(129, 88, 8),
        TileID::new_unchecked(64, 44, 7),
        TileID::new_unchecked(32, 22, 6),
        TileID::new_unchecked(16, 11, 5),
        TileID::new_unchecked(8, 5, 4),
        TileID::new_unchecked(4, 2, 3),
        TileID::new_unchecked(2, 1, 2),
        TileID::new_unchecked(1, 0, 1),
        TileID::new_unchecked(0, 0, 0),
    ];
    assert_eq!(result, expected);
}

#[test]
fn bubble_up_merges_parents() {
    // Tiles sharing an ancestor contribute it only once.
    let tiles = vec![
        TileID::new_unchecked(0, 0, 2),
        TileID::new_unchecked(1, 1, 2),
        TileID::new_unchecked(2, 2, 2),
    ];
    let result = bubble_up(tiles, 2, 0);
    let expected = vec![
        TileID::new_unchecked(0, 0, 2),
        TileID::new_unchecked(1, 1, 2),
        TileID::new_unchecked(2, 2, 2),
        TileID::new_unchecked(0, 0, 1),
        TileID::new_unchecked(1, 1, 1),
        TileID::new_unchecked(0, 0, 0),
    ];
    assert_eq!(result, expected);
}

#[test]
fn bubble_up_respects_range_start() {
    let tiles = vec![TileID::new_unchecked(12, 6, 4)];
    let result = bubble_up(tiles, 4, 3);
    let expected = vec![
        TileID::new_unchecked(12, 6, 4),
        TileID::new_unchecked(6, 3, 3),
    ];
    assert_eq!(result, expected);

    // An empty range adds nothing.
    let tiles = vec![TileID::new_unchecked(12, 6, 4)];
    let result = bubble_up(tiles, 4, 7);
    assert_eq!(result, vec![TileID::new_unchecked(12, 6, 4)]);
}
