use hexmvt::error::InvalidTileID;
use hexmvt::tile::TileID;

#[test]
fn parent() {
    let tile = TileID::new_unchecked(265544, 180338, 19);
    let parents = [
        TileID::new_unchecked(132772, 90169, 18),
        TileID::new_unchecked(66386, 45084, 17),
        TileID::new_unchecked(33193, 22542, 16),
        TileID::new_unchecked(16596, 11271, 15),
        TileID::new_unchecked(8298, 5635, 14),
        TileID::new_unchecked(4149, 2817, 13),
        TileID::new_unchecked(2074, 1408, 12),
        TileID::new_unchecked(1037, 704, 11),
        TileID::new_unchecked(518, 352, 10),
        TileID::new_unchecked(259, 176, 9),
        TileID::new_unchecked(129, 88, 8),
        TileID::new_unchecked(64, 44, 7),
        TileID::new_unchecked(32, 22, 6),
        TileID::new_unchecked(16, 11, 5),
        TileID::new_unchecked(8, 5, 4),
        TileID::new_unchecked(4, 2, 3),
        TileID::new_unchecked(2, 1, 2),
        TileID::new_unchecked(1, 0, 1),
        TileID::new_unchecked(0, 0, 0),
    ];

    for expected in parents {
        let zoom = expected.zoom();
        assert_eq!(tile.parent(zoom), Some(expected), "parent {zoom}");
    }
}

#[test]
fn neighbors_antimeridian() {
    let tile = TileID::new_unchecked(0, 287108, 19);
    let expected = [
        TileID::new_unchecked(524287, 287107, 19),
        TileID::new_unchecked(0, 287107, 19),
        TileID::new_unchecked(1, 287107, 19),
        TileID::new_unchecked(524287, 287108, 19),
        TileID::new_unchecked(1, 287108, 19),
        TileID::new_unchecked(524287, 287109, 19),
        TileID::new_unchecked(0, 287109, 19),
        TileID::new_unchecked(1, 287109, 19),
    ];
    let results = tile.neighbors();

    assert_eq!(results, expected);
}

#[test]
fn new_validates_coordinates() {
    assert!(TileID::new(265543, 180337, 19).is_ok());
    assert_eq!(TileID::new(2, 0, 1), Err(InvalidTileID::InvalidX(2)));
    assert_eq!(TileID::new(0, 2, 1), Err(InvalidTileID::InvalidY(2)));
    assert_eq!(TileID::new(0, 0, 32), Err(InvalidTileID::InvalidZ(32)));
    assert!(TileID::new(0, 0, 0).is_ok());
    assert_eq!(TileID::new(1, 0, 0), Err(InvalidTileID::InvalidX(1)));
    assert!(TileID::new(2147483647, 2147483647, 31).is_ok());
}

#[test]
fn new_reports_coordinates() {
    let tile = TileID::new(3, 2, 4).expect("valid tile");
    assert_eq!(tile.xy(), (3, 2));
    assert_eq!(tile.zoom(), 4);
}

#[test]
fn neighbors_are_distinct() {
    let tile = TileID::new_unchecked(5, 7, 4);
    let results = tile.neighbors();
    assert_eq!(results.len(), 8);
    for (i, a) in results.iter().enumerate() {
        assert_eq!(a.zoom(), 4);
        for b in results.iter().skip(i + 1) {
            assert_ne!(a, b);
        }
    }
}

#[test]
fn neighbors_wrap_at_low_zoom() {
    // At zoom 0 every neighbor wraps back onto the single tile.
    let results = TileID::new_unchecked(0, 0, 0).neighbors();
    assert_eq!(results.len(), 8);
    for n in results {
        assert_eq!(n, TileID::new_unchecked(0, 0, 0));
    }
}

#[test]
fn is_eastern_hemisphere() {
    assert!(TileID::new_unchecked(3, 0, 2).is_eastern());
    assert!(!TileID::new_unchecked(2, 0, 2).is_eastern());
    assert!(!TileID::new_unchecked(0, 0, 0).is_eastern());
    assert!(TileID::new_unchecked(265544, 180338, 19).is_eastern());
}

#[test]
fn extent_is_tile_size() {
    assert_eq!(TileID::extent(), 4096);
}

#[test]
fn error_messages_are_not_empty() {
    assert!(!InvalidTileID::InvalidX(42).message().is_empty());
    assert!(!InvalidTileID::InvalidY(42).message().is_empty());
    assert!(!InvalidTileID::InvalidZ(42).message().is_empty());
}

#[test]
fn error_messages_carry_the_value() {
    assert_eq!(InvalidTileID::InvalidX(42).message(), "invalid x coordinate: 42");
    assert_eq!(InvalidTileID::InvalidY(42).message(), "invalid y coordinate: 42");
    assert_eq!(InvalidTileID::InvalidZ(42).message(), "invalid z coordinate: 42");
    assert_eq!(InvalidTileID::InvalidX(0).message(), "invalid x coordinate: 0");
    assert_eq!(
        InvalidTileID::InvalidY(4294967295).message(),
        "invalid y coordinate: 4294967295",
    );
    assert_eq!(InvalidTileID::InvalidZ(100).message(), "invalid z coordinate: 100");
}

#[test]
fn parent_chain_composes() {
    // Walking down one level at a time agrees with jumping straight to the
    // target zoom.
    let tile = TileID::new_unchecked(265544, 180338, 19);
    let mut step = tile;
    for z in (0..19u8).rev() {
        step = step.parent(z).expect("parent");
        assert_eq!(tile.parent(z), Some(step));
    }
}
