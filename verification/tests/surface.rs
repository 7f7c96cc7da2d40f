use aztec::Bias;
use aztec::Colors;
use aztec::Diamond;
use aztec::Direction;
use aztec::RandomSource;
use aztec::Snapshot;
use aztec::engine::PROB_ONE;
use aztec::errors::BiasError;
use aztec::errors::LoadError;
use std::io::Cursor;

/// A minimal valid snapshot: an empty engine of allocation side 2.
fn empty_snapshot() -> Snapshot {
    Snapshot {
        size: 0,
        capacity: 2,
        cells: vec![0; 4],
        tiles: vec![None],
        next_id: 1,
        free_ids: vec![],
        cursor_row: 0,
        cursor_col: 0,
        probability: 0,
    }
}

#[test]
fn restore_accepts_a_valid_snapshot() {
    let d = Diamond::restore(&empty_snapshot()).unwrap();
    assert_eq!(d.size(), 0);
    assert_eq!(d.capacity(), 2);
}

#[test]
fn restore_rejects_bad_shape() {
    let mut s = empty_snapshot();
    s.cells = vec![0; 5];
    assert_eq!(Diamond::restore(&s).err(), Some(LoadError::BadShape));
    let mut s2 = empty_snapshot();
    s2.capacity = 3;
    assert_eq!(Diamond::restore(&s2).err(), Some(LoadError::BadShape));
}

#[test]
fn restore_rejects_bad_id_counter() {
    let mut s = empty_snapshot();
    s.next_id = 7;
    assert_eq!(Diamond::restore(&s).err(), Some(LoadError::BadIdCounter));
}

#[test]
fn restore_rejects_tile_outside_diamond() {
    let mut s = empty_snapshot();
    s.tiles.push(Some(aztec::Tile { row: 5, col: 5, dir: Direction::Top }));
    s.next_id = 2;
    assert_eq!(Diamond::restore(&s).err(), Some(LoadError::BadTiles));
}

#[test]
fn restore_rejects_out_of_range_cell() {
    let mut s = empty_snapshot();
    s.cells[0] = 9;
    assert_eq!(Diamond::restore(&s).err(), Some(LoadError::BadCells));
}

#[test]
fn restore_rejects_duplicate_freed_id() {
    let mut s = empty_snapshot();
    s.tiles = vec![None, None, None];
    s.next_id = 3;
    s.free_ids = vec![1, 2, 1];
    assert_eq!(Diamond::restore(&s).err(), Some(LoadError::BadFreeList));
}

#[test]
fn restore_rejects_live_freed_id() {
    let mut s = empty_snapshot();
    s.size = 2;
    s.capacity = 2;
    s.cells = vec![1, 1, 2, 2];
    s.tiles = vec![
        None,
        Some(aztec::Tile { row: 0, col: 0, dir: Direction::Top }),
        Some(aztec::Tile { row: 1, col: 0, dir: Direction::Bottom }),
    ];
    s.next_id = 3;
    s.free_ids = vec![1];
    s.cursor_col = 1;
    assert_eq!(Diamond::restore(&s).err(), Some(LoadError::BadFreeList));
}

#[test]
fn restore_rejects_cells_disagreeing_with_tiles() {
    // The cell array names a tile that does not cover the second cell it
    // should: the board is not the tiling the table describes.
    let mut s = empty_snapshot();
    s.size = 2;
    s.cells = vec![1, 0, 0, 0];
    s.tiles = vec![None, Some(aztec::Tile { row: 0, col: 0, dir: Direction::Top })];
    s.next_id = 2;
    assert_eq!(Diamond::restore(&s).err(), Some(LoadError::BadCells));
}

#[test]
fn restore_rejects_wild_cursor() {
    let mut s = empty_snapshot();
    s.cursor_col = 3;
    assert_eq!(Diamond::restore(&s).err(), Some(LoadError::BadCursor));
}

#[test]
fn restore_rejects_probability_above_one() {
    let mut s = empty_snapshot();
    s.probability = PROB_ONE + 1;
    assert_eq!(Diamond::restore(&s).err(), Some(LoadError::BadProbability));
}

#[test]
fn bias_from_samples_checks_dimensions() {
    assert_eq!(
        Bias::from_samples(0, vec![]).err(),
        Some(BiasError::BadDimensions),
    );
    assert_eq!(
        Bias::from_samples(2, vec![0; 3]).err(),
        Some(BiasError::BadLength),
    );
    let b = Bias::from_samples(2, vec![10, 20, 30, 40]).unwrap();
    assert_eq!(b.side(), 2);
    assert_eq!(b.sample(1, 0), 30);
}

#[test]
fn dark_bias_forces_horizontal_fill() {
    let mut rng = RandomSource::from_seed(5);
    let mut d = Diamond::new(0, 2);
    let bias = Bias::from_samples(2, vec![0; 4]).unwrap();
    assert!(d.generate(1, &mut rng, Some(&bias)).is_ok());
    let tiles = d.live_tiles();
    assert_eq!(tiles[0].1.dir, Direction::Top);
    assert_eq!(tiles[1].1.dir, Direction::Bottom);
}

#[test]
fn light_bias_forces_vertical_fill() {
    let mut rng = RandomSource::from_seed(5);
    let mut d = Diamond::new(PROB_ONE, 2);
    let bias = Bias::from_samples(2, vec![255; 4]).unwrap();
    assert!(d.generate(1, &mut rng, Some(&bias)).is_ok());
    let tiles = d.live_tiles();
    assert_eq!(tiles[0].1.dir, Direction::Left);
    assert_eq!(tiles[1].1.dir, Direction::Right);
}

#[test]
fn bias_size_must_match_the_final_side() {
    let mut rng = RandomSource::from_seed(5);
    let mut d = Diamond::new(PROB_ONE, 8);
    let bias = Bias::from_samples(6, vec![0; 36]).unwrap();
    assert_eq!(
        d.generate(1, &mut rng, Some(&bias)),
        Err(aztec::errors::ConfigError::BiasSizeMismatch),
    );
    assert_eq!(d.size(), 0);
}

#[test]
fn bias_decodes_image_bytes() {
    let img = image::DynamicImage::ImageRgba8(image::RgbaImage::from_pixel(
        4,
        4,
        image::Rgba([10, 10, 10, 255]),
    ));
    let mut bytes: Vec<u8> = Vec::new();
    img.write_to(&mut Cursor::new(&mut bytes), image::ImageFormat::Png).unwrap();
    let b = Bias::from_bytes(&bytes, 2).unwrap();
    assert_eq!(b.side(), 2);
    // A uniformly dark image stays dark after resampling.
    assert!(b.sample(0, 0) < 128);
    assert!(b.sample(1, 1) < 128);
}

#[test]
fn bias_rejects_undecodable_bytes() {
    let bytes = vec![1u8, 2, 3, 4, 5];
    assert_eq!(Bias::from_bytes(&bytes, 2).err(), Some(BiasError::Undecodable));
    assert_eq!(Bias::from_bytes(&bytes, 0).err(), Some(BiasError::BadDimensions));
}

#[test]
fn colors_unpack_channels() {
    let c = Colors::new(0x11223344, 0x55667788, 0x99aabbcc, 0xddeeff00, 0x01020304);
    assert_eq!(
        (c.top.red, c.top.green, c.top.blue, c.top.alpha),
        (0x11, 0x22, 0x33, 0x44),
    );
    assert_eq!((c.grid.red, c.grid.green, c.grid.blue, c.grid.alpha), (1, 2, 3, 4));
    let d = Colors::default();
    assert_eq!((d.top.red, d.top.green, d.top.blue, d.top.alpha), (255, 0, 0, 255));
    assert_eq!((d.bottom.blue, d.left.green, d.right.green), (255, 255, 255));
}

#[test]
fn render_plan_draws_each_tile() {
    let mut rng = RandomSource::from_seed(3);
    let mut d = Diamond::new(PROB_ONE, 2);
    d.step(&mut rng, None);
    let colors = Colors::default();
    let plan = d.render_plan(8, &colors);
    assert_eq!(plan.len(), 2);
    assert_eq!((plan[0].x, plan[0].y, plan[0].width, plan[0].height), (0, 0, 16, 8));
    assert_eq!(plan[0].fill, colors.top);
    assert_eq!((plan[1].x, plan[1].y, plan[1].width, plan[1].height), (0, 8, 16, 8));
    assert_eq!(plan[1].fill, colors.bottom);
    // Even sizes over 16 are halved for drawing and doubled back; odd ones
    // are drawn as requested, so the canvas is size * tile_size either way.
    let big = d.render_plan(32, &colors);
    assert_eq!((big[0].width, big[0].height), (32, 16));
    assert_eq!(d.canvas_side(32), 32);
    assert_eq!(d.canvas_side(8), 16);
    assert!(aztec::render::render_doubles(32));
    assert!(!aztec::render::render_doubles(17));
    let odd = d.render_plan(17, &colors);
    assert_eq!((odd[0].width, odd[0].height), (34, 17));
    assert_eq!(d.canvas_side(17), 34);
}
