use tilechase::geometry::TileCoord;
use tilechase::level_file::{parse_level, LevelFileError, TileSprite};

fn t(x: i32, y: i32) -> TileCoord {
    TileCoord { x, y }
}

fn sprite_record(x: i64, y: i64, row: i16, col: i16) -> Vec<u8> {
    let mut v = Vec::new();
    v.extend_from_slice(&x.to_le_bytes());
    v.extend_from_slice(&y.to_le_bytes());
    v.extend_from_slice(&row.to_le_bytes());
    v.extend_from_slice(&col.to_le_bytes());
    v
}

fn tile_record(x: i64, y: i64) -> Vec<u8> {
    let mut v = Vec::new();
    v.extend_from_slice(&x.to_le_bytes());
    v.extend_from_slice(&y.to_le_bytes());
    v
}

fn level_bytes(bg: &[u8], fg: &[u8], col: &[u8], rest: &[u8]) -> Vec<u8> {
    let mut v = Vec::new();
    v.extend_from_slice(&(bg.len() as u64).to_le_bytes());
    v.extend_from_slice(&(fg.len() as u64).to_le_bytes());
    v.extend_from_slice(&(col.len() as u64).to_le_bytes());
    v.extend_from_slice(bg);
    v.extend_from_slice(fg);
    v.extend_from_slice(col);
    v.extend_from_slice(rest);
    v
}

#[test]
fn reads_every_section_and_negates_y() {
    let mut bg = sprite_record(1, 2, 3, -4);
    bg.extend(sprite_record(-5, -6, 0, 7));
    let fg = sprite_record(8, 0, 1, 1);
    let col = tile_record(9, 10);
    let mut rest = tile_record(11, 12);
    rest.extend_from_slice(&5u64.to_le_bytes());
    rest.extend_from_slice(b"enemy");
    let bytes = level_bytes(&bg, &fg, &col, &rest);
    let level = parse_level(&bytes).unwrap();
    assert_eq!(
        level.background,
        vec![
            TileSprite { tile: t(1, -2), sprite: t(3, -4) },
            TileSprite { tile: t(-5, 6), sprite: t(0, 7) },
        ]
    );
    assert_eq!(level.foreground, vec![TileSprite { tile: t(8, 0), sprite: t(1, 1) }]);
    assert_eq!(level.collision, vec![t(9, -10)]);
    assert_eq!(level.entities.len(), 1);
    assert_eq!(level.entities[0].tile, t(11, -12));
    assert_eq!(level.entities[0].label, b"enemy".to_vec());
}

#[test]
fn wide_coordinates_keep_their_low_32_bits() {
    let col = tile_record(0x1_0000_0005, i64::MIN);
    let bytes = level_bytes(&[], &[], &col, &[]);
    let level = parse_level(&bytes).unwrap();
    assert_eq!(level.collision, vec![t(5, 0)]);
    let col2 = tile_record(-1, i32::MIN as i64);
    let level2 = parse_level(&level_bytes(&[], &[], &col2, &[])).unwrap();
    assert_eq!(level2.collision, vec![t(-1, i32::MIN)]);
}

#[test]
fn partial_records_at_the_end_of_a_section_are_ignored() {
    let mut bg = sprite_record(1, 1, 0, 0);
    bg.extend_from_slice(&[9, 9, 9]);
    let bytes = level_bytes(&bg, &[], &[], &[]);
    let level = parse_level(&bytes).unwrap();
    assert_eq!(level.background.len(), 1);
    assert!(level.entities.is_empty());
}

#[test]
fn empty_label_and_several_entities() {
    let mut rest = tile_record(0, 0);
    rest.extend_from_slice(&0u64.to_le_bytes());
    rest.extend(tile_record(1, 1));
    rest.extend_from_slice(&2u64.to_le_bytes());
    rest.extend_from_slice(b"ok");
    let level = parse_level(&level_bytes(&[], &[], &[], &rest)).unwrap();
    assert_eq!(level.entities.len(), 2);
    assert!(level.entities[0].label.is_empty());
    assert_eq!(level.entities[1].tile, t(1, -1));
    assert_eq!(level.entities[1].label, b"ok".to_vec());
}

#[test]
fn short_file_has_no_header() {
    assert_eq!(parse_level(&vec![0u8; 23]).unwrap_err(), LevelFileError::MissingHeader);
    assert_eq!(parse_level(&vec![]).unwrap_err(), LevelFileError::MissingHeader);
}

#[test]
fn sections_longer_than_the_file_are_refused() {
    let mut bytes = level_bytes(&[], &[], &[], &[]);
    bytes[0] = 20;
    assert_eq!(parse_level(&bytes).unwrap_err(), LevelFileError::SectionsTooLong);
    let mut huge = vec![0xff; 24];
    huge.extend_from_slice(&[0; 40]);
    assert_eq!(parse_level(&huge).unwrap_err(), LevelFileError::SectionsTooLong);
}

#[test]
fn truncated_entities_are_refused() {
    let short = level_bytes(&[], &[], &[], &[1, 2, 3]);
    assert_eq!(parse_level(&short).unwrap_err(), LevelFileError::TruncatedEntity);
    let mut rest = tile_record(0, 0);
    rest.extend_from_slice(&10u64.to_le_bytes());
    rest.extend_from_slice(b"abc");
    let long_label = level_bytes(&[], &[], &[], &rest);
    assert_eq!(parse_level(&long_label).unwrap_err(), LevelFileError::TruncatedEntity);
}
