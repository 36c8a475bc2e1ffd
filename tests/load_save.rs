use hexmap::hex::Hex;
use hexmap::load_save::{format_line, load_lines, parse_line, save_lines, Field, FieldError};
use hexmap::store::TileStore;
use hexmap::tile::{Tile, TileType};

#[test]
fn format_writes_signed_fields() {
    assert_eq!(format_line(Hex::new(3, -12), Tile::new(TileType::Half, 4)), "+03 -12 Half 4");
    assert_eq!(format_line(Hex::new(0, 105), Tile::new(TileType::Empty, 0)), "+00 +105 Empty 0");
    assert_eq!(
        format_line(Hex::new(i32::MIN, i32::MAX), Tile::new(TileType::Full, 0)),
        "-2147483648 +2147483647 Full 0"
    );
}

#[test]
fn parse_reads_records() {
    assert_eq!(parse_line("+3 -12 Half 4"), Ok((Hex::new(3, -12), Tile::new(TileType::Half, 4))));
    assert_eq!(parse_line("  7\t8  Small 9 extra"), Ok((Hex::new(7, 8), Tile::new(TileType::Small, 3))));
    assert_eq!(parse_line("-05 +003 Large +2"), Ok((Hex::new(-5, 3), Tile::new(TileType::Large, 2))));
    assert_eq!(parse_line("1 1 Full 5"), Ok((Hex::new(1, 1), Tile::new(TileType::Full, 0))));
}

#[test]
fn parse_splits_on_unicode_whitespace() {
    assert_eq!(
        parse_line("+01\u{A0}-02\u{3000}Half\u{2003}3"),
        Ok((Hex::new(1, -2), Tile::new(TileType::Half, 3)))
    );
    assert_eq!(parse_line("\u{85}\u{2028}"), Err(FieldError::Missing(Field::X)));
}

#[test]
fn padded_line_round_trips() {
    let h = Hex::new(-1, 9);
    let t = Tile::new(TileType::Small, 2);
    assert_eq!(format_line(h, t), "-01 +09 Small 2");
    assert_eq!(parse_line(&format_line(h, t)), Ok((h, t)));
}

#[test]
fn parse_errors_name_the_field() {
    assert_eq!(parse_line(""), Err(FieldError::Missing(Field::X)));
    assert_eq!(parse_line("a 1 Full 0"), Err(FieldError::Invalid(Field::X)));
    assert_eq!(parse_line("2147483648 1 Full 0"), Err(FieldError::Invalid(Field::X)));
    assert_eq!(parse_line("1"), Err(FieldError::Missing(Field::Y)));
    assert_eq!(parse_line("1 -"), Err(FieldError::Invalid(Field::Y)));
    assert_eq!(parse_line("1 2"), Err(FieldError::Missing(Field::TileType)));
    assert_eq!(parse_line("1 2 Wall 0"), Err(FieldError::Invalid(Field::TileType)));
    assert_eq!(parse_line("1 2 full 0"), Err(FieldError::Invalid(Field::TileType)));
    assert_eq!(parse_line("1 2 Half"), Err(FieldError::Missing(Field::Rotation)));
    assert_eq!(parse_line("1 2 Half 256"), Err(FieldError::Invalid(Field::Rotation)));
    assert_eq!(parse_line("1 2 Half -1"), Err(FieldError::Invalid(Field::Rotation)));
}

#[test]
fn parse_accepts_i32_limits() {
    assert_eq!(
        parse_line("-2147483648 2147483647 Empty 0"),
        Ok((Hex::new(i32::MIN, i32::MAX), Tile::new(TileType::Empty, 0)))
    );
}

#[test]
fn save_then_load_round_trip() {
    let mut s = TileStore::new();
    s.insert(Hex::new(2, -1), Tile::new(TileType::Large, 5));
    s.insert(Hex::new(-7, 0), Tile::new(TileType::Empty, 0));
    s.insert(Hex::new(0, 3), Tile::new(TileType::Small, 1));
    s.insert(Hex::new(2, -3), Tile::new(TileType::Full, 0));
    let lines = save_lines(&s);
    assert_eq!(lines, vec!["-07 +00 Empty 0", "+00 +03 Small 1", "+02 -03 Full 0", "+02 -01 Large 5"]);
    let loaded = load_lines(&lines).unwrap();
    assert_eq!(loaded.records(), s.records());
    let mut reversed = lines.clone();
    reversed.reverse();
    let loaded = load_lines(&reversed).unwrap();
    assert_eq!(loaded.records(), s.records());
}

#[test]
fn load_reports_first_bad_line() {
    let lines = vec!["1 1 Full 0".to_string(), "2 2 Half".to_string(), "x".to_string()];
    let err = load_lines(&lines).err().unwrap();
    assert_eq!(err.line, 2);
    assert_eq!(err.error, FieldError::Missing(Field::Rotation));
}

#[test]
fn load_later_record_wins() {
    let lines = vec!["1 1 Full 0".to_string(), "1 1 Half 7".to_string()];
    let s = load_lines(&lines).unwrap();
    assert_eq!(s.len(), 1);
    assert_eq!(s.get(Hex::new(1, 1)), Some(Tile::new(TileType::Half, 1)));
    assert_eq!(load_lines(&Vec::new()).unwrap().len(), 0);
}
