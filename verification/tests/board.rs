use missingno_gamedb::board::read_board;
use missingno_gamedb::AttributeValue;

#[test]
fn boards_are_read_with_their_stated_parts() {
    let b = read_board("  Mbc1(\n    rom: Kb512,\n    ram: None,\n    battery: false,\n    size: Some(524288),\n)  ").unwrap();
    assert_eq!(b.name, "Mbc1");
    assert_eq!(
        b.attributes,
        vec![
            ("rom".to_owned(), AttributeValue::Choice("Kb512".to_owned())),
            ("battery".to_owned(), AttributeValue::Toggle(false)),
            ("size".to_owned(), AttributeValue::Bytes(524288)),
        ]
    );
    let plain = read_board("RomOnly").unwrap();
    assert_eq!(plain.name, "RomOnly");
    assert!(plain.attributes.is_empty());
}

#[test]
fn malformed_boards_are_refused() {
    assert_eq!(read_board("Mbc1(rom: Kb512").unwrap_err(), "unclosed board \"Mbc1(rom: Kb512\"");
    assert_eq!(read_board("Bad Name").unwrap_err(), "not a board: \"Bad Name\"");
    assert_eq!(read_board("Mbc1(rom)").unwrap_err(), "board part without a value: \"rom\"");
    assert_eq!(
        read_board("Mbc1(rom: 99999999999999999999)").unwrap_err(),
        "board part \"rom\": number too large to fit in target type"
    );
}
