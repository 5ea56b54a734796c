use cells::cell_id::CellId;

#[test]
fn cell_id_test() {
    assert_eq!(CellId { col: 'A', row: 18 }.format(), "A18");
    assert_eq!(CellId { col: 'Z', row: 1 }.format(), "Z01");
    assert_eq!(CellId { col: 'Z', row: 10 }.format(), "Z10");
    assert_eq!(CellId { col: 'Z', row: 105 }.format(), "Z105");

    assert_eq!(CellId::parse("A18"), Ok(CellId { col: 'A', row: 18 }));
    assert_eq!(CellId::parse("Z01"), Ok(CellId { col: 'Z', row: 1 }));
    assert_eq!(
        CellId::parse("").unwrap_err().message(),
        "malformed cell id: cannot be empty"
    );
    assert_eq!(
        CellId::parse("18").unwrap_err().message(),
        "malformed cell id: should start with an ASCII uppercase single char column name"
    );
    assert_eq!(
        CellId::parse("Z").unwrap_err().message(),
        "malformed cell id: missing or non-existent row (should be a positive integer)"
    );
    assert_eq!(
        CellId::parse("ZZZ").unwrap_err().message(),
        "malformed cell id: missing or non-existent row (should be a positive integer)"
    );
}

#[test]
fn cell_id_round_trip_test() {
    let samples = vec![
        CellId { col: 'A', row: 1 },
        CellId { col: 'B', row: 9 },
        CellId { col: 'M', row: 10 },
        CellId { col: 'Z', row: 105 },
        CellId { col: 'Q', row: usize::MAX },
    ];
    for id in samples {
        assert_eq!(CellId::parse(&id.format()), Ok(id));
    }
}

#[test]
fn cell_id_rejects_test() {
    // a row of zero is not a positive integer
    assert_eq!(
        CellId::parse("A0").unwrap_err().message(),
        "malformed cell id: missing or non-existent row (should be a positive integer)"
    );
    // a row too large for the machine is rejected rather than wrapped
    assert!(CellId::parse("A99999999999999999999999999").is_err());
    // a sign is not a digit
    assert!(CellId::parse("A+5").is_err());
    // lower-case columns are rejected
    assert!(CellId::parse("a5").is_err());
}
