use lsm::{get_segment_id_from_path, segment_file_name};

#[test]
fn segment_id_is_the_decimal_number_of_the_name() {
    assert_eq!(get_segment_id_from_path("0"), Ok(0));
    assert_eq!(get_segment_id_from_path("7"), Ok(7));
    assert_eq!(get_segment_id_from_path("42"), Ok(42));
    assert_eq!(get_segment_id_from_path("1234567890"), Ok(1234567890));
    assert_eq!(get_segment_id_from_path("007"), Ok(7));
    assert_eq!(get_segment_id_from_path("+5"), Ok(5));
}

#[test]
fn segment_id_of_other_names_is_an_error() {
    for name in ["", "+", "-", "-1", "1a", "a1", " 1", "1 ", "1_000", "0x10", "1.0", "++1", "٣"] {
        assert_eq!(get_segment_id_from_path(name), Err(()));
    }
}

#[test]
fn segment_id_reaches_the_greatest_usize_and_no_further() {
    assert_eq!(get_segment_id_from_path(&usize::MAX.to_string()), Ok(usize::MAX));
    let beyond = format!("{}", usize::MAX as u128 + 1);
    assert_eq!(get_segment_id_from_path(&beyond), Err(()));
    let long = format!("{}0", usize::MAX);
    assert_eq!(get_segment_id_from_path(&long), Err(()));
    assert_eq!(get_segment_id_from_path("99999999999999999999999999999999"), Err(()));
}

#[test]
fn segment_id_agrees_with_the_parser_of_the_standard_library() {
    for name in ["0", "00", "+0", "+", "", "12", "+12", "-12", "1２", "18446744073709551615",
        "18446744073709551616", "018446744073709551615"]
    {
        assert_eq!(get_segment_id_from_path(name), name.parse::<usize>().map_err(|_| ()));
    }
}

#[test]
fn file_name_is_the_number_in_decimal_digits() {
    assert_eq!(segment_file_name(0), "0");
    assert_eq!(segment_file_name(7), "7");
    assert_eq!(segment_file_name(10), "10");
    assert_eq!(segment_file_name(42), "42");
    assert_eq!(segment_file_name(1090), "1090");
    assert_eq!(segment_file_name(1234567890), "1234567890");
    assert_eq!(segment_file_name(usize::MAX), usize::MAX.to_string());
}

#[test]
fn file_name_is_read_back_as_the_number() {
    let mut id: usize = 0;
    while id < 3000 {
        assert_eq!(get_segment_id_from_path(&segment_file_name(id)), Ok(id));
        id += 1;
    }
    for id in [usize::MAX, usize::MAX - 1, usize::MAX / 10, usize::MAX / 10 + 1] {
        assert_eq!(get_segment_id_from_path(&segment_file_name(id)), Ok(id));
    }
}
