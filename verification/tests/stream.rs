use lsm::stream::{Sink, Source};

#[test]
fn new_sink_holds_its_bytes_at_offset_zero() {
    let sink = Sink::new(vec![1, 2, 3]);
    assert_eq!(sink.as_bytes(), &[1u8, 2, 3]);
    assert_eq!(sink.position(), 0);
}

#[test]
fn write_at_the_end_appends() {
    let mut sink = Sink::new(Vec::new());
    assert_eq!(sink.write(&[1, 2]), Ok(()));
    assert_eq!(sink.write(&[3]), Ok(()));
    assert_eq!(sink.as_bytes(), &[1u8, 2, 3]);
    assert_eq!(sink.position(), 3);
}

#[test]
fn write_inside_replaces_bytes() {
    let mut sink = Sink::new(vec![1, 2, 3, 4, 5]);
    sink.seek(1);
    assert_eq!(sink.write(&[9, 8]), Ok(()));
    assert_eq!(sink.as_bytes(), &[1u8, 9, 8, 4, 5]);
    assert_eq!(sink.position(), 3);
}

#[test]
fn write_across_the_end_replaces_and_grows() {
    let mut sink = Sink::new(vec![1, 2, 3]);
    sink.seek(2);
    assert_eq!(sink.write(&[7, 8, 9]), Ok(()));
    assert_eq!(sink.as_bytes(), &[1u8, 2, 7, 8, 9]);
    assert_eq!(sink.position(), 5);
}

#[test]
fn write_beyond_the_end_fills_the_gap_with_zeros() {
    let mut sink = Sink::new(vec![1]);
    sink.seek(3);
    assert_eq!(sink.write(&[5]), Ok(()));
    assert_eq!(sink.as_bytes(), &[1u8, 0, 0, 5]);
    assert_eq!(sink.position(), 4);
}

#[test]
fn write_of_nothing_changes_nothing_inside() {
    let mut sink = Sink::new(vec![1, 2]);
    sink.seek(1);
    assert_eq!(sink.write(&[]), Ok(()));
    assert_eq!(sink.as_bytes(), &[1u8, 2]);
    assert_eq!(sink.position(), 1);
}

#[test]
fn write_fails_where_the_store_would_outgrow_a_vector() {
    let mut sink = Sink::new(vec![1, 2]);
    sink.seek(u64::MAX);
    assert_eq!(sink.write(&[1]), Err(()));
    assert_eq!(sink.as_bytes(), &[1u8, 2]);
    assert_eq!(sink.position(), u64::MAX);
}

#[test]
fn truncate_drops_the_bytes_and_keeps_the_offset() {
    let mut sink = Sink::new(vec![1, 2, 3]);
    sink.seek(2);
    sink.truncate();
    assert_eq!(sink.as_bytes(), &[] as &[u8]);
    assert_eq!(sink.position(), 2);
}

#[test]
fn source_gives_what_is_left_from_its_offset() {
    let bytes = [1u8, 2, 3, 4];
    let mut source = Source::new(&bytes, 1);
    assert_eq!(source.position(), 1);
    assert_eq!(source.rest(), &[2u8, 3, 4]);
    source.advance(2);
    assert_eq!(source.position(), 3);
    assert_eq!(source.rest(), &[4u8]);
    source.advance(1);
    assert_eq!(source.rest(), &[] as &[u8]);
}

#[test]
fn source_beyond_the_end_has_nothing_left() {
    let bytes = [1u8, 2];
    let source = Source::new(&bytes, 7);
    assert_eq!(source.position(), 7);
    assert_eq!(source.rest(), &[] as &[u8]);
}
