use lsm::encoding::{BincodeEncoder, Encoder};
use lsm::stream::{Sink, Source};
use lsm::Entry;

#[test]
fn record_is_length_prefixed_key_then_length_prefixed_value() {
    let encoder = BincodeEncoder::new();
    let mut sink = Sink::new(Vec::new());
    assert_eq!(encoder.write_record(&mut sink, &Entry::new("foo", "ba")), Ok(()));
    assert_eq!(
        sink.as_bytes(),
        &[3u8, 0, 0, 0, 0, 0, 0, 0, 102, 111, 111, 2, 0, 0, 0, 0, 0, 0, 0, 98, 97]
    );
    assert_eq!(sink.position(), 21);
}

#[test]
fn record_of_the_empty_entry_is_two_zero_lengths() {
    let encoder = BincodeEncoder::new();
    let mut sink = Sink::new(Vec::new());
    assert_eq!(encoder.write_record(&mut sink, &Entry::new("", "")), Ok(()));
    assert_eq!(sink.as_bytes(), &[0u8; 16]);
}

#[test]
fn lengths_are_little_endian() {
    let encoder = BincodeEncoder::new();
    let entry = Entry { key: vec![7u8; 258], value: Vec::new() };
    let mut sink = Sink::new(Vec::new());
    assert_eq!(encoder.write_record(&mut sink, &entry), Ok(()));
    assert_eq!(&sink.as_bytes()[..8], &[2u8, 1, 0, 0, 0, 0, 0, 0]);
    assert_eq!(sink.as_bytes().len(), 16 + 258);
}

#[test]
fn sized_is_the_length_of_the_record() {
    let encoder = BincodeEncoder::new();
    assert_eq!(encoder.sized(&Entry::new("foo", "ba")), Ok(21));
    assert_eq!(encoder.sized(&Entry::new("", "")), Ok(16));
    let entry = Entry { key: vec![1u8; 300], value: vec![2u8; 1000] };
    let mut sink = Sink::new(Vec::new());
    encoder.write_record(&mut sink, &entry).unwrap();
    assert_eq!(encoder.sized(&entry), Ok(sink.as_bytes().len() as u64));
    assert_eq!(encoder.sized(&entry), Ok(1316));
}

#[test]
fn read_record_undoes_write_record() {
    let encoder = BincodeEncoder::new();
    let entries = [
        Entry::new("foo", "bar"),
        Entry::new("", ""),
        Entry::new("k", ""),
        Entry::new("", "v"),
        Entry { key: vec![0, 255, 0, 255], value: vec![9u8; 500] },
    ];
    for entry in entries.iter() {
        let mut sink = Sink::new(Vec::new());
        encoder.write_record(&mut sink, entry).unwrap();
        let mut source = Source::new(sink.as_bytes(), 0);
        assert_eq!(encoder.read_record(&mut source), Ok(entry.clone()));
        assert_eq!(source.position(), sink.as_bytes().len() as u64);
        assert_eq!(encoder.read_record(&mut source), Err(()));
    }
}

#[test]
fn read_record_stops_at_the_end_of_the_record() {
    let encoder = BincodeEncoder::new();
    let mut sink = Sink::new(Vec::new());
    encoder.write_record(&mut sink, &Entry::new("a", "1")).unwrap();
    encoder.write_record(&mut sink, &Entry::new("bc", "23")).unwrap();
    let mut source = Source::new(sink.as_bytes(), 0);
    assert_eq!(encoder.read_record(&mut source), Ok(Entry::new("a", "1")));
    assert_eq!(source.position(), 18);
    assert_eq!(encoder.read_record(&mut source), Ok(Entry::new("bc", "23")));
    assert_eq!(source.position(), 38);
    assert_eq!(encoder.read_record(&mut source), Err(()));
    assert_eq!(source.position(), 38);
}

#[test]
fn read_record_decodes_given_bytes() {
    let encoder = BincodeEncoder::new();
    let bytes = [1u8, 0, 0, 0, 0, 0, 0, 0, 120, 2, 0, 0, 0, 0, 0, 0, 0, 121, 122, 99];
    let mut source = Source::new(&bytes, 0);
    assert_eq!(encoder.read_record(&mut source), Ok(Entry::new("x", "yz")));
    assert_eq!(source.position(), 19);
}

#[test]
fn read_record_fails_on_an_empty_stream() {
    let encoder = BincodeEncoder::new();
    let bytes: [u8; 0] = [];
    let mut source = Source::new(&bytes, 0);
    assert_eq!(encoder.read_record(&mut source), Err(()));
    assert_eq!(source.position(), 0);
}

#[test]
fn read_record_fails_on_every_truncation() {
    let encoder = BincodeEncoder::new();
    let mut sink = Sink::new(Vec::new());
    encoder.write_record(&mut sink, &Entry::new("foo", "bar")).unwrap();
    let whole = sink.as_bytes();
    let mut cut: usize = 0;
    while cut < whole.len() {
        let mut source = Source::new(&whole[..cut], 0);
        assert_eq!(encoder.read_record(&mut source), Err(()));
        assert_eq!(source.position(), 0);
        cut += 1;
    }
}

#[test]
fn read_record_fails_on_a_length_beyond_the_stream() {
    let encoder = BincodeEncoder::new();
    let bytes = [255u8, 255, 255, 255, 255, 255, 255, 255, 1, 2, 3];
    let mut source = Source::new(&bytes, 0);
    assert_eq!(encoder.read_record(&mut source), Err(()));
    let bytes = [1u8, 0, 0, 0, 0, 0, 0, 0, 120, 200, 0, 0, 0, 0, 0, 0, 0, 121];
    let mut source = Source::new(&bytes, 0);
    assert_eq!(encoder.read_record(&mut source), Err(()));
}

#[test]
fn read_record_beyond_the_end_fails() {
    let encoder = BincodeEncoder::new();
    let mut sink = Sink::new(Vec::new());
    encoder.write_record(&mut sink, &Entry::new("foo", "bar")).unwrap();
    let mut source = Source::new(sink.as_bytes(), 1000);
    assert_eq!(encoder.read_record(&mut source), Err(()));
    assert_eq!(source.position(), 1000);
}

#[test]
fn write_record_fails_without_room_and_writes_nothing() {
    let encoder = BincodeEncoder::new();
    let mut sink = Sink::new(vec![1, 2, 3]);
    sink.seek(isize::MAX as u64 - 10);
    assert_eq!(encoder.write_record(&mut sink, &Entry::new("foo", "bar")), Err(()));
    assert_eq!(sink.as_bytes(), &[1u8, 2, 3]);
    assert_eq!(sink.position(), isize::MAX as u64 - 10);
}

#[test]
fn write_record_writes_at_the_offset() {
    let encoder = BincodeEncoder::new();
    let mut sink = Sink::new(vec![9u8; 20]);
    sink.seek(2);
    assert_eq!(encoder.write_record(&mut sink, &Entry::new("", "")), Ok(()));
    let mut expected = vec![9u8, 9];
    expected.extend_from_slice(&[0u8; 16]);
    expected.extend_from_slice(&[9u8, 9]);
    assert_eq!(sink.as_bytes(), &expected[..]);
    assert_eq!(sink.position(), 18);
}

#[test]
fn clones_of_the_encoder_encode_alike() {
    let encoder = BincodeEncoder::new();
    let copy = encoder.clone();
    let mut a = Sink::new(Vec::new());
    let mut b = Sink::new(Vec::new());
    encoder.write_record(&mut a, &Entry::new("k", "v")).unwrap();
    copy.write_record(&mut b, &Entry::new("k", "v")).unwrap();
    assert_eq!(a.as_bytes(), b.as_bytes());
}
