use lsm::encoding::BincodeEncoder;
use lsm::{Entry, SSTable, SSTableBuilder};
use std::path::PathBuf;

fn numbered(n: usize) -> Vec<Entry> {
    let mut entries = Vec::new();
    let mut i: usize = 0;
    while i < n {
        entries.push(Entry::new(&format!("key{:03}", 2 * i + 1), &format!("value{}", i)));
        i += 1;
    }
    entries
}

fn table_of(entries: &Vec<Entry>) -> SSTable<BincodeEncoder> {
    let mut table = SSTableBuilder::new()
        .with_id(0)
        .with_data_dir(PathBuf::from("data"))
        .with_bincode_encoder()
        .build()
        .unwrap();
    assert_eq!(table.flush(entries.iter().collect()), Ok(()));
    table
}

fn read_all(table: &SSTable<BincodeEncoder>) -> Vec<Entry> {
    let mut iter = table.iter();
    let mut all = Vec::new();
    while let Some(entry) = iter.next() {
        all.push(entry);
    }
    all
}

#[test]
fn builder_without_id_builds_nothing() {
    let built = SSTableBuilder::new()
        .with_data_dir(PathBuf::from("data"))
        .with_bincode_encoder()
        .build();
    assert!(built.is_none());
}

#[test]
fn builder_without_data_dir_builds_nothing() {
    let built = SSTableBuilder::new().with_id(1).with_bincode_encoder().build();
    assert!(built.is_none());
}

#[test]
fn builder_without_encoder_builds_nothing() {
    let built = SSTableBuilder::<BincodeEncoder>::new()
        .with_id(1)
        .with_data_dir(PathBuf::from("data"))
        .build();
    assert!(built.is_none());
}

#[test]
fn built_segment_has_its_id_and_its_file_in_the_data_dir() {
    let table = SSTableBuilder::new()
        .with_id(17)
        .with_data_dir(PathBuf::from("data"))
        .with_bincode_encoder()
        .build()
        .unwrap();
    assert_eq!(table.id(), 17);
    assert_eq!(table.file_name(), "17");
    assert_eq!(table.file_path(), PathBuf::from("data").join("17"));
    assert_eq!(table.as_bytes(), &[] as &[u8]);
}

#[test]
fn empty_segment_finds_nothing() {
    let mut table = table_of(&Vec::new());
    assert_eq!(table.search(&Entry::new_key("foo")), None);
    assert!(read_all(&table).is_empty());
}

#[test]
fn segment_finds_every_flushed_key_at_any_size() {
    for n in [1usize, 2, 3, 4, 5, 8, 11, 50] {
        let entries = numbered(n);
        let mut table = table_of(&entries);
        for entry in entries.iter() {
            assert_eq!(table.search(&entry.key), Some(entry.clone()));
        }
    }
}

#[test]
fn segment_finds_no_key_that_was_not_flushed() {
    for n in [1usize, 2, 3, 4, 5, 8, 11, 50] {
        let entries = numbered(n);
        let mut table = table_of(&entries);
        let mut i: usize = 0;
        while i <= n {
            assert_eq!(table.search(&Entry::new_key(&format!("key{:03}", 2 * i))), None);
            i += 1;
        }
        assert_eq!(table.search(&Entry::new_key("")), None);
        assert_eq!(table.search(&Entry::new_key("key")), None);
        assert_eq!(table.search(&Entry::new_key("key0011")), None);
        assert_eq!(table.search(&Entry::new_key("zzz")), None);
    }
}

#[test]
fn search_leaves_the_segment_as_it_was() {
    let entries = numbered(5);
    let mut table = table_of(&entries);
    let before = table.as_bytes().to_vec();
    let _ = table.search(&entries[3].key);
    let _ = table.search(&Entry::new_key("missing"));
    assert_eq!(table.as_bytes(), &before[..]);
    assert_eq!(table.search(&entries[3].key), Some(entries[3].clone()));
}

#[test]
fn find_gives_what_search_gives() {
    let entries = numbered(7);
    let mut table = table_of(&entries);
    for entry in entries.iter() {
        assert_eq!(table.find(&entry.key), Some(entry.clone()));
        assert_eq!(table.find(&entry.key), table.search(&entry.key));
    }
    assert_eq!(table.find(&Entry::new_key("key000")), None);
}

#[test]
fn iter_reads_back_what_was_flushed_in_order() {
    for n in [0usize, 1, 2, 3, 10] {
        let entries = numbered(n);
        let table = table_of(&entries);
        assert_eq!(read_all(&table), entries);
    }
}

#[test]
fn iter_can_be_started_again() {
    let entries = numbered(3);
    let table = table_of(&entries);
    assert_eq!(read_all(&table), entries);
    assert_eq!(read_all(&table), entries);
}

#[test]
fn iter_at_starts_at_the_offset_of_a_record() {
    let entries = vec![Entry::new("a", "1"), Entry::new("b", "22"), Entry::new("c", "333")];
    let table = table_of(&entries);
    let mut iter = table.iter_at(18);
    assert_eq!(iter.next(), Some(Entry::new("b", "22")));
    assert_eq!(iter.next(), Some(Entry::new("c", "333")));
    assert_eq!(iter.next(), None);
    assert_eq!(iter.next(), None);
}

#[test]
fn iter_at_the_end_or_beyond_is_empty() {
    let entries = numbered(2);
    let table = table_of(&entries);
    let end = table.as_bytes().len() as u64;
    assert_eq!(table.iter_at(end).next(), None);
    assert_eq!(table.iter_at(end + 100).next(), None);
    assert_eq!(table.iter_at(u64::MAX).next(), None);
}

#[test]
fn flushed_bytes_are_the_records_one_after_another() {
    let table = table_of(&vec![Entry::new("a", "1"), Entry::new("b", "")]);
    assert_eq!(
        table.as_bytes(),
        &[
            1u8, 0, 0, 0, 0, 0, 0, 0, 97, 1, 0, 0, 0, 0, 0, 0, 0, 49, 1, 0, 0, 0, 0, 0, 0, 0, 98,
            0, 0, 0, 0, 0, 0, 0, 0
        ]
    );
}

#[test]
fn flush_replaces_what_the_segment_held() {
    let first = numbered(6);
    let mut table = table_of(&first);
    let second = vec![Entry::new("key003", "new"), Entry::new("other", "x")];
    assert_eq!(table.flush(second.iter().collect()), Ok(()));
    assert_eq!(read_all(&table), second);
    assert_eq!(table.search(&Entry::new_key("key003")), Some(Entry::new("key003", "new")));
    assert_eq!(table.search(&Entry::new_key("other")), Some(Entry::new("other", "x")));
    assert_eq!(table.search(&Entry::new_key("key001")), None);
    assert_eq!(table.search(&Entry::new_key("key011")), None);
}

#[test]
fn flush_of_nothing_empties_the_segment() {
    let mut table = table_of(&numbered(4));
    assert_eq!(table.flush(Vec::new()), Ok(()));
    assert_eq!(table.as_bytes(), &[] as &[u8]);
    assert_eq!(table.search(&Entry::new_key("key001")), None);
}

#[test]
fn reopened_segment_finds_what_was_written() {
    for n in [1usize, 2, 3, 7, 20] {
        let entries = numbered(n);
        let written = table_of(&entries);
        let mut reopened = SSTableBuilder::new()
            .with_id(0)
            .with_data_dir(PathBuf::from("data"))
            .with_contents(written.as_bytes().to_vec())
            .with_bincode_encoder()
            .build()
            .unwrap();
        assert_eq!(reopened.as_bytes(), written.as_bytes());
        for entry in entries.iter() {
            assert_eq!(reopened.search(&entry.key), Some(entry.clone()));
        }
        assert_eq!(reopened.search(&Entry::new_key("key000")), None);
        assert_eq!(read_all(&reopened), entries);
    }
}

#[test]
fn opening_keeps_bytes_that_are_no_record() {
    let mut bytes = table_of(&numbered(3)).as_bytes().to_vec();
    bytes.extend_from_slice(&[1, 2, 3]);
    let mut reopened = SSTableBuilder::new()
        .with_id(4)
        .with_data_dir(PathBuf::from("data"))
        .with_contents(bytes.clone())
        .with_bincode_encoder()
        .build()
        .unwrap();
    assert_eq!(reopened.as_bytes(), &bytes[..]);
    assert_eq!(read_all(&reopened), numbered(3));
    assert_eq!(reopened.search(&Entry::new_key("key005")), Some(Entry::new("key005", "value2")));
}

#[test]
fn later_builder_calls_replace_earlier_ones() {
    let table = SSTableBuilder::new()
        .with_id(1)
        .with_id(2)
        .with_data_dir(PathBuf::from("a"))
        .with_data_dir(PathBuf::from("b"))
        .with_contents(vec![1])
        .with_contents(Vec::new())
        .with_bincode_encoder()
        .build()
        .unwrap();
    assert_eq!(table.id(), 2);
    assert_eq!(table.file_path(), PathBuf::from("b").join("2"));
    assert_eq!(table.as_bytes(), &[] as &[u8]);
}

#[test]
fn unsorted_flush_is_written_as_given() {
    let entries = vec![Entry::new("b", "2"), Entry::new("a", "1")];
    let table = table_of(&entries);
    assert_eq!(read_all(&table), entries);
}

#[test]
fn file_path_stays_over_flush_and_search() {
    let mut table = table_of(&numbered(3));
    let before = table.file_path();
    assert_eq!(before, PathBuf::from("data").join("0"));
    table.flush(Vec::new()).unwrap();
    let _ = table.search(&Entry::new_key("key001"));
    assert_eq!(table.file_path(), before);
    assert_eq!(table.file_path(), table.file_path());
}
