use kvs::command::Command;
use kvs::engine::{load, KvReader, KvWriter, COMPACTION_LIMIT};
use kvs::error::KvError;
use kvs::index::{CommandPos, Index};
use kvs::logs::{BufReaderWithPos, BufWriterWithPos, LogDir, SeekFrom};
use kvs::store::{KvStore, KvsEngine};

fn put_bytes(key: &str, value: &str) -> Vec<u8> {
    Command::Put { key: key.to_owned(), value: value.to_owned() }.encode()
}

fn remove_bytes(key: &str) -> Vec<u8> {
    Command::Remove { key: key.to_owned() }.encode()
}

fn dir_size(store: &KvStore) -> u64 {
    let dir = store.writer().dir();
    (0..dir.len()).map(|i| dir.data_at(i).len() as u64).sum()
}

fn open_empty() -> KvStore {
    KvStore::open(LogDir::new()).unwrap()
}

#[test]
fn writer_tracks_its_position() {
    let mut writer = BufWriterWithPos::new(vec![1, 2, 3]);
    assert_eq!(writer.pos(), 3);
    assert_eq!(writer.write(&[4, 5]), 2);
    assert_eq!(writer.pos(), 5);
    assert_eq!(writer.write(&[]), 0);
    assert_eq!(writer.pos(), 5);
    assert_eq!(writer.bytes(), &vec![1, 2, 3, 4, 5]);
}

#[test]
fn reader_tracks_its_position() {
    let data = [10u8, 11, 12, 13, 14];
    let mut reader = BufReaderWithPos::new(&data);
    assert_eq!(reader.pos(), 0);
    assert_eq!(reader.read(2), vec![10, 11]);
    assert_eq!(reader.pos(), 2);
    assert_eq!(reader.seek(SeekFrom::Start(4)), Ok(4));
    assert_eq!(reader.read(3), vec![14]);
    assert_eq!(reader.pos(), 5);
    assert_eq!(reader.read(3), Vec::<u8>::new());
    assert_eq!(reader.pos(), 5);
}

#[test]
fn reader_reads_exactly_or_not_at_all() {
    let data = [10u8, 11, 12, 13, 14];
    let mut reader = BufReaderWithPos::new(&data);
    assert_eq!(reader.seek(SeekFrom::Start(1)), Ok(1));
    assert_eq!(reader.read_exact(3), Some(vec![11, 12, 13]));
    assert_eq!(reader.pos(), 4);
    assert_eq!(reader.read_exact(2), None);
    assert_eq!(reader.pos(), 4);
    assert_eq!(reader.read_exact(1), Some(vec![14]));
    assert_eq!(reader.read_exact(0), Some(vec![]));
    assert_eq!(reader.seek(SeekFrom::Start(9)), Ok(9));
    assert_eq!(reader.read_exact(0), None);
    assert_eq!(reader.read(4), Vec::<u8>::new());
}

#[test]
fn reader_seeks_from_start_end_and_position() {
    let data = [10u8, 11, 12, 13, 14];
    let mut reader = BufReaderWithPos::new(&data);
    assert_eq!(reader.seek(SeekFrom::End(-2)), Ok(3));
    assert_eq!(reader.read(1), vec![13]);
    assert_eq!(reader.seek(SeekFrom::Current(-3)), Ok(1));
    assert_eq!(reader.seek(SeekFrom::Current(2)), Ok(3));
    assert_eq!(reader.seek(SeekFrom::End(0)), Ok(5));
    assert_eq!(reader.seek(SeekFrom::End(7)), Ok(12));
    assert_eq!(reader.pos(), 12);
    assert!(matches!(reader.seek(SeekFrom::End(-6)), Err(KvError::Io(_))));
    assert!(matches!(reader.seek(SeekFrom::Current(-13)), Err(KvError::Io(_))));
    assert_eq!(reader.pos(), 12);
    assert_eq!(reader.seek(SeekFrom::Start(u64::MAX)), Ok(u64::MAX));
    assert!(matches!(reader.seek(SeekFrom::Current(1)), Err(KvError::Io(_))));
    assert_eq!(reader.seek(SeekFrom::Current(i64::MIN)), Ok(u64::MAX - (1u64 << 63)));
}

#[test]
fn directory_keeps_its_logs_by_generation() {
    let mut dir = LogDir::new();
    assert_eq!(dir.len(), 0);
    assert!(dir.create(2, vec![1]));
    assert!(dir.create(5, vec![2, 3]));
    assert!(!dir.create(5, vec![]));
    assert!(!dir.create(4, vec![]));
    assert_eq!(dir.gens(), vec![2, 5]);
    assert_eq!(dir.find(5), Some(1));
    assert_eq!(dir.find(3), None);
    assert_eq!(dir.gen_at(0), 2);
    assert_eq!(dir.data_at(1), &vec![2, 3]);
    assert_eq!(dir.append(&[4]), 2);
    assert_eq!(dir.data_at(1), &vec![2, 3, 4]);
    assert_eq!(dir.read_at(1, 1, 2), Some(vec![3, 4]));
    assert_eq!(dir.read_at(1, 2, 2), None);
    assert_eq!(dir.read_at(0, 0, 1), Some(vec![1]));
    dir.remove_below(5);
    assert_eq!(dir.gens(), vec![5]);
    dir.remove_below(6);
    assert_eq!(dir.gens(), Vec::<u64>::new());
}

#[test]
fn index_keeps_the_last_position() {
    let mut index = Index::new();
    let key = "k".to_owned();
    let first = CommandPos { gen: 1, pos: 0, len: 10 };
    let second = CommandPos { gen: 1, pos: 10, len: 12 };
    assert_eq!(index.get(&key), None);
    assert!(!index.contains_key(&key));
    assert_eq!(index.insert(key.clone(), first), None);
    assert_eq!(index.get(&key), Some(first));
    assert!(index.contains_key(&key));
    assert_eq!(index.insert(key.clone(), second), Some(first));
    assert_eq!(index.get(&key), Some(second));
    assert_eq!(index.insert("other".to_owned(), first), None);
    let mut items = index.items();
    items.sort_by(|a, b| a.0.cmp(&b.0));
    assert_eq!(items, vec![("k".to_owned(), second), ("other".to_owned(), first)]);
    assert_eq!(index.remove(&key), Some(second));
    assert_eq!(index.remove(&key), None);
    assert_eq!(index.get(&key), None);
    assert_eq!(index.items(), vec![("other".to_owned(), first)]);
}

#[test]
fn load_rebuilds_the_index() {
    let mut log = put_bytes("a", "1");
    let a1 = log.len() as u64;
    log.extend(put_bytes("b", "22"));
    let b1 = log.len() as u64 - a1;
    log.extend(put_bytes("a", "333"));
    let a2 = log.len() as u64 - a1 - b1;
    log.extend(remove_bytes("b"));
    let rb = log.len() as u64 - a1 - b1 - a2;

    let mut index = Index::new();
    let dead = load(7, &mut index, &log).unwrap();
    assert_eq!(dead, a1 + b1 + rb);
    assert_eq!(index.get(&"a".to_owned()), Some(CommandPos { gen: 7, pos: a1 + b1, len: a2 }));
    assert_eq!(index.get(&"b".to_owned()), None);
}

#[test]
fn load_counts_a_tombstone_for_a_key_that_is_not_there() {
    let log = remove_bytes("ghost");
    let mut index = Index::new();
    assert_eq!(load(1, &mut index, &log), Ok(log.len() as u64));
    assert_eq!(index.items(), vec![]);
}

#[test]
fn load_tolerates_a_command_that_is_cut_off() {
    let mut log = put_bytes("a", "1");
    let whole = log.len() as u64;
    let tail = put_bytes("b", "2");
    log.extend(&tail[..tail.len() - 1]);
    let mut index = Index::new();
    assert_eq!(load(1, &mut index, &log), Ok(0));
    assert_eq!(index.get(&"a".to_owned()), Some(CommandPos { gen: 1, pos: 0, len: whole }));
    assert_eq!(index.get(&"b".to_owned()), None);
}

#[test]
fn load_refuses_bytes_that_start_no_command() {
    let mut log = put_bytes("a", "1");
    log.push(9);
    let mut index = Index::new();
    assert!(matches!(load(1, &mut index, &log), Err(KvError::Serialize(_))));
    assert!(index.contains_key(&"a".to_owned()));
}

#[test]
fn open_starts_one_generation_above_the_largest() {
    let writer = KvWriter::open(LogDir::new()).unwrap();
    assert_eq!(writer.curr_gen(), 1);
    assert_eq!(writer.safe_point(), 1);
    assert_eq!(writer.uncompacted(), 0);
    assert_eq!(writer.dir().gens(), vec![1]);

    let mut dir = LogDir::new();
    dir.create(3, put_bytes("a", "1"));
    dir.create(8, put_bytes("a", "2"));
    let writer = KvWriter::open(dir).unwrap();
    assert_eq!(writer.curr_gen(), 9);
    assert_eq!(writer.safe_point(), 3);
    assert_eq!(writer.uncompacted(), put_bytes("a", "1").len() as u64);
    assert_eq!(writer.dir().gens(), vec![3, 8, 9]);
    assert_eq!(
        writer.index().get(&"a".to_owned()),
        Some(CommandPos { gen: 8, pos: 0, len: put_bytes("a", "2").len() as u64 })
    );
}

#[test]
fn open_replays_the_generations_in_ascending_order() {
    let mut dir = LogDir::new();
    dir.create(1, put_bytes("k", "old"));
    dir.create(2, put_bytes("k", "new"));
    dir.create(10, remove_bytes("gone"));
    let mut store = KvStore::open(dir).unwrap();
    assert_eq!(store.get("k".to_owned()), Ok(Some("new".to_owned())));
    assert_eq!(store.get("gone".to_owned()), Ok(None));
}

#[test]
fn open_reads_logs_of_json_commands() {
    let old = b"{\"Set\":{\"key\":\"k\",\"value\":\"old\"}}".to_vec();
    let new = b"{\"Set\":{\"key\":\"k\",\"value\":\"new\"}}".to_vec();
    let mut dir = LogDir::new();
    dir.create(2, old.clone());
    dir.create(10, new.clone());
    let mut store = KvStore::open(dir).unwrap();
    assert_eq!(store.get("k".to_owned()), Ok(Some("new".to_owned())));
    let dir = store.close();
    assert_eq!(dir.gens(), vec![2, 10, 11]);
    assert_eq!(dir.data_at(0), &old);
    assert_eq!(dir.data_at(1), &new);
    assert_eq!(dir.data_at(2), &Vec::<u8>::new());
}

#[test]
fn load_counts_what_json_commands_supersede() {
    let mut log = b"{\"Set\":{\"key\":\"a\",\"value\":\"1\"}}".to_vec();
    log.extend_from_slice(b"{\"Set\":{\"key\":\"a\",\"value\":\"2\"}}");
    log.extend_from_slice(b"{\"Remove\":{\"key\":\"a\"}}");
    assert_eq!(log.len(), 31 + 31 + 22);
    let mut index = Index::new();
    assert_eq!(load(1, &mut index, &log), Ok(84));
    assert_eq!(index.items(), vec![]);
}

#[test]
fn open_refuses_a_malformed_log() {
    let mut dir = LogDir::new();
    dir.create(1, vec![0xff]);
    assert!(matches!(KvStore::open(dir), Err(KvError::Serialize(_))));
}

#[test]
fn open_refuses_a_directory_without_a_generation_left() {
    let mut dir = LogDir::new();
    dir.create(u64::MAX, Vec::new());
    assert!(matches!(KvStore::open(dir), Err(KvError::Io(_))));
}

#[test]
fn set_appends_to_the_current_log() {
    let mut writer = KvWriter::open(LogDir::new()).unwrap();
    writer.set("a".to_owned(), "1".to_owned()).unwrap();
    writer.set("b".to_owned(), "2".to_owned()).unwrap();
    let mut expected = put_bytes("a", "1");
    let first = expected.len() as u64;
    expected.extend(put_bytes("b", "2"));
    assert_eq!(writer.dir().data_at(0), &expected);
    assert_eq!(
        writer.index().get(&"b".to_owned()),
        Some(CommandPos { gen: 1, pos: first, len: expected.len() as u64 - first })
    );
    assert_eq!(writer.uncompacted(), 0);
}

#[test]
fn overwriting_counts_the_old_command_as_dead() {
    let mut writer = KvWriter::open(LogDir::new()).unwrap();
    writer.set("a".to_owned(), "1".to_owned()).unwrap();
    writer.set("a".to_owned(), "22".to_owned()).unwrap();
    assert_eq!(writer.uncompacted(), put_bytes("a", "1").len() as u64);
    writer.set("a".to_owned(), "3".to_owned()).unwrap();
    assert_eq!(
        writer.uncompacted(),
        (put_bytes("a", "1").len() + put_bytes("a", "22").len()) as u64
    );
}

#[test]
fn removing_counts_the_command_and_its_tombstone_as_dead() {
    let mut writer = KvWriter::open(LogDir::new()).unwrap();
    writer.set("a".to_owned(), "1".to_owned()).unwrap();
    writer.remove("a".to_owned()).unwrap();
    assert_eq!(
        writer.uncompacted(),
        (put_bytes("a", "1").len() + remove_bytes("a").len()) as u64
    );
    assert_eq!(writer.index().get(&"a".to_owned()), None);
}

#[test]
fn removing_a_missing_key_writes_nothing() {
    let mut writer = KvWriter::open(LogDir::new()).unwrap();
    writer.set("a".to_owned(), "1".to_owned()).unwrap();
    let before = writer.dir().data_at(0).clone();
    let dead = writer.uncompacted();
    assert_eq!(writer.remove("b".to_owned()), Err(KvError::KeyNotFound));
    assert_eq!(writer.dir().data_at(0), &before);
    assert_eq!(writer.uncompacted(), dead);
    assert_eq!(writer.dir().gens(), vec![1]);
}

#[test]
fn compaction_rewrites_the_live_commands() {
    let mut writer = KvWriter::open(LogDir::new()).unwrap();
    writer.set("a".to_owned(), "1".to_owned()).unwrap();
    writer.set("b".to_owned(), "2".to_owned()).unwrap();
    writer.set("a".to_owned(), "3".to_owned()).unwrap();
    writer.remove("b".to_owned()).unwrap();
    writer.set("c".to_owned(), "4".to_owned()).unwrap();
    assert_eq!(writer.compaction(), Ok(()));

    assert_eq!(writer.curr_gen(), 3);
    assert_eq!(writer.safe_point(), 2);
    assert_eq!(writer.uncompacted(), 0);
    assert_eq!(writer.dir().gens(), vec![2, 3]);
    assert_eq!(writer.dir().data_at(1), &Vec::<u8>::new());
    let live = (put_bytes("a", "3").len() + put_bytes("c", "4").len()) as usize;
    assert_eq!(writer.dir().data_at(0).len(), live);

    let a = writer.index().get(&"a".to_owned()).unwrap();
    let c = writer.index().get(&"c".to_owned()).unwrap();
    assert_eq!((a.gen, a.len), (2, put_bytes("a", "3").len() as u64));
    assert_eq!((c.gen, c.len), (2, put_bytes("c", "4").len() as u64));
    assert_eq!(writer.dir().read_at(0, a.pos, a.len), Some(put_bytes("a", "3")));
    assert_eq!(writer.dir().read_at(0, c.pos, c.len), Some(put_bytes("c", "4")));
    assert_eq!(writer.index().get(&"b".to_owned()), None);
}

#[test]
fn compaction_keeps_every_value() {
    let mut store = open_empty();
    for i in 0..50 {
        store.set(format!("key{}", i), format!("value{}", i)).unwrap();
    }
    for i in 0..50 {
        if i % 3 == 0 {
            store.remove(format!("key{}", i)).unwrap();
        } else if i % 3 == 1 {
            store.set(format!("key{}", i), format!("again{}", i)).unwrap();
        }
    }
    let mut writer = KvWriter::open(store.close()).unwrap();
    writer.compaction().unwrap();
    writer.compaction().unwrap();
    let mut store = KvStore::open(writer.close()).unwrap();
    for i in 0..50 {
        let expected = match i % 3 {
            0 => None,
            1 => Some(format!("again{}", i)),
            _ => Some(format!("value{}", i)),
        };
        assert_eq!(store.get(format!("key{}", i)), Ok(expected));
    }
}

#[test]
fn compaction_runs_when_the_dead_bytes_pass_the_limit() {
    assert_eq!(COMPACTION_LIMIT, 1024 * 1024);
    let mut writer = KvWriter::open(LogDir::new()).unwrap();
    let value = "v".repeat(1000);
    let each = put_bytes("key", &value).len() as u64;
    let mut sets = 0u64;
    writer.set("key".to_owned(), value.clone()).unwrap();
    while writer.curr_gen() == 1 {
        assert_eq!(writer.uncompacted(), sets * each);
        assert!(writer.uncompacted() <= COMPACTION_LIMIT);
        writer.set("key".to_owned(), value.clone()).unwrap();
        sets += 1;
    }
    assert!(sets * each > COMPACTION_LIMIT);
    assert!((sets - 1) * each <= COMPACTION_LIMIT);
    assert_eq!(writer.curr_gen(), 3);
    assert_eq!(writer.safe_point(), 2);
    assert_eq!(writer.uncompacted(), 0);
    assert_eq!(writer.dir().gens(), vec![2, 3]);
    assert_eq!(writer.dir().data_at(0).len() as u64, each);
}

#[test]
fn compaction_needs_two_generations() {
    let mut dir = LogDir::new();
    dir.create(u64::MAX - 2, put_bytes("a", "1"));
    let mut writer = KvWriter::open(dir).unwrap();
    assert_eq!(writer.curr_gen(), u64::MAX - 1);
    assert!(matches!(writer.compaction(), Err(KvError::Io(_))));
    assert_eq!(writer.dir().gens(), vec![u64::MAX - 2, u64::MAX - 1]);
    assert_eq!(writer.uncompacted(), 0);

    let mut store = KvStore::open(writer.close()).unwrap();
    assert_eq!(store.writer().curr_gen(), u64::MAX);
    assert_eq!(store.get("a".to_owned()), Ok(Some("1".to_owned())));
    assert!(matches!(KvStore::open(store.close()), Err(KvError::Io(_))));
}

#[test]
fn a_set_reports_the_compaction_that_could_not_run() {
    let mut dir = LogDir::new();
    dir.create(u64::MAX - 2, Vec::new());
    let mut writer = KvWriter::open(dir).unwrap();
    let value = "v".repeat(600_000);
    assert_eq!(writer.set("k".to_owned(), value.clone()), Ok(()));
    assert_eq!(writer.set("k".to_owned(), value.clone()), Ok(()));
    assert!(writer.uncompacted() <= COMPACTION_LIMIT);
    assert!(matches!(writer.set("k".to_owned(), "last".to_owned()), Err(KvError::Io(_))));
    assert!(writer.uncompacted() > COMPACTION_LIMIT);
    assert_eq!(writer.curr_gen(), u64::MAX - 1);
    let mut reader = KvReader::new();
    assert_eq!(
        reader.get(writer.dir(), writer.index(), writer.safe_point(), "k".to_owned()),
        Ok(Some("last".to_owned()))
    );
}

fn log_bytes(writer: &KvWriter) -> u64 {
    let dir = writer.dir();
    (0..dir.len()).map(|i| dir.data_at(i).len() as u64).sum()
}

fn live_bytes(writer: &KvWriter) -> u64 {
    writer.index().items().iter().map(|(_, entry)| entry.len).sum()
}

#[test]
fn every_byte_is_live_or_dead() {
    let mut writer = KvWriter::open(LogDir::new()).unwrap();
    for round in 0..40u32 {
        let key = format!("key{}", round % 7);
        if round % 5 == 4 {
            let _ = writer.remove(key);
        } else {
            writer.set(key, format!("value \"{}\"\n", round)).unwrap();
        }
        assert_eq!(log_bytes(&writer), live_bytes(&writer) + writer.uncompacted());
    }
    assert!(writer.uncompacted() > 0);
    let before = log_bytes(&writer);
    let live = live_bytes(&writer);
    writer.compaction().unwrap();
    assert_eq!(writer.uncompacted(), 0);
    assert_eq!(log_bytes(&writer), live);
    assert_eq!(live_bytes(&writer), live);
    assert!(log_bytes(&writer) < before);
}

#[test]
fn the_logs_stay_within_the_limit_of_the_live_bytes() {
    let mut writer = KvWriter::open(LogDir::new()).unwrap();
    let value = "x".repeat(50_000);
    for round in 0..100u32 {
        writer.set(format!("key{}", round % 3), value.clone()).unwrap();
        assert!(writer.uncompacted() <= COMPACTION_LIMIT);
        assert!(log_bytes(&writer) <= live_bytes(&writer) + COMPACTION_LIMIT);
    }
    assert!(writer.curr_gen() > 1);
}

#[test]
fn safe_point_never_decreases() {
    let mut writer = KvWriter::open(LogDir::new()).unwrap();
    let mut last = writer.safe_point();
    for round in 0..6 {
        writer.set("a".to_owned(), format!("{}", round)).unwrap();
        assert!(writer.safe_point() >= last);
        last = writer.safe_point();
        writer.compaction().unwrap();
        assert!(writer.safe_point() > last);
        last = writer.safe_point();
        assert!(writer.dir().gens().iter().all(|gen| *gen >= last));
    }
    assert_eq!(last, 12);
}

#[test]
fn reader_keeps_handles_at_or_above_the_safe_point() {
    let mut dir = LogDir::new();
    dir.create(1, put_bytes("a", "1"));
    dir.create(2, put_bytes("b", "2"));
    let writer = KvWriter::open(dir).unwrap();
    let mut reader = KvReader::new();
    assert!(!reader.is_open(1));
    assert_eq!(
        reader.get(writer.dir(), writer.index(), 1, "a".to_owned()),
        Ok(Some("1".to_owned()))
    );
    assert!(reader.is_open(1));
    assert!(!reader.is_open(2));
    assert_eq!(
        reader.get(writer.dir(), writer.index(), 1, "b".to_owned()),
        Ok(Some("2".to_owned()))
    );
    assert!(reader.is_open(1) && reader.is_open(2));
    assert_eq!(reader.get(writer.dir(), writer.index(), 2, "missing".to_owned()), Ok(None));
    assert!(!reader.is_open(1));
    assert!(reader.is_open(2));
}

#[test]
fn reader_reports_what_is_wrong_with_an_entry() {
    let mut dir = LogDir::new();
    dir.create(1, put_bytes("a", "1"));
    let mut index = Index::new();
    let len = put_bytes("a", "1").len() as u64;
    index.insert("lost".to_owned(), CommandPos { gen: 9, pos: 0, len });
    index.insert("cut".to_owned(), CommandPos { gen: 1, pos: 1, len });
    index.insert("garbled".to_owned(), CommandPos { gen: 1, pos: 1, len: len - 1 });
    index.insert("long".to_owned(), CommandPos { gen: 1, pos: 0, len: len - 1 });
    index.insert("a".to_owned(), CommandPos { gen: 1, pos: 0, len });
    let mut reader = KvReader::new();
    assert_eq!(reader.get(&dir, &index, 0, "lost".to_owned()), Err(KvError::ReaderNotFound));
    assert!(matches!(reader.get(&dir, &index, 0, "cut".to_owned()), Err(KvError::Io(_))));
    assert!(matches!(
        reader.get(&dir, &index, 0, "garbled".to_owned()),
        Err(KvError::Serialize(_))
    ));
    assert!(matches!(reader.get(&dir, &index, 0, "long".to_owned()), Err(KvError::Serialize(_))));
    assert_eq!(reader.get(&dir, &index, 0, "a".to_owned()), Ok(Some("1".to_owned())));
    assert_eq!(reader.get(&dir, &index, 0, "none".to_owned()), Ok(None));
}

#[test]
fn reader_treats_a_tombstone_as_no_value() {
    let mut dir = LogDir::new();
    dir.create(1, remove_bytes("a"));
    let mut index = Index::new();
    index.insert("a".to_owned(), CommandPos { gen: 1, pos: 0, len: remove_bytes("a").len() as u64 });
    let mut reader = KvReader::new();
    assert_eq!(reader.get(&dir, &index, 0, "a".to_owned()), Ok(None));
}

#[test]
fn store_readers_start_without_handles() {
    let mut store = open_empty();
    store.set("a".to_owned(), "1".to_owned()).unwrap();
    assert_eq!(store.get("a".to_owned()), Ok(Some("1".to_owned())));
    let mut reader = store.reader();
    assert!(!reader.is_open(1));
    let writer = store.writer();
    assert_eq!(
        reader.get(writer.dir(), writer.index(), writer.safe_point(), "a".to_owned()),
        Ok(Some("1".to_owned()))
    );
    assert!(reader.is_open(1));
}

#[test]
fn long_values_round_trip() {
    let mut store = open_empty();
    let big = "x".repeat(70_000);
    store.set("big".to_owned(), big.clone()).unwrap();
    assert_eq!(store.get("big".to_owned()), Ok(Some(big)));
}

// Insert data until total size of the directory decreases.
// Test data correctness after compaction.
#[test]
fn compaction() {
    let mut store = open_empty();
    let mut current_size = dir_size(&store);
    for iter in 0..1000 {
        for key_id in 0..1000 {
            let key = format!("key{}", key_id);
            let value = format!("{}", iter);
            store.set(key, value).unwrap();
        }

        let new_size = dir_size(&store);
        if new_size > current_size {
            current_size = new_size;
            continue;
        }
        // Compaction triggered

        // reopen and check content
        let mut store = KvStore::open(store.close()).unwrap();
        for key_id in 0..1000 {
            let key = format!("key{}", key_id);
            assert_eq!(store.get(key), Ok(Some(format!("{}", iter))));
        }
        return;
    }

    panic!("No compaction detected");
}

#[test]
fn concurrent_set() {
    let mut store = open_empty();
    for i in 0..10000 {
        store.set(format!("key{}", i), format!("value{}", i)).unwrap();
    }

    // We only check the sets in this test, so we check sequentially here
    let mut store = KvStore::open(store.close()).unwrap();
    for i in 0..10000 {
        assert_eq!(store.get(format!("key{}", i)), Ok(Some(format!("value{}", i))));
    }
}

#[test]
fn any_order_of_writes_gives_the_state_of_that_order() {
    let mut store = open_empty();
    let mut model = std::collections::BTreeMap::new();
    let mut seed = 12345u64;
    for _ in 0..3000 {
        seed = seed.wrapping_mul(6364136223846793005).wrapping_add(1442695040888963407);
        let key = format!("k{}", (seed >> 33) % 40);
        if (seed >> 20) % 4 == 0 {
            let expected =
                if model.remove(&key).is_some() { Ok(()) } else { Err(KvError::KeyNotFound) };
            assert_eq!(store.remove(key), expected);
        } else {
            let value = format!("v{}", seed % 1000);
            model.insert(key.clone(), value.clone());
            assert_eq!(store.set(key, value), Ok(()));
        }
    }
    let mut store = KvStore::open(store.close()).unwrap();
    for i in 0..40 {
        let key = format!("k{}", i);
        assert_eq!(store.get(key.clone()), Ok(model.get(&key).cloned()));
    }
}
