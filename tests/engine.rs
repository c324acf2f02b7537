use foyer_storage::buffer::WriteOutcome;
use foyer_storage::catalog::{Catalog, Item, RegionView};
use foyer_storage::codec::{checksum, decode_entry, Compression, Entry, EntryHeader, ReadError};
use foyer_storage::config::{FsDeviceConfig, FsDeviceConfigBuilder};
use foyer_storage::flusher::{FlushError, Flusher};
use foyer_storage::region::{Phase, RegionManager};

fn config() -> FsDeviceConfig {
    FsDeviceConfig {
        dir: String::from("unused"),
        capacity: 256 * 1024,
        file_size: 64 * 1024,
        align: 4 * 1024,
        io_size: 16 * 1024,
    }
}

fn entry(key: &[u8], size: usize, sequence: u64) -> Entry {
    Entry { key: key.to_vec(), value: vec![b'v'; size], sequence, compression: Compression::Uncompressed }
}

fn item(sequence: u64, region: u32) -> Item {
    Item { sequence, view: RegionView { region, offset: 4096, len: 4096 } }
}

/// Flushes what is staged, as a device that accepts every write would.
fn flush(flusher: &mut Flusher) {
    if flusher.flush_request().is_some() {
        flusher.flushed();
    }
}

/// Writes `e`, switching regions when the current one is full.
fn put(flusher: &mut Flusher, e: Entry) {
    match flusher.write(e).unwrap() {
        WriteOutcome::Staged { flush: true } => flush(flusher),
        WriteOutcome::Staged { flush: false } => {}
        WriteOutcome::Rotate(e) => {
            flush(flusher);
            match flusher.rotate_and_write(e) {
                Ok(true) => flush(flusher),
                Ok(false) => {}
                other => panic!("got: {:?}", other),
            }
        }
    }
}

#[test]
fn test_config_builder() {
    let config = FsDeviceConfigBuilder::new(String::from("/tmp/cache")).build(10 * 1024 * 1024 * 1024);
    assert!(config.validate());
    assert_eq!(config.align, 4096);
    assert_eq!(config.file_size, 64 * 1024 * 1024);
    assert_eq!(config.capacity, 8 * 1024 * 1024 * 1024);
    assert_eq!(config.io_size, 16 * 1024);
    assert_eq!(config.dir, "/tmp/cache");
}

#[test]
fn config_builder_rounds_down() {
    let config = FsDeviceConfigBuilder::new(String::from("d"))
        .with_capacity(1_000_000)
        .with_file_size(100_000)
        .with_align(4096)
        .with_io_size(1000)
        .build(0);
    assert_eq!(config.capacity, 983_040);
    assert_eq!(config.file_size, 98_304);
    assert_eq!(config.io_size, 4096);
    assert_eq!(config.regions(), 10);
    assert!(config.validate());
}

#[test]
fn config_validation_rejects_bad_geometry() {
    let mut c = config();
    assert!(c.validate());
    c.align = 3000;
    assert!(!c.validate());
    let mut c = config();
    c.capacity = 100 * 1024;
    assert!(!c.validate());
    let mut c = config();
    c.file_size = 5000;
    assert!(!c.validate());
}

#[test]
fn header_round_trip_and_checksum() {
    let h = EntryHeader { key_len: 3, value_len: 300, sequence: 42, compression: Compression::Lz4, checksum: 7 };
    let bytes = h.write();
    assert_eq!(bytes.len(), 25);
    assert_eq!(EntryHeader::read(&bytes), Some(h));
    assert_eq!(checksum(&[]), 0xcbf29ce484222325);
    assert_eq!(checksum(b"a"), 0xaf63dc4c8601ec8c);
}

#[test]
fn decode_rejects_damaged_records() {
    let mut flusher = Flusher::new(&config());
    assert!(flusher.switch_region().is_some());
    put(&mut flusher, entry(b"k", 100, 1));
    let req = flusher.flush_request().unwrap();
    let rec = req.data[4096..8192].to_vec();
    assert!(decode_entry(&rec).is_ok());
    assert!(matches!(decode_entry(&rec[..10]), Err(ReadError::Malformed)));
    let mut bad = rec.clone();
    bad[40] ^= 1;
    assert!(matches!(decode_entry(&bad), Err(ReadError::ChecksumMismatch)));
    let mut bad_tag = rec.clone();
    bad_tag[16] = 9;
    assert!(matches!(decode_entry(&bad_tag), Err(ReadError::Malformed)));
    let mut bad_len = rec.clone();
    bad_len[4..8].copy_from_slice(&u32::MAX.to_le_bytes());
    assert!(matches!(decode_entry(&bad_len), Err(ReadError::Malformed)));
}

#[test]
fn compressed_values_read_back() {
    for compression in [Compression::Zstd, Compression::Lz4] {
        let mut flusher = Flusher::new(&config());
        assert!(flusher.switch_region().is_some());
        let e = Entry { key: b"key".to_vec(), value: vec![b'z'; 10_000], sequence: 5, compression };
        put(&mut flusher, e.clone());
        let req = flusher.flush_request().unwrap();
        let item = {
            flusher.flushed();
            flusher.lookup(b"key").unwrap()
        };
        let start = item.view.offset as usize - req.offset;
        let rec = &req.data[start..start + item.view.len as usize];
        // Compression shrank the record to one block.
        assert_eq!(item.view.len, 4096);
        let d = decode_entry(rec).unwrap();
        assert_eq!(d.value, e.value);
        assert_eq!(d.key, e.key);
        assert_eq!(d.header.compression, compression);
        assert_eq!(d.header.sequence, 5);
    }
}

#[test]
fn newest_sequence_wins_in_either_order() {
    let mut a = Catalog::new();
    a.insert(b"k".to_vec(), item(10, 0));
    a.insert(b"k".to_vec(), item(11, 1));
    assert_eq!(a.lookup(b"k"), Some(item(11, 1)));
    let mut b = Catalog::new();
    b.insert(b"k".to_vec(), item(11, 1));
    b.insert(b"k".to_vec(), item(10, 0));
    assert_eq!(b.lookup(b"k"), Some(item(11, 1)));
    assert_eq!(a.lookup(b"other"), None);
}

#[test]
fn same_key_through_flusher_keeps_newest() {
    let mut flusher = Flusher::new(&config());
    assert!(flusher.switch_region().is_some());
    put(&mut flusher, entry(b"k", 100, 11));
    put(&mut flusher, entry(b"k", 100, 10));
    flush(&mut flusher);
    let it = flusher.lookup(b"k").unwrap();
    assert_eq!(it.sequence, 11);
    assert_eq!(it.view.offset, 4096);
}

#[test]
fn catalog_remove_region() {
    let mut c = Catalog::new();
    c.insert(b"a".to_vec(), item(1, 0));
    c.insert(b"b".to_vec(), item(2, 1));
    c.insert(b"c".to_vec(), item(3, 0));
    c.remove_region(0);
    assert_eq!(c.lookup(b"a"), None);
    assert_eq!(c.lookup(b"b"), Some(item(2, 1)));
    assert_eq!(c.lookup(b"c"), None);
}

#[test]
fn pinned_region_blocks_eviction() {
    let mut flusher = Flusher::new(&config());
    assert_eq!(flusher.switch_region(), Some(0));
    put(&mut flusher, entry(b"r", 100, 1));
    flush(&mut flusher);
    assert_eq!(flusher.lookup(b"r").unwrap().view.region, 0);
    assert_eq!(flusher.switch_region(), Some(1));
    assert!(flusher.pin(0));
    assert_eq!(flusher.evict(), None);
    assert_eq!(flusher.region_manager().phase_of(0), Phase::Dirty);
    flusher.unpin(0);
    assert_eq!(flusher.evict(), Some(0));
    assert_eq!(flusher.lookup(b"r"), None);
    assert_eq!(flusher.region_manager().phase_of(0), Phase::Clean);
    assert_eq!(flusher.evict(), None);
}

#[test]
fn failed_flush_publishes_nothing_new() {
    let mut flusher = Flusher::new(&config());
    assert!(flusher.switch_region().is_some());
    put(&mut flusher, entry(b"a", 100, 1));
    flush(&mut flusher);
    put(&mut flusher, entry(b"b", 100, 2));
    // The device refuses this write: the flusher is not told it succeeded.
    assert!(flusher.flush_request().is_some());
    assert!(flusher.lookup(b"a").is_some());
    assert_eq!(flusher.lookup(b"b"), None);
    assert!(!flusher.buffer().is_flushed());
}

#[test]
fn staged_entries_publish_on_final_flush() {
    let mut flusher = Flusher::new(&config());
    assert!(flusher.switch_region().is_some());
    put(&mut flusher, entry(b"x", 10, 1));
    put(&mut flusher, entry(b"y", 10, 2));
    assert_eq!(flusher.lookup(b"x"), None);
    flush(&mut flusher);
    assert!(flusher.buffer().is_flushed());
    assert_eq!(flusher.lookup(b"x").unwrap().view.offset, 4096);
    assert_eq!(flusher.lookup(b"y").unwrap().view.offset, 8192);
}

#[test]
fn regions_cycle_through_lifecycle() {
    let mut m = RegionManager::new(2);
    assert_eq!(m.clean_count(), 2);
    assert_eq!(m.acquire(), Some(0));
    assert_eq!(m.phase_of(0), Phase::Writing);
    m.eviction_push(0);
    assert_eq!(m.acquire(), Some(1));
    m.eviction_push(1);
    assert_eq!(m.acquire(), None);
    assert_eq!(m.begin_eviction(), Some(0));
    assert_eq!(m.phase_of(0), Phase::Evicting);
    assert!(!m.pin(0));
    let mut c = Catalog::new();
    c.insert(b"q".to_vec(), item(1, 0));
    m.finish_eviction(0, &mut c);
    assert_eq!(c.lookup(b"q"), None);
    assert_eq!(m.acquire(), Some(0));
}

#[test]
fn region_full_switches_to_next() {
    let mut flusher = Flusher::new(&config());
    assert_eq!(flusher.switch_region(), Some(0));
    for i in 0..20u64 {
        put(&mut flusher, entry(&i.to_le_bytes(), 7000, i));
    }
    flush(&mut flusher);
    let first = flusher.lookup(&0u64.to_le_bytes()).unwrap();
    let last = flusher.lookup(&19u64.to_le_bytes()).unwrap();
    assert_eq!(first.view.region, 0);
    assert!(last.view.region > 0);
    assert_eq!(flusher.region_manager().phase_of(0), Phase::Dirty);
}

#[test]
fn oversized_entry_is_reported_after_rotation() {
    let mut flusher = Flusher::new(&config());
    assert_eq!(flusher.switch_region(), Some(0));
    let big = entry(b"big", 70 * 1024, 9);
    let back = match flusher.write(big.clone()).unwrap() {
        WriteOutcome::Rotate(e) => e,
        other => panic!("got: {:?}", other),
    };
    flush(&mut flusher);
    assert_eq!(flusher.switch_region(), Some(1));
    match flusher.write_rotated(back) {
        Err(FlushError::Oversized(e)) => assert_eq!(e.value, big.value),
        other => panic!("got: {:?}", other),
    }
    assert!(flusher.buffer().is_flushed() || flusher.buffer().remaining() == 60 * 1024);
    assert_eq!(flusher.lookup(b"big"), None);
    assert!(matches!(flusher.write_rotated(entry(b"ok", 10, 10)), Ok(false)));
}

#[test]
fn next_region_evicts_when_no_clean_region_is_left() {
    let mut flusher = Flusher::new(&config());
    for expected in 0..4u32 {
        flush(&mut flusher);
        assert_eq!(flusher.next_region(), Some(expected));
        put(&mut flusher, entry(&[expected as u8], 100, expected as u64));
    }
    flush(&mut flusher);
    assert_eq!(flusher.lookup(&[0]).unwrap().view.region, 0);
    // All four regions are used: region 0 is evicted and written again.
    assert_eq!(flusher.next_region(), Some(0));
    assert_eq!(flusher.lookup(&[0]), None);
    assert_eq!(flusher.lookup(&[1]).unwrap().view.region, 1);
    assert_eq!(flusher.region_manager().phase_of(0), Phase::Writing);
}

#[test]
fn next_region_waits_for_pinned_region() {
    let mut flusher = Flusher::new(&config());
    for expected in 0..4u32 {
        flush(&mut flusher);
        assert_eq!(flusher.next_region(), Some(expected));
    }
    flush(&mut flusher);
    // Region 3 joins the eviction queue behind 0, 1 and 2.
    assert_eq!(flusher.switch_region(), None);
    assert!(flusher.pin(0));
    assert_eq!(flusher.next_region(), None);
    flusher.unpin(0);
    assert_eq!(flusher.next_region(), Some(0));
}

#[test]
fn catalog_remove_single_key() {
    let mut c = Catalog::new();
    c.insert(b"a".to_vec(), item(1, 0));
    c.insert(b"b".to_vec(), item(2, 1));
    c.remove(b"a");
    c.remove(b"zz");
    assert_eq!(c.lookup(b"a"), None);
    assert_eq!(c.lookup(b"b"), Some(item(2, 1)));
    c.insert(b"a".to_vec(), item(0, 2));
    assert_eq!(c.lookup(b"a"), Some(item(0, 2)));
}

#[test]
fn flusher_remove_drops_one_key() {
    let mut flusher = Flusher::new(&config());
    assert!(flusher.switch_region().is_some());
    put(&mut flusher, entry(b"a", 10, 1));
    put(&mut flusher, entry(b"b", 10, 2));
    flush(&mut flusher);
    flusher.remove(b"a");
    assert_eq!(flusher.lookup(b"a"), None);
    assert!(flusher.lookup(b"b").is_some());
}

#[test]
fn rotate_and_write_reports_no_region_and_oversized() {
    let mut flusher = Flusher::new(&config());
    for expected in 0..4u32 {
        flush(&mut flusher);
        assert_eq!(flusher.next_region(), Some(expected));
    }
    flush(&mut flusher);
    assert_eq!(flusher.switch_region(), None);
    assert!(flusher.pin(0));
    match flusher.rotate_and_write(entry(b"w", 10, 1)) {
        Err(FlushError::NoRegion(e)) => assert_eq!(e.key, b"w".to_vec()),
        other => panic!("got: {:?}", other),
    }
    flusher.unpin(0);
    assert!(matches!(flusher.rotate_and_write(entry(b"w", 10, 1)), Ok(false)));
    assert_eq!(flusher.buffer().region(), Some(0));
    flush(&mut flusher);
    assert_eq!(flusher.lookup(b"w").unwrap().view.offset, 4096);
    match flusher.rotate_and_write(entry(b"big", 70 * 1024, 2)) {
        Err(FlushError::Oversized(e)) => assert_eq!(e.key, b"big".to_vec()),
        other => panic!("got: {:?}", other),
    }
}
