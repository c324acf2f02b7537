use foyer_storage::buffer::{FlushBuffer, PositionedEntry, WriteOutcome};
use foyer_storage::codec::{decode_entry, Compression, Entry};
use foyer_storage::config::FsDeviceConfig;

/// Region files held in memory.
struct MemDevice {
    regions: Vec<Vec<u8>>,
}

impl MemDevice {
    fn new(config: &FsDeviceConfig) -> Self {
        let n = config.capacity / config.file_size;
        MemDevice { regions: vec![vec![0u8; config.file_size]; n] }
    }
}

fn config() -> FsDeviceConfig {
    FsDeviceConfig {
        dir: String::from("unused"),
        capacity: 256 * 1024,
        file_size: 64 * 1024,
        align: 4 * 1024,
        io_size: 16 * 1024,
    }
}

fn ent(size: usize) -> Entry {
    Entry { key: vec![], value: vec![b'x'; size], compression: Compression::Uncompressed, sequence: 0 }
}

fn flush(buffer: &mut FlushBuffer, dev: &mut MemDevice) -> Vec<PositionedEntry> {
    match buffer.flush_request() {
        Some(req) => {
            let region = &mut dev.regions[req.region as usize];
            region[req.offset..req.offset + req.data.len()].copy_from_slice(&req.data);
            buffer.complete_flush()
        }
        None => vec![],
    }
}

fn write(buffer: &mut FlushBuffer, dev: &mut MemDevice, entry: Entry) -> Vec<PositionedEntry> {
    match buffer.write(entry) {
        Ok(WriteOutcome::Staged { flush: true }) => flush(buffer, dev),
        Ok(WriteOutcome::Staged { flush: false }) => vec![],
        other => panic!("got: {:?}", other),
    }
}

fn rotate(buffer: &mut FlushBuffer, dev: &mut MemDevice, region: u32) -> Vec<PositionedEntry> {
    let entries = flush(buffer, dev);
    buffer.rotate(region);
    entries
}

fn assert_buffer(positioneds: Vec<PositionedEntry>, buf: &[u8]) {
    for positioned in positioneds {
        let b = &buf[positioned.offset..positioned.offset + positioned.len];
        let decoded = decode_entry(b).unwrap();
        assert_eq!(decoded.value, positioned.entry.value);
        assert_eq!(decoded.key, positioned.entry.key);
    }
}

#[test]
fn test_flush_buffer() {
    let config = config();
    let mut dev = MemDevice::new(&config);
    let mut buffer = FlushBuffer::new(&config);
    assert_eq!(buffer.region(), None);

    {
        let entry = ent(5 * 1024 - 128); // ~ 5 KiB
        let mut positioneds = vec![];

        let res = buffer.write(entry);
        let entry = match res {
            Ok(WriteOutcome::Rotate(entry)) => entry,
            _ => panic!("got: {:?}", res),
        };

        let entries = rotate(&mut buffer, &mut dev, 0);
        assert!(entries.is_empty());

        // 4 ~ 12 KiB
        let entries = write(&mut buffer, &mut dev, entry.clone());
        assert!(entries.is_empty());
        // 12 ~ 20 KiB
        let entries = write(&mut buffer, &mut dev, entry.clone());
        assert_eq!(entries.len(), 2);
        assert_eq!(entries[0].offset, 4 * 1024);
        assert_eq!(entries[1].offset, 12 * 1024);
        positioneds.extend(entries);

        // 20 ~ 28 KiB
        let entries = write(&mut buffer, &mut dev, entry.clone());
        assert!(entries.is_empty());
        let entries = flush(&mut buffer, &mut dev);
        assert_eq!(entries.len(), 1);
        assert_eq!(entries[0].offset, 20 * 1024);
        positioneds.extend(entries);

        assert_buffer(positioneds, &dev.regions[0]);
        assert!(buffer.is_flushed());
    }

    {
        let entry = ent(54 * 1024 - 128); // ~ 54 KiB
        let mut positioneds = vec![];

        let res = buffer.write(entry);
        let entry = match res {
            Ok(WriteOutcome::Rotate(entry)) => entry,
            _ => panic!("got: {:?}", res),
        };

        let entries = rotate(&mut buffer, &mut dev, 1);
        assert!(entries.is_empty());

        // 4 ~ 60 KiB
        let entries = write(&mut buffer, &mut dev, entry);
        assert_eq!(entries.len(), 1);
        assert_eq!(entries[0].offset, 4 * 1024);
        positioneds.extend(entries);

        let entry = ent(3 * 1024 - 128); // ~ 3 KiB

        // 60 ~ 64 KiB
        let entries = write(&mut buffer, &mut dev, entry);
        assert_eq!(entries.len(), 1);
        assert_eq!(entries[0].offset, 60 * 1024);
        positioneds.extend(entries);

        assert_buffer(positioneds, &dev.regions[1]);
        assert!(buffer.is_flushed());
        assert_eq!(buffer.region(), None);
        assert_eq!(buffer.remaining(), 0);
    }
}

#[test]
fn positions_are_aligned_and_in_region() {
    let config = config();
    let mut dev = MemDevice::new(&config);
    let mut buffer = FlushBuffer::new(&config);
    rotate(&mut buffer, &mut dev, 2);
    let mut all = vec![];
    for size in [10usize, 4000, 4100, 9000, 100] {
        all.extend(write(&mut buffer, &mut dev, ent(size)));
    }
    all.extend(flush(&mut buffer, &mut dev));
    assert_eq!(all.len(), 5);
    for p in &all {
        assert_eq!(p.region, 2);
        assert_eq!(p.offset % 4096, 0);
        assert_eq!(p.len % 4096, 0);
        assert!(p.offset + p.len <= 64 * 1024);
    }
    assert_buffer(all, &dev.regions[2]);
}

#[test]
fn region_header_block_is_staged_on_rotate() {
    let config = config();
    let mut dev = MemDevice::new(&config);
    let mut buffer = FlushBuffer::new(&config);
    rotate(&mut buffer, &mut dev, 3);
    assert_eq!(buffer.region(), Some(3));
    assert_eq!(buffer.remaining(), 60 * 1024);
    let req = buffer.flush_request().unwrap();
    assert_eq!(req.region, 3);
    assert_eq!(req.offset, 0);
    assert_eq!(req.data.len(), 4096);
    assert_eq!(&req.data[0..8], &0x1997_0327_1997_0327u64.to_le_bytes());
    assert_eq!(&req.data[8..10], &1u16.to_le_bytes());
    assert!(req.data[10..].iter().all(|b| *b == 0));
}

#[test]
fn oversized_entry_is_returned_and_buffer_rolls_back() {
    let config = config();
    let mut dev = MemDevice::new(&config);
    let mut buffer = FlushBuffer::new(&config);
    rotate(&mut buffer, &mut dev, 0);
    write(&mut buffer, &mut dev, ent(20 * 1024));
    let before = buffer.remaining();
    // Pseudo-random bytes do not compress: the compressed value exceeds the room left.
    let mut x: u32 = 12345;
    let value: Vec<u8> = (0..40 * 1024)
        .map(|_| {
            x = x.wrapping_mul(1103515245).wrapping_add(12345);
            (x >> 16) as u8
        })
        .collect();
    let big = Entry { key: vec![1, 2, 3], value, sequence: 7, compression: Compression::Zstd };
    let back = match buffer.write(big.clone()) {
        Ok(WriteOutcome::Rotate(e)) => e,
        other => panic!("got: {:?}", other),
    };
    assert_eq!(back.value, big.value);
    assert_eq!(buffer.remaining(), before);
    rotate(&mut buffer, &mut dev, 1);
    match buffer.write(back) {
        Ok(WriteOutcome::Staged { .. }) => {}
        other => panic!("got: {:?}", other),
    }
    let entries = flush(&mut buffer, &mut dev);
    assert_eq!(entries.len(), 1);
    assert_eq!(entries[0].offset, 4096);
    let d = decode_entry(&dev.regions[1][4096..4096 + entries[0].len]).unwrap();
    assert_eq!(d.value, big.value);
    assert_eq!(d.header.compression, Compression::Zstd);
}

#[test]
fn staging_pre_encoded_bytes() {
    let config = config();
    let mut dev = MemDevice::new(&config);
    let mut buffer = FlushBuffer::new(&config);
    rotate(&mut buffer, &mut dev, 0);
    let e = Entry { key: vec![7, 7], value: vec![1, 2, 3], sequence: 3, compression: Compression::Uncompressed };
    let mut v = 3u64.to_le_bytes().to_vec();
    v.extend_from_slice(&[1, 2, 3]);
    let mut k = 2u64.to_le_bytes().to_vec();
    k.extend_from_slice(&[7, 7]);
    match buffer.stage_encoded(e.clone(), v, k) {
        WriteOutcome::Staged { flush: false } => {}
        other => panic!("got: {:?}", other),
    }
    assert_eq!(buffer.remaining(), 56 * 1024);
    let entries = flush(&mut buffer, &mut dev);
    assert_eq!(entries.len(), 1);
    assert_eq!((entries[0].offset, entries[0].len), (4096, 4096));
    let d = decode_entry(&dev.regions[0][4096..8192]).unwrap();
    assert_eq!(d.value, e.value);
    assert_eq!(d.key, e.key);
    assert_eq!(d.header.sequence, 3);
    assert_eq!(d.header.value_len, 11);
    assert_eq!(d.header.key_len, 10);
}
