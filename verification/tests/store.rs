use std::collections::{HashMap, HashSet};
use std::sync::{Arc, Mutex};

use kalpakdb::block::BlockId;
use kalpakdb::error::Error;
use kalpakdb::io::{IoBackend, SegmentFile};
use kalpakdb::memory::MemoryBackend;
use kalpakdb::segment::{encode_record, parse_header, record_len, scan, HEADER_LEN};
use kalpakdb::store::BlockStore;

type Bytes = Arc<Mutex<Vec<u8>>>;

/// A disk that outlives the stores on it.
#[derive(Clone, Default)]
struct Disk {
    files: Arc<Mutex<HashMap<String, Bytes>>>,
    device: Arc<Mutex<Device>>,
}

#[derive(Default)]
struct Device {
    /// How many more writes succeed.
    writes_left: Option<u32>,
    /// How many bytes of a write that fails land all the same.
    lands: usize,
    /// How often any file was written to.
    writes: u32,
    /// How often any file was flushed.
    flushes: u32,
}

struct DiskFile {
    bytes: Bytes,
    device: Arc<Mutex<Device>>,
}

fn failure() -> std::io::Error {
    std::io::Error::other("no more")
}

impl SegmentFile for DiskFile {
    fn len(&self) -> Result<u64, std::io::Error> {
        Ok(self.bytes.lock().unwrap().len() as u64)
    }

    fn read_at(&self, buf: &mut [u8], offset: u64) -> Result<(), std::io::Error> {
        let bytes = self.bytes.lock().unwrap();
        let start = offset as usize;
        if start + buf.len() > bytes.len() {
            return Err(failure());
        }
        buf.copy_from_slice(&bytes[start..start + buf.len()]);
        Ok(())
    }

    fn write_at(&mut self, data: &[u8], offset: u64) -> Result<(), std::io::Error> {
        let mut device = self.device.lock().unwrap();
        device.writes += 1;
        let fails = device.writes_left == Some(0);
        let data = if fails { &data[..device.lands.min(data.len())] } else { data };
        if let Some(n) = device.writes_left.as_mut() {
            *n = n.saturating_sub(1);
        }
        let mut bytes = self.bytes.lock().unwrap();
        let start = offset as usize;
        if bytes.len() < start + data.len() {
            bytes.resize(start + data.len(), 0);
        }
        bytes[start..start + data.len()].copy_from_slice(data);
        if fails {
            return Err(failure());
        }
        Ok(())
    }

    fn sync(&mut self) -> Result<(), std::io::Error> {
        self.device.lock().unwrap().flushes += 1;
        Ok(())
    }
}

impl IoBackend for Disk {
    type SegmentFile = DiskFile;

    fn open(&mut self, path: &str) -> Result<DiskFile, std::io::Error> {
        let bytes = self.files.lock().unwrap().entry(path.to_string()).or_default().clone();
        Ok(DiskFile { bytes, device: self.device.clone() })
    }

    fn replace(&mut self, file: DiskFile, from: &str, to: &str) -> Result<DiskFile, std::io::Error> {
        let mut files = self.files.lock().unwrap();
        let bytes = files.remove(from).unwrap();
        files.insert(to.to_string(), bytes);
        Ok(file)
    }
}

impl Disk {
    fn names(&self) -> Vec<String> {
        let files = self.files.lock().unwrap();
        files.keys().map(|p| p.strip_prefix("data/").unwrap().to_string()).collect()
    }

    fn bytes(&self, name: &str) -> Bytes {
        self.files.lock().unwrap()[&format!("data/{name}")].clone()
    }

    fn open_store(&self) -> BlockStore<Disk> {
        BlockStore::open(self.clone(), "data", &self.names()).unwrap()
    }

    fn open_store_with_roll(&self, roll: u64) -> BlockStore<Disk> {
        BlockStore::open_with_roll(self.clone(), "data/", &self.names(), roll).unwrap()
    }
}

#[test]
fn put_get_roundtrip() {
    let disk = Disk::default();
    let mut store = disk.open_store();
    let id = store.put(b"hello kalpak").unwrap();
    assert_eq!(store.get(&id).unwrap(), b"hello kalpak");
}

#[test]
fn put_is_idempotent_dedup() {
    let disk = Disk::default();
    let mut store = disk.open_store();
    let a = store.put(b"same bytes").unwrap();
    let before = store.stats().bytes_on_disk;
    let b = store.put(b"same bytes").unwrap();
    assert_eq!(a, b);
    assert_eq!(store.stats().bytes_on_disk, before);
    assert_eq!(store.stats().blocks, 1);
}

#[test]
fn missing_block_errors() {
    let disk = Disk::default();
    let store = disk.open_store();
    let id = BlockId::of(b"never stored");
    assert!(matches!(store.get(&id), Err(Error::BlockNotFound(_))));
}

#[test]
fn index_rebuilds_on_reopen() {
    let disk = Disk::default();
    let (a, b);
    {
        let mut store = disk.open_store();
        a = store.put(b"first").unwrap();
        b = store.put(vec![0xAB; 10_000].as_slice()).unwrap();
    }
    let store = disk.open_store();
    assert_eq!(store.get(&a).unwrap(), b"first");
    assert_eq!(store.get(&b).unwrap(), vec![0xAB; 10_000]);
    assert_eq!(store.stats().blocks, 2);
}

#[test]
fn torn_tail_write_is_ignored_on_reopen() {
    let disk = Disk::default();
    let id;
    {
        let mut store = disk.open_store();
        id = store.put(b"durable").unwrap();
    }
    // Simulate a crash mid-append: a header with no payload behind it.
    let fake = encode_record(&BlockId::of(b"lost"), &[1u8; 8000]);
    disk.bytes("seg-00000000.klpk")
        .lock()
        .unwrap()
        .extend_from_slice(&fake[..HEADER_LEN + 10]);

    let mut store = disk.open_store();
    assert_eq!(store.get(&id).unwrap(), b"durable");
    assert_eq!(store.stats().blocks, 1);
    // And the store can keep appending over the torn region.
    let id2 = store.put(b"after recovery").unwrap();
    assert_eq!(store.get(&id2).unwrap(), b"after recovery");
}

#[test]
fn corruption_detected_on_read() {
    let disk = Disk::default();
    let id;
    {
        let mut store = disk.open_store();
        id = store.put(b"pristine payload").unwrap();
    }
    disk.bytes("seg-00000000.klpk").lock().unwrap()[HEADER_LEN] ^= 0xFF; // flip a payload bit

    let store = disk.open_store();
    assert!(matches!(store.get(&id), Err(Error::Corrupt { .. })));
    let report = store.verify_all();
    assert!(!report.is_clean());
    assert_eq!(report.corrupt, vec![id]);
    assert_eq!(report.blocks_checked, 1);
}

#[test]
fn many_blocks_roundtrip() {
    let disk = Disk::default();
    let mut store = disk.open_store();
    let ids: Vec<_> = (0..200u32)
        .map(|i| {
            let payload = vec![i as u8; (i as usize % 9000) + 1];
            (store.put(&payload).unwrap(), payload)
        })
        .collect();
    for (id, payload) in ids {
        assert_eq!(store.get(&id).unwrap(), payload);
    }
}

#[test]
fn works_with_explicit_backend() {
    let mut store = BlockStore::open_with(MemoryBackend::new(), "data", &vec![]).unwrap();
    let id = store.put(b"backend generic").unwrap();
    assert_eq!(store.get(&id).unwrap(), b"backend generic");
}

#[test]
fn put_many_single_sync_roundtrip() {
    let disk = Disk::default();
    let mut store = disk.open_store();
    let payloads: Vec<Vec<u8>> = (0..50u8).map(|i| vec![i; 3000]).collect();
    let refs: Vec<&[u8]> = payloads.iter().map(|p| p.as_slice()).collect();
    let ids = store.put_many(&refs).unwrap();
    assert_eq!(ids.len(), 50);
    for (id, payload) in ids.iter().zip(&payloads) {
        assert_eq!(&store.get(id).unwrap(), payload);
    }
    assert_eq!(store.stats().blocks, 50);
}

#[test]
fn put_many_dedups_within_batch_and_against_store() {
    let disk = Disk::default();
    let mut store = disk.open_store();
    store.put(b"already there").unwrap();
    let before = store.stats().bytes_on_disk;
    let ids = store
        .put_many(&[
            b"already there".as_slice(),
            b"new".as_slice(),
            b"new".as_slice(),
        ])
        .unwrap();
    assert_eq!(ids[1], ids[2]);
    assert_eq!(store.stats().blocks, 2);
    // Only "new" was written once.
    assert_eq!(store.stats().bytes_on_disk, before + 4096);
}

#[test]
fn put_many_survives_reopen() {
    let disk = Disk::default();
    let ids;
    {
        let mut store = disk.open_store();
        ids = store
            .put_many(&[b"alpha".as_slice(), b"beta".as_slice()])
            .unwrap();
    }
    let store = disk.open_store();
    assert_eq!(store.get(&ids[0]).unwrap(), b"alpha");
    assert_eq!(store.get(&ids[1]).unwrap(), b"beta");
}

#[test]
fn compact_drops_dead_blocks_and_reclaims_space() {
    let disk = Disk::default();
    // Tiny roll so multiple segments seal quickly: each 4 KiB-aligned
    // record fills a 10 KiB segment after two writes.
    let mut store = disk.open_store_with_roll(10 * 1024);
    let ids: Vec<_> = (0..10u8).map(|i| store.put(&[i; 3000]).unwrap()).collect();
    let before = store.stats();
    assert!(before.segments > 2, "test needs several sealed segments");
    assert_eq!(before.segments, 5);

    // Keep even-indexed blocks only.
    let live: HashSet<_> = ids.iter().step_by(2).copied().collect();
    let stats = store.compact(|id: &BlockId| live.contains(id)).unwrap();
    assert!(stats.segments_rewritten > 0);
    assert!(stats.bytes_reclaimed > 0);
    assert_eq!(stats.segments_rewritten, 4);
    assert_eq!(stats.blocks_dropped, 4);
    assert_eq!(stats.bytes_reclaimed, 4 * 4096);

    for (i, id) in ids.iter().enumerate() {
        if i % 2 == 0 {
            assert_eq!(store.get(id).unwrap(), vec![i as u8; 3000]);
        } else if store.contains(id) {
            // Dead blocks may survive only in the active segment.
            assert_eq!(i, 9);
        }
    }
    assert!(store.stats().bytes_on_disk < before.bytes_on_disk);
    assert_eq!(store.stats().bytes_on_disk, 6 * 4096);
}

#[test]
fn compact_survives_reopen() {
    let disk = Disk::default();
    let ids: Vec<_>;
    {
        let mut store = disk.open_store_with_roll(10 * 1024);
        ids = (0..10u8).map(|i| store.put(&[i; 3000]).unwrap()).collect();
        let live: HashSet<_> = ids.iter().step_by(2).copied().collect();
        store.compact(|id: &BlockId| live.contains(id)).unwrap();
    }
    // The rewritten segments must replay cleanly.
    let store = disk.open_store();
    for (i, id) in ids.iter().enumerate().step_by(2) {
        assert_eq!(store.get(id).unwrap(), vec![i as u8; 3000]);
    }
    assert_eq!(store.stats().blocks, 6);
}

#[test]
fn compact_never_touches_the_active_segment() {
    let disk = Disk::default();
    let mut store = disk.open_store_with_roll(1 << 20);
    // Everything fits in the single active segment.
    let id = store.put(b"unbound but recent").unwrap();
    let stats = store.compact(|_: &BlockId| false).unwrap();
    assert_eq!(stats.segments_rewritten, 0);
    assert_eq!(store.get(&id).unwrap(), b"unbound but recent");
}

#[test]
fn compact_refuses_to_copy_a_damaged_live_block() {
    let disk = Disk::default();
    let mut store = disk.open_store_with_roll(10 * 1024);
    let ids: Vec<_> = (0..4u8).map(|i| store.put(&[i; 3000]).unwrap()).collect();
    disk.bytes("seg-00000000.klpk").lock().unwrap()[HEADER_LEN] ^= 0xFF;
    match store.compact(|id: &BlockId| *id == ids[0]) {
        Err(Error::Corrupt { id }) => assert_eq!(id, ids[0]),
        other => panic!("{other:?}"),
    }
    // Nothing has left the index.
    assert!(ids.iter().all(|id| store.contains(id)));
    assert_eq!(store.get(&ids[1]).unwrap(), vec![1; 3000]);
}

#[test]
fn a_failed_write_publishes_nothing() {
    let disk = Disk::default();
    let mut store = disk.open_store();
    let old = store.put(b"old").unwrap();
    disk.device.lock().unwrap().writes_left = Some(1);
    let r = store.put_many(&[b"one".as_slice(), b"two".as_slice()]);
    assert!(matches!(r, Err(Error::Io(_))));
    assert!(!store.contains(&BlockId::of(b"one")));
    assert!(!store.contains(&BlockId::of(b"two")));
    assert_eq!(store.get(&old).unwrap(), b"old");
    // The store goes on behind the records that were not published.
    disk.device.lock().unwrap().writes_left = None;
    let two = store.put(b"two").unwrap();
    assert_eq!(store.get(&two).unwrap(), b"two");
}

#[test]
fn segments_roll_where_the_next_record_would_not_fit() {
    let disk = Disk::default();
    let mut store = disk.open_store_with_roll(8192);
    store.put(&[1; 100]).unwrap();
    store.put(&[2; 100]).unwrap();
    assert_eq!(store.stats().segments, 1);
    assert_eq!(store.stats().bytes_on_disk, 8192);
    store.put(&[3; 100]).unwrap();
    assert_eq!(store.stats().segments, 2);
    // A record longer than the roll size still goes to an empty segment.
    store.put(&[4; 20_000]).unwrap();
    assert_eq!(store.stats().segments, 3);
    assert_eq!(store.stats().bytes_on_disk, 8192 + 4096 + 20_480);
    let mut names = disk.names();
    names.sort();
    assert_eq!(
        names,
        ["seg-00000000.klpk", "seg-00000001.klpk", "seg-00000002.klpk"]
    );
}

#[test]
fn record_format_is_stable() {
    let id = BlockId([9; 32]);
    let record = encode_record(&id, b"payload");
    assert_eq!(record.len(), 4096);
    assert_eq!(&record[0..4], b"KLPK");
    assert_eq!(&record[4..8], &[1, 0, 0, 0]);
    assert_eq!(&record[8..16], &[7, 0, 0, 0, 0, 0, 0, 0]);
    assert_eq!(&record[16..48], &[9; 32]);
    assert_eq!(&record[48..64], &[0; 16]);
    assert_eq!(&record[64..71], b"payload");
    assert!(record[71..].iter().all(|b| *b == 0));

    assert_eq!(record_len(0), 4096);
    assert_eq!(record_len(4032), 4096);
    assert_eq!(record_len(4033), 8192);

    let mut header = [0u8; 64];
    header.copy_from_slice(&record[..64]);
    let parsed = parse_header(&header).unwrap();
    assert_eq!(parsed.id, id);
    assert_eq!(parsed.payload_len, 7);
    header[0] = b'X';
    assert!(parse_header(&header).is_none());
    header[0] = b'K';
    header[4] = 2;
    assert!(parse_header(&header).is_none());
    assert!(parse_header(&[0; 64]).is_none());
}

#[test]
fn a_scan_lists_records_up_to_the_first_that_is_not_whole() {
    let mut bytes = encode_record(&BlockId([1; 32]), b"a");
    bytes.extend_from_slice(&encode_record(&BlockId([2; 32]), &[7; 5000]));
    let whole = bytes.len();
    bytes.extend_from_slice(&encode_record(&BlockId([3; 32]), &[7; 5000])[..8191]);
    let file = DiskFile {
        bytes: Arc::new(Mutex::new(bytes)),
        device: Arc::default(),
    };
    let (found, end) = scan(&file, 3).unwrap();
    assert_eq!(end as usize, whole);
    assert_eq!(found.len(), 2);
    assert_eq!(found[0].0, BlockId([1; 32]));
    assert_eq!((found[0].1.segment, found[0].1.offset, found[0].1.payload_len), (3, 0, 1));
    assert_eq!(found[1].0, BlockId([2; 32]));
    assert_eq!((found[1].1.segment, found[1].1.offset, found[1].1.payload_len), (3, 4096, 5000));

    // A length that no file can have is a torn record, not an overflow.
    let mut absurd = encode_record(&BlockId([4; 32]), b"");
    absurd[8..16].copy_from_slice(&[0xff; 8]);
    let file = DiskFile {
        bytes: Arc::new(Mutex::new(absurd)),
        device: Arc::default(),
    };
    let (found, end) = scan(&file, 0).unwrap();
    assert!(found.is_empty());
    assert_eq!(end, 0);
}

/// A small generator of test data, the same on every run.
struct Numbers(u64);

impl Numbers {
    fn next(&mut self) -> u64 {
        self.0 ^= self.0 << 13;
        self.0 ^= self.0 >> 7;
        self.0 ^= self.0 << 17;
        self.0
    }

    fn below(&mut self, n: u64) -> u64 {
        self.next() % n
    }

    fn payload(&mut self) -> Vec<u8> {
        let n = 1 + self.below(6000);
        (0..n).map(|_| self.next() as u8).collect()
    }
}

#[test]
fn store_agrees_with_model() {
    for seed in 1..=64u64 {
        let mut rng = Numbers(seed * 0x9E37_79B9_7F4A_7C15);
        let disk = Disk::default();
        let mut store = disk.open_store_with_roll(16 * 1024);
        let mut model: HashMap<BlockId, Vec<u8>> = HashMap::new();
        let mut order: Vec<BlockId> = Vec::new();
        let mut swept: Vec<BlockId> = Vec::new();

        for _ in 0..1 + rng.below(39) {
            match rng.below(12) {
                0..=3 => {
                    let p = rng.payload();
                    let id = store.put(&p).unwrap();
                    assert_eq!(id, BlockId::of(&p), "content addressing");
                    if model.insert(id, p).is_none() {
                        order.push(id);
                    }
                    swept.retain(|s| *s != id); // re-put resurrects
                }
                4..=5 => {
                    let ps: Vec<Vec<u8>> = (0..1 + rng.below(4)).map(|_| rng.payload()).collect();
                    let refs: Vec<&[u8]> = ps.iter().map(|p| p.as_slice()).collect();
                    let ids = store.put_many(&refs).unwrap();
                    assert_eq!(ids.len(), ps.len());
                    for (id, p) in ids.into_iter().zip(ps) {
                        if model.insert(id, p).is_none() {
                            order.push(id);
                        }
                        swept.retain(|s| *s != id);
                    }
                }
                6..=9 => {
                    if order.is_empty() {
                        continue;
                    }
                    let id = order[rng.below(order.len() as u64) as usize];
                    match store.get(&id) {
                        Ok(bytes) => assert_eq!(&bytes, model.get(&id).unwrap()),
                        Err(Error::BlockNotFound(_)) => {
                            assert!(swept.contains(&id), "live block went missing: {id:?}")
                        }
                        Err(e) => panic!("unexpected error for {id:?}: {e:?}"),
                    }
                }
                10 => {
                    drop(store);
                    store = disk.open_store_with_roll(16 * 1024);
                }
                _ => {
                    let mode = rng.below(3);
                    let keep: Vec<BlockId> = order
                        .iter()
                        .enumerate()
                        .filter(|(i, _)| match mode {
                            0 => i % 2 == 0,
                            1 => i % 2 == 1,
                            _ => true,
                        })
                        .map(|(_, id)| *id)
                        .filter(|id| !swept.contains(id))
                        .collect();
                    store.compact(|id: &BlockId| keep.contains(id)).unwrap();
                    for id in &order {
                        if !keep.contains(id) && !swept.contains(id) {
                            swept.push(*id);
                        }
                    }
                    for id in &keep {
                        assert_eq!(
                            &store.get(id).unwrap(),
                            model.get(id).unwrap(),
                            "compaction lost a live block"
                        );
                    }
                }
            }
        }

        drop(store);
        let store = disk.open_store_with_roll(16 * 1024);
        let report = store.verify_all();
        assert!(report.is_clean(), "fsck after sequence: {report:?}");
        for id in &order {
            if !swept.contains(id) {
                assert_eq!(&store.get(id).unwrap(), model.get(id).unwrap());
            }
        }
    }
}

#[test]
fn arbitrary_segment_bytes_never_panic() {
    for seed in 1..=64u64 {
        let mut rng = Numbers(seed * 0x9E37_79B9_7F4A_7C15);
        let n = rng.below(32_768);
        let mut bytes: Vec<u8> = (0..n).map(|_| rng.next() as u8).collect();
        if seed % 2 == 0 && bytes.len() >= 8 {
            // Half of them start like a record.
            bytes[..8].copy_from_slice(&[0x4b, 0x4c, 0x50, 0x4b, 1, 0, 0, 0]);
        }
        let disk = Disk::default();
        disk.files
            .lock()
            .unwrap()
            .insert("data/seg-00000000.klpk".to_string(), Arc::new(Mutex::new(bytes)));
        let mut store = disk.open_store();
        let _ = store.verify_all();
        let id = store.put(b"after garbage").unwrap();
        assert_eq!(store.get(&id).unwrap(), b"after garbage".to_vec());
    }
}

#[test]
fn a_batch_is_flushed_once() {
    let disk = Disk::default();
    let mut store = disk.open_store();
    let counts = || {
        let device = disk.device.lock().unwrap();
        (device.writes, device.flushes)
    };
    store.put_many(&[b"a", b"b", b"a", b"c"]).unwrap();
    assert_eq!(counts(), (3, 1));
    // Nothing new, nothing written, nothing flushed.
    store.put_many(&[b"c", b"a"]).unwrap();
    store.put_many(&[]).unwrap();
    assert_eq!(counts(), (3, 1));
    store.put(b"d").unwrap();
    assert_eq!(counts(), (4, 2));
}

#[test]
fn acknowledged_blocks_survive_a_torn_write() {
    // Nothing, part of the header, the header, part of the payload, and all but
    // the last byte land of the write that fails.
    for lands in [0, 17, 64, 3000, 8191] {
        let disk = Disk::default();
        let mut store = disk.open_store();
        let old = store.put(b"old").unwrap();
        {
            let mut device = disk.device.lock().unwrap();
            device.writes_left = Some(1);
            device.lands = lands;
        }
        let big = [9u8; 5000];
        assert!(matches!(store.put_many(&[b"whole", &big]), Err(Error::Io(_))));
        disk.device.lock().unwrap().writes_left = None;
        // The next record goes where the torn one was, not behind it.
        let next = store.put(b"next").unwrap();
        assert_eq!(store.stats().bytes_on_disk, 3 * 4096);
        drop(store);

        let again = disk.open_store();
        assert_eq!(again.get(&old).unwrap(), b"old");
        assert_eq!(again.get(&next).unwrap(), b"next");
        // The whole record of the batch that failed has come back with them.
        assert_eq!(again.get(&BlockId::of(b"whole")).unwrap(), b"whole");
        assert!(!again.contains(&BlockId::of(&big)));
        assert!(again.verify_all().is_clean());
    }
}

#[test]
fn acknowledged_blocks_survive_crash_after_crash() {
    let disk = Disk::default();
    let mut acked: Vec<(BlockId, Vec<u8>)> = Vec::new();
    for round in 0..4u8 {
        let mut store = disk.open_store_with_roll(64 * 1024);
        assert!(store.verify_all().is_clean());
        for (id, payload) in &acked {
            assert_eq!(store.get(id).unwrap(), *payload);
        }
        for i in 0..5u8 {
            let payload = vec![round * 16 + i; 6000];
            acked.push((store.put(&payload).unwrap(), payload));
        }
        // The record that is being written when the end comes is torn.
        {
            let mut device = disk.device.lock().unwrap();
            device.writes_left = Some(0);
            device.lands = 5000 + round as usize;
        }
        assert!(store.put(&[200 + round; 7000]).is_err());
        drop(store);
        disk.device.lock().unwrap().writes_left = None;
    }
    let store = disk.open_store();
    assert_eq!(store.stats().blocks, 20);
    assert!(store.segment_count() > 1);
    assert!(store.verify_all().is_clean());
    for (id, payload) in &acked {
        assert_eq!(store.get(id).unwrap(), *payload);
    }
}

#[test]
fn a_block_stored_again_after_a_failure_is_there_once() {
    let disk = Disk::default();
    let mut store = disk.open_store();
    disk.device.lock().unwrap().writes_left = Some(1);
    assert!(store.put_many(&[b"one", b"two"]).is_err());
    disk.device.lock().unwrap().writes_left = None;
    let ids = store.put_many(&[b"one", b"two"]).unwrap();
    drop(store);
    // The file holds two records of the first block.
    let again = disk.open_store();
    let stats = again.stats();
    assert_eq!((stats.blocks, stats.bytes_on_disk), (2, 3 * 4096));
    assert_eq!(again.get(&ids[0]).unwrap(), b"one");
    assert_eq!(again.get(&ids[1]).unwrap(), b"two");
    assert!(again.verify_all().is_clean());
}

#[test]
fn a_crash_in_the_middle_of_a_batch_leaves_intact_blocks() {
    let (old, batch) = (b"old".as_slice(), [vec![1u8; 100], vec![2u8; 9000], vec![3u8; 50]]);
    let views: Vec<&[u8]> = batch.iter().map(|p| p.as_slice()).collect();
    // The batch takes one, three and one units behind the first record.
    for (landed, blocks) in
        [(4096, 1), (8191, 1), (8192, 2), (20479, 2), (20480, 3), (24575, 3), (24576, 4)]
    {
        let disk = Disk::default();
        let mut store = disk.open_store();
        let id = store.put(old).unwrap();
        store.put_many(&views).unwrap();
        drop(store);
        disk.bytes("seg-00000000.klpk").lock().unwrap().truncate(landed);
        let again = disk.open_store();
        assert_eq!(again.get(&id).unwrap(), old);
        assert_eq!(again.stats().blocks, blocks);
        assert!(again.verify_all().is_clean());
    }
}

#[test]
fn a_batch_leaves_what_single_puts_leave() {
    let payloads: Vec<Vec<u8>> = (0..9u8).map(|i| vec![i % 7; 2500]).collect();
    let views: Vec<&[u8]> = payloads.iter().map(|p| p.as_slice()).collect();
    let (one, many) = (Disk::default(), Disk::default());
    let mut batch = one.open_store_with_roll(10 * 1024);
    let mut single = many.open_store_with_roll(10 * 1024);
    let ids = batch.put_many(&views).unwrap();
    let single_ids: Vec<BlockId> = views.iter().map(|p| single.put(p).unwrap()).collect();
    assert_eq!(ids, single_ids);
    assert_eq!(batch.stats(), single.stats());
    let mut names = one.names();
    names.sort();
    assert_eq!(names.len(), 4);
    for name in names {
        assert_eq!(*one.bytes(&name).lock().unwrap(), *many.bytes(&name).lock().unwrap());
    }
}

#[test]
fn a_record_larger_than_the_roll_size_has_a_segment_of_its_own() {
    let mut store = Disk::default().open_store_with_roll(1);
    store.put(b"a").unwrap();
    store.put(b"b").unwrap();
    let stats = store.stats();
    assert_eq!((stats.blocks, stats.segments, stats.bytes_on_disk), (2, 2, 8192));
    assert_eq!(store.segment_count(), 2);
    assert!(store.lengths_add_up());
}

#[test]
fn what_is_reclaimed_leaves_the_disk() {
    let disk = Disk::default();
    let mut store = disk.open_store_with_roll(10 * 1024);
    let ids: Vec<_> = (0..8u8).map(|i| store.put(&[i; 3000]).unwrap()).collect();
    for keep in [vec![0, 1, 2, 5], vec![0, 5], vec![5]] {
        let before = store.stats();
        let done = store.compact(|id: &BlockId| keep.iter().any(|k: &usize| ids[*k] == *id)).unwrap();
        let after = store.stats();
        assert_eq!(before.bytes_on_disk - after.bytes_on_disk, done.bytes_reclaimed);
        assert_eq!(before.blocks - after.blocks, done.blocks_dropped);
        assert_eq!(before.segments, after.segments);
        assert_eq!(done.segments_rewritten == 0, done.blocks_dropped == 0);
        assert!(done.segments_rewritten < before.segments);
    }
}

#[test]
fn a_damaged_block_stops_the_sweep_at_its_segment() {
    let disk = Disk::default();
    let mut store = disk.open_store_with_roll(10 * 1024);
    let ids: Vec<_> = (0..8u8).map(|i| store.put(&[i; 3000]).unwrap()).collect();
    // The third block is the first of the second segment.
    disk.bytes("seg-00000001.klpk").lock().unwrap()[HEADER_LEN] ^= 0xFF;
    let live: HashSet<_> = ids.iter().step_by(2).copied().collect();
    match store.compact(|id: &BlockId| live.contains(id)) {
        Err(Error::Corrupt { id }) => assert_eq!(id, ids[2]),
        other => panic!("{other:?}"),
    }
    // The first segment was swept; the second and the third were not.
    let there: Vec<bool> = ids.iter().map(|id| store.contains(id)).collect();
    assert_eq!(there, [true, false, true, true, true, true, true, true]);
}
