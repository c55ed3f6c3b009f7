use std::collections::HashMap;
use std::sync::{Arc, Mutex};

use kalpakdb::block::BlockId;
use kalpakdb::error::Error;
use kalpakdb::io::{IoBackend, SegmentFile};
use kalpakdb::store::BlockStore;
use kalpakdb::tiered::TieredStore;

type Bytes = Arc<Mutex<Vec<u8>>>;

/// A disk that outlives the stores on it.
#[derive(Clone, Default)]
struct Disk {
    files: Arc<Mutex<HashMap<String, Bytes>>>,
}

struct DiskFile(Bytes);

impl SegmentFile for DiskFile {
    fn len(&self) -> Result<u64, std::io::Error> {
        Ok(self.0.lock().unwrap().len() as u64)
    }

    fn read_at(&self, buf: &mut [u8], offset: u64) -> Result<(), std::io::Error> {
        let bytes = self.0.lock().unwrap();
        let start = offset as usize;
        if start + buf.len() > bytes.len() {
            return Err(std::io::Error::other("out of range"));
        }
        buf.copy_from_slice(&bytes[start..start + buf.len()]);
        Ok(())
    }

    fn write_at(&mut self, data: &[u8], offset: u64) -> Result<(), std::io::Error> {
        let mut bytes = self.0.lock().unwrap();
        let start = offset as usize;
        if bytes.len() < start + data.len() {
            bytes.resize(start + data.len(), 0);
        }
        bytes[start..start + data.len()].copy_from_slice(data);
        Ok(())
    }

    fn sync(&mut self) -> Result<(), std::io::Error> {
        Ok(())
    }
}

impl IoBackend for Disk {
    type SegmentFile = DiskFile;

    fn open(&mut self, path: &str) -> Result<DiskFile, std::io::Error> {
        let bytes = self.files.lock().unwrap().entry(path.to_string()).or_default().clone();
        Ok(DiskFile(bytes))
    }

    fn replace(&mut self, file: DiskFile, from: &str, to: &str) -> Result<DiskFile, std::io::Error> {
        let mut files = self.files.lock().unwrap();
        let bytes = files.remove(from).unwrap();
        files.insert(to.to_string(), bytes);
        Ok(file)
    }
}

impl Disk {
    fn names(&self) -> Vec<String> {
        let files = self.files.lock().unwrap();
        files.keys().map(|p| p.strip_prefix("data/").unwrap().to_string()).collect()
    }

    fn tiered(&self, budget: u64) -> TieredStore<Disk> {
        TieredStore::open(self.clone(), "data", &self.names(), budget).unwrap()
    }
}

#[test]
fn write_through_then_serve_from_warm() {
    let disk = Disk::default();
    let mut store = disk.tiered(1 << 20);
    let id = store.put(b"hot block").unwrap();

    // Nuke the cold store's segment behind the tier's back: a warm hit must not
    // touch the disk at all.
    for file in disk.files.lock().unwrap().values() {
        *file.lock().unwrap() = b"garbage".to_vec();
    }
    assert_eq!(store.get(&id).unwrap().as_slice(), b"hot block");
    let s = store.tier_stats();
    assert_eq!((s.hits, s.misses), (1, 0));
}

#[test]
fn a_block_is_warm_right_after_it_was_stored() {
    // The budget holds one payload, so the policy is at work all the time.
    let mut store = Disk::default().tiered(100);
    for n in 0..1000u64 {
        let mut payload = vec![0u8; 60];
        payload[..8].copy_from_slice(&n.to_le_bytes());
        let id = store.put(&payload).unwrap();
        assert_eq!(store.get(&id).unwrap().as_slice(), payload.as_slice());
        // Once more: the entry is replaced, and still there.
        assert_eq!(store.put(&payload).unwrap(), id);
        assert_eq!(store.get(&id).unwrap().as_slice(), payload.as_slice());
    }
    let s = store.tier_stats();
    assert_eq!((s.hits, s.misses), (2000, 0));

    let mut cold = Disk::default().tiered(0);
    let id = cold.put(b"").unwrap();
    assert_eq!(cold.get(&id).unwrap().as_slice(), b"");
    assert_eq!((cold.tier_stats().hits, cold.tier_stats().misses), (0, 1));
}

#[test]
fn cold_hit_promotes_to_warm() {
    let disk = Disk::default();
    let id;
    {
        let mut plain = BlockStore::open(disk.clone(), "data", &disk.names()).unwrap();
        id = plain.put(b"written cold").unwrap();
    }
    let mut store = disk.tiered(1 << 20);
    assert_eq!(store.get(&id).unwrap().as_slice(), b"written cold");
    assert_eq!(store.tier_stats().misses, 1);
    assert_eq!(store.get(&id).unwrap().as_slice(), b"written cold");
    assert_eq!(store.tier_stats().hits, 1);
}

#[test]
fn eviction_respects_byte_budget() {
    let disk = Disk::default();
    // Budget fits two 1000-byte blocks, not three.
    let mut store = disk.tiered(2500);
    let ids: Vec<BlockId> = (1u8..=3).map(|i| store.put(&[i; 1000]).unwrap()).collect();

    let s = store.tier_stats();
    assert!(s.warm_bytes <= s.warm_budget, "warm tier exceeded its budget: {s:?}");
    assert!(s.warm_blocks < 3, "all three blocks cannot fit the budget");

    // Every block stays readable regardless of which was evicted.
    for (i, id) in ids.iter().enumerate() {
        assert_eq!(store.get(id).unwrap().as_slice(), &[i as u8 + 1; 1000]);
    }
}

#[test]
fn oversized_block_bypasses_warm_but_is_durable() {
    let disk = Disk::default();
    let mut store = disk.tiered(100);
    let id = store.put(&[7u8; 5000]).unwrap();
    assert_eq!(store.tier_stats().warm_blocks, 0);
    assert_eq!(store.get(&id).unwrap().len(), 5000);
    assert_eq!((store.tier_stats().hits, store.tier_stats().misses), (0, 1));
}

#[test]
fn many_readers_and_batches_keep_to_the_budget() {
    let disk = Disk::default();
    let mut store = disk.tiered(1 << 20);
    let seed: Vec<BlockId> = (0..50u8).map(|i| store.put(&[i; 2000]).unwrap()).collect();
    for round in 0..40u64 {
        let payloads: Vec<Vec<u8>> =
            (0..8u64).map(|i| (round * 100 + i).to_le_bytes().repeat(300)).collect();
        let batch: Vec<&[u8]> = payloads.iter().map(|p| p.as_slice()).collect();
        let ids = store.put_many(&batch).unwrap();
        assert_eq!(ids.len(), 8);
        assert_eq!(ids[3], BlockId::of(&payloads[3]));
        for t in 0..4usize {
            assert!(store.get(&seed[(t * 7 + round as usize) % seed.len()]).is_ok());
        }
    }
    let s = store.tier_stats();
    assert!(s.warm_bytes <= s.warm_budget);
    assert_eq!(s.hits + s.misses, 160);
}

#[test]
fn a_pinned_block_outlives_a_flood() {
    let disk = Disk::default();
    let mut store = disk.tiered(40_000);
    let id = store.put(&[1u8; 4000]).unwrap();
    assert!(store.pin(&id).unwrap());
    assert!(store.pin(&id).unwrap(), "pinning again changes nothing");
    for i in 0..200u32 {
        store.put(&i.to_le_bytes().repeat(1000)).unwrap();
    }
    for file in disk.files.lock().unwrap().values() {
        file.lock().unwrap().clear();
    }
    assert_eq!(store.get(&id).unwrap().as_slice(), &[1u8; 4000]);
    let s = store.tier_stats();
    assert_eq!((s.pinned_blocks, s.pinned_bytes, s.pinned_budget), (1, 4000, 10_000));
    assert_eq!(s.hits, 1);
}

#[test]
fn the_pinned_tier_keeps_to_its_quarter() {
    let disk = Disk::default();
    let mut store = disk.tiered(10_000);
    let a = store.put(&[1u8; 2000]).unwrap();
    let b = store.put(&[2u8; 501]).unwrap();
    let c = store.put(&[3u8; 500]).unwrap();
    assert!(store.pin(&a).unwrap());
    assert!(!store.pin(&b).unwrap(), "one byte too many");
    assert!(store.pin(&c).unwrap());
    assert_eq!(store.tier_stats().pinned_bytes, 2500);
}

#[test]
fn pinning_a_block_that_is_not_there_fails() {
    let disk = Disk::default();
    let mut store = disk.tiered(10_000);
    let id = BlockId::of(b"never stored");
    assert!(matches!(store.pin(&id), Err(Error::BlockNotFound(missing)) if missing == id));
    assert!(matches!(store.get(&id), Err(Error::BlockNotFound(missing)) if missing == id));
    assert!(!store.contains(&id));
}

#[test]
fn compaction_forgets_dropped_blocks_in_every_tier() {
    let disk = Disk::default();
    let cold = BlockStore::open_with_roll(disk.clone(), "data", &disk.names(), 8192).unwrap();
    let mut store = TieredStore::new(cold, 1 << 20);
    let dead = store.put(&[1u8; 5000]).unwrap();
    let live = store.put(&[2u8; 5000]).unwrap();
    let last = store.put(&[3u8; 5000]).unwrap();
    assert!(store.pin(&dead).unwrap());
    assert!(store.pin(&live).unwrap());

    let stats = store.compact(|id| *id == live).unwrap();
    assert_eq!(stats.blocks_dropped, 1);
    assert!(matches!(store.get(&dead), Err(Error::BlockNotFound(_))));
    assert_eq!(store.get(&live).unwrap().as_slice(), &[2u8; 5000]);
    assert_eq!(store.get(&last).unwrap().as_slice(), &[3u8; 5000]);
    assert_eq!(store.tier_stats().pinned_blocks, 1);
    assert_eq!(store.cold().stats().blocks, 2);
}
