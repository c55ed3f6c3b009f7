use kalpakdb::block::BlockId;
use kalpakdb::cache_key::{CacheKey, ModelFingerprint};
use kalpakdb::lines::{end_line, line_ranges};
use kalpakdb::manifest::{Binding, LogLine, PrefixManifest};

fn fp() -> ModelFingerprint {
    ModelFingerprint::new("test/model", "tok-abc", "fp16/paged-16")
}

/// A log of lines "key tokens=block names", for want of JSON.
#[derive(Default)]
struct Log {
    bytes: Vec<u8>,
}

fn read_line(line: &[u8]) -> Option<Binding> {
    let text = std::str::from_utf8(line).ok()?.trim_end();
    let (tokens, blocks) = text.split_once('=')?;
    let tokens: Vec<u32> = tokens.split(',').map(|t| t.parse().ok()).collect::<Option<_>>()?;
    let blocks = blocks.strip_suffix('.')?;
    Some(Binding {
        key: CacheKey::root(fp(), &tokens),
        blocks: blocks.split(',').map(|b| BlockId::of(b.as_bytes())).collect(),
    })
}

impl Log {
    fn open(&mut self) -> PrefixManifest {
        let lines = line_ranges(&self.bytes)
            .into_iter()
            .map(|(start, end)| LogLine {
                len: (end - start) as u64,
                binding: read_line(&self.bytes[start..end]),
            })
            .collect();
        let (m, end) = PrefixManifest::replay(lines);
        self.bytes.truncate(end as usize);
        m
    }

    fn bind(&mut self, m: &mut PrefixManifest, line: &str) {
        self.bytes.extend(end_line(line.as_bytes()));
        let b = read_line(line.as_bytes()).unwrap();
        m.bind(b.key, b.blocks);
    }
}

#[test]
fn bind_lookup_roundtrip() {
    let mut m = PrefixManifest::new();
    assert!(m.is_empty());
    let key = CacheKey::root(fp(), &[1, 2, 3]);
    let blocks = vec![BlockId::of(b"kv-chunk-0")];
    m.bind(key.clone(), blocks.clone());
    assert_eq!(m.lookup(&key), Some(blocks));
    assert!(!m.is_empty());
    assert_eq!(m.lookup(&key.extend(&[4])), None);
}

#[test]
fn replays_on_reopen() {
    let mut log = Log::default();
    let key = CacheKey::root(fp(), &[1, 2, 3]);
    let blocks = vec![BlockId::of(b"a"), BlockId::of(b"b")];
    {
        let mut m = log.open();
        log.bind(&mut m, "1,2,3=a,b.");
    }
    let m = log.open();
    assert_eq!(m.lookup(&key), Some(blocks));
}

#[test]
fn rebind_last_wins_across_reopen() {
    let mut log = Log::default();
    let key = CacheKey::root(fp(), &[9]);
    {
        let mut m = log.open();
        log.bind(&mut m, "9=old.");
        log.bind(&mut m, "9=new.");
    }
    let m = log.open();
    assert_eq!(m.lookup(&key), Some(vec![BlockId::of(b"new")]));
    assert_eq!(m.len(), 1);
}

#[test]
fn torn_tail_line_is_dropped() {
    let mut log = Log::default();
    let key = CacheKey::root(fp(), &[1]);
    {
        let mut m = log.open();
        log.bind(&mut m, "1=safe.");
    }
    // Simulate a crash mid-append: half a line at the tail.
    let intact = log.bytes.len();
    log.bytes.extend_from_slice(b"2=los");

    let mut m = log.open();
    assert_eq!(log.bytes.len(), intact);
    assert_eq!(m.lookup(&key), Some(vec![BlockId::of(b"safe")]));
    assert_eq!(m.len(), 1);
    // Appending after recovery produces a clean log again.
    let key2 = CacheKey::root(fp(), &[2]);
    log.bind(&mut m, "2=post.");
    let m2 = log.open();
    assert_eq!(m2.len(), 2);
    assert_eq!(m2.lookup(&key2), Some(vec![BlockId::of(b"post")]));
}

#[test]
fn nothing_behind_a_torn_line_is_replayed() {
    let mut log = Log { bytes: b"1=a.\n2=to\n3=c.\n".to_vec() };
    let m = log.open();
    assert_eq!(m.len(), 1);
    assert_eq!(log.bytes, b"1=a.\n");
}

#[test]
fn longest_prefix_walks_the_chain() {
    let mut m = PrefixManifest::new();

    let k0 = CacheKey::root(fp(), &[1, 2]);
    let k1 = k0.extend(&[3, 4]);
    let k2 = k1.extend(&[5, 6]);
    m.bind(k0.clone(), vec![BlockId::of(b"c0")]);
    m.bind(k1.clone(), vec![BlockId::of(b"c0"), BlockId::of(b"c1")]);
    // k2 not materialized yet.

    let chain = [k0.clone(), k1.clone(), k2.clone()];
    let (hit, blocks) = m.longest_prefix(&chain).unwrap();
    assert!(hit.same(&k1));
    assert_eq!(blocks.len(), 2);

    // A chain of which no key is bound has no reusable prefix.
    let other = [CacheKey::root(fp(), &[7, 7])];
    assert!(m.longest_prefix(&other).is_none());

    // Nor does a gap hide what is bound behind it.
    let gap = [k0.clone(), CacheKey::root(fp(), &[8]), k1.clone()];
    assert!(m.longest_prefix(&gap).unwrap().0.same(&k1));
}

#[test]
fn the_deepest_bound_key_is_found_across_a_gap() {
    let mut m = PrefixManifest::new();
    let k0 = CacheKey::root(fp(), &[1, 2]);
    let k1 = k0.extend(&[3, 4]);
    let k2 = k1.extend(&[5, 6]);
    let ids = vec![BlockId::of(b"c0"), BlockId::of(b"c1"), BlockId::of(b"c2")];
    m.bind(k0.clone(), ids[..1].to_vec());
    m.bind(k2.clone(), ids.clone());
    let chain = [k0, k1, k2.clone()];
    let (hit, blocks) = m.longest_prefix(&chain).unwrap();
    assert!(hit.same(&k2));
    assert_eq!(blocks, ids);
}

#[test]
fn lines_are_told_apart_by_line_feeds() {
    assert_eq!(line_ranges(b""), vec![]);
    assert_eq!(line_ranges(b"a\n\nbc\nd"), vec![(0, 2), (2, 3), (3, 6)]);
    // What was not ended is no line, and neither is it in the way.
    assert_eq!(line_ranges(b"a\n\xff\xfe"), vec![(0, 2)]);
    assert_eq!(line_ranges(b"torn"), vec![]);
    assert_eq!(end_line(b"ab"), b"ab\n");
}
