use kalpakdb::block::BlockId;
use kalpakdb::bytes::{push_le, rank, read_le, same_bytes, Rank};
use kalpakdb::cache_key::{CacheKey, ModelFingerprint};
use kalpakdb::control::state::MetadataState;
use kalpakdb::control::types::{Entry, LogId, Payload, Request};
use kalpakdb::identity::AgentId;
use kalpakdb::key_table::KeyTable;
use kalpakdb::layout::{
    make_rewrite_path, make_segment_path, parse_segment_name, parse_segment_names,
};
use kalpakdb::table::Table;
use kalpakdb::text::{after_prefix, before_suffix, push_decimal, read_number, same_text};
use kalpakdb::vectors::reversed;

#[test]
fn bytes_are_ordered_like_words() {
    assert!(matches!(rank(b"a", b"b"), Rank::Less));
    assert!(matches!(rank(b"ab", b"a"), Rank::Greater));
    assert!(matches!(rank(b"", b"a"), Rank::Less));
    assert!(matches!(rank(b"ab", b"ab"), Rank::Same));
    assert!(same_bytes(b"x", b"x") && !same_bytes(b"x", b"y") && !same_bytes(b"x", b"xx"));
}

#[test]
fn little_endian_numbers_are_read_back() {
    for x in [0u64, 1, 255, 256, 0x0102_0304_0506_0708, u64::MAX] {
        let mut buf = vec![9];
        push_le(&mut buf, x, 8);
        assert_eq!(buf[1..], x.to_le_bytes());
        assert_eq!(read_le(&buf[1..]), x);
    }
    let mut low = Vec::new();
    push_le(&mut low, 0x0102_0304, 2);
    assert_eq!(low, vec![4, 3]);
}

#[test]
fn decimal_numbers_are_read_back() {
    for n in [0u64, 7, 10, 99, 100, 1_234_567, u64::MAX] {
        let mut text = String::from("n=");
        push_decimal(&mut text, n);
        assert_eq!(text, format!("n={n}"));
        assert_eq!(read_number(after_prefix(&text, "n=").unwrap(), u64::MAX), Ok(n));
    }
    assert_eq!(before_suffix("a.b", ".b"), Some("a"));
    assert_eq!(before_suffix("a.b", ".c"), None);
    assert_eq!(after_prefix("a", "ab"), None);
    assert!(same_text("\u{e9}", "\u{e9}") && !same_text("e", "\u{e9}"));
}

#[test]
fn a_table_is_a_sorted_map() {
    let mut t: Table<u32> = Table::new();
    assert_eq!(t.insert(b"b".to_vec(), 2), None);
    assert_eq!(t.insert(b"a".to_vec(), 1), None);
    assert_eq!(t.insert(b"b".to_vec(), 3), Some(2));
    assert_eq!(t.len(), 2);
    assert_eq!((t.key_at(0).as_slice(), *t.value_at(1)), (&b"a"[..], 3));
    assert_eq!(t.get(b"a"), Some(&1));
    assert_eq!(t.remove(b"a"), Some(1));
    assert_eq!(t.remove(b"a"), None);
    assert!(t.contains(b"b") && !t.contains(b"a"));
}

#[test]
fn keys_of_different_models_are_filed_apart() {
    let key = |m: &str, t: &str, tokens: &[u32]| {
        CacheKey::root(ModelFingerprint::new(m, t, "l"), tokens)
    };
    let mut t: KeyTable<u32> = KeyTable::new();
    // The same characters, cut differently.
    t.insert(key("ab", "c", &[1]), 1);
    t.insert(key("a", "bc", &[1]), 2);
    t.insert(key("ab", "c", &[2]), 3);
    assert_eq!(t.len(), 3);
    assert_eq!(t.get(&key("ab", "c", &[1])), Some(&1));
    assert_eq!(t.get(&key("a", "bc", &[1])), Some(&2));
    assert_eq!(t.remove(&key("ab", "c", &[2])), Some(3));
    assert!(!t.contains(&key("ab", "c", &[2])));
    assert_eq!(t.len(), 2);
}

#[test]
fn segment_names_are_numbers() {
    assert_eq!(make_segment_path("data", 7), "data/seg-00000007.klpk");
    assert_eq!(make_segment_path("data/", u32::MAX), "data/seg-4294967295.klpk");
    assert_eq!(make_segment_path("", 0), "seg-00000000.klpk");
    assert_eq!(make_rewrite_path("data", 7), "data/seg-00000007.klpk.compact");
    assert_eq!(parse_segment_name("seg-00000007.klpk"), Some(7));
    assert_eq!(parse_segment_name("seg-7.klpk"), Some(7));
    for name in ["seg-.klpk", "seg-x.klpk", "seg-1.klpk.compact", "sag-1.klpk", "seg-4294967296.klpk"]
    {
        assert_eq!(parse_segment_name(name), None, "{name}");
    }
    let names = ["seg-00000001.klpk", "x", "seg-00000000.klpk"].map(String::from).to_vec();
    assert_eq!(parse_segment_names(&names), vec![1, 0]);
    assert_eq!(reversed(vec![1, 2, 3]), vec![3, 2, 1]);
}

#[test]
fn a_log_may_be_applied_in_parts() {
    let key = CacheKey::root(ModelFingerprint::new("m", "t", "l"), &[1]);
    let entries = |range: std::ops::Range<u64>| -> Vec<Entry<()>> {
        range
            .map(|index| {
                let agent = AgentId([index as u8 % 3; 32]);
                let req = if index % 2 == 0 {
                    Request::RegisterAgent { agent, display_name: format!("a{index}") }
                } else {
                    let id = BlockId::of(&index.to_le_bytes());
                    let key = if index > 5 { key.extend(&[index as u32]) } else { key.clone() };
                    Request::BindPrefix { agent, key, blocks: vec![id], parent: None }
                };
                let log_id = LogId { term: 1, node_id: 1, index };
                Entry { log_id, payload: Payload::Normal(req) }
            })
            .collect()
    };
    let mut whole: MetadataState<()> = MetadataState::new();
    whole.apply(entries(0..10));
    let mut parts: MetadataState<()> = MetadataState::new();
    parts.apply(entries(0..4));
    parts.apply(entries(4..10));
    assert_eq!(whole.last_applied(), parts.last_applied());
    assert_eq!(format!("{:?}", whole.parts()), format!("{:?}", parts.parts()));
    assert_eq!(whole.binding_count(), 3);
}
