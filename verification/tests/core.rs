use kalpakdb::block::BlockId;
use kalpakdb::cache_key::{CacheKey, ModelFingerprint};
use kalpakdb::error::Error;
use kalpakdb::identity::{verdict, AgentId, Signature, SigningKey};
use kalpakdb::signing::{
    bind_message, chain_message, register_message, sign_hex, signature_from_hex,
};

#[test]
fn same_bytes_same_id() {
    assert_eq!(BlockId::of(b"kalpak"), BlockId::of(b"kalpak"));
    assert_ne!(BlockId::of(b"kalpak"), BlockId::of(b"kalpa"));
}

#[test]
fn block_display_roundtrip() {
    let id = BlockId::of(b"roundtrip");
    let parsed: BlockId = id.to_string().parse().unwrap();
    assert_eq!(id, parsed);
}

#[test]
fn verify_detects_corruption() {
    let id = BlockId::of(b"payload");
    assert!(id.verify(b"payload"));
    assert!(!id.verify(b"paylaod"));
}

#[test]
fn the_id_of_nothing_is_the_blake3_hash_of_nothing() {
    let id = BlockId::of(b"");
    assert_eq!(
        id.to_string(),
        "af1349b9f5f9a1a6a0404dea36dcc9499bcb25c9adc112b7cc9a93cae41f3262"
    );
    assert_eq!(id.as_bytes()[0], 0xaf);
    assert_eq!(id.as_bytes()[31], 0x62);
}

#[test]
fn ids_are_read_in_either_case_and_refused_otherwise() {
    let id = BlockId::of(b"case");
    let upper = id.to_string().to_uppercase();
    assert_eq!(upper.parse::<BlockId>().unwrap(), id);
    for bad in ["", "abc", "not-a-valid-hex-id", &id.to_string()[..62], "zz"] {
        match bad.parse::<BlockId>() {
            Err(Error::InvalidId(s)) => assert_eq!(s, bad),
            other => panic!("{other:?}"),
        }
        match bad.parse::<AgentId>() {
            Err(Error::InvalidId(s)) => assert_eq!(s, bad),
            other => panic!("{other:?}"),
        }
    }
}

#[test]
fn errors_say_what_happened() {
    let id = BlockId([0xab; 32]);
    let hex = "ab".repeat(32);
    assert_eq!(
        Error::InvalidId("x".to_string()).to_string(),
        "invalid identifier: x"
    );
    assert_eq!(
        Error::BlockNotFound(id).to_string(),
        format!("block not found: {hex}")
    );
    assert_eq!(
        Error::Corrupt { id }.to_string(),
        format!("block {hex} failed integrity check: stored bytes do not hash to their id")
    );
    assert_eq!(Error::InvalidAgentKey.to_string(), "invalid agent public key");
    assert_eq!(Error::BadSignature.to_string(), "signature verification failed");
    let io = std::io::Error::other("disk on fire");
    assert_eq!(Error::Io(io).to_string(), "disk on fire");
}

fn fp() -> ModelFingerprint {
    ModelFingerprint::new("test/model", "tok-abc", "fp16/paged-16")
}

#[test]
fn equal_prefixes_converge() {
    let a = CacheKey::root(fp(), &[1, 2, 3]).extend(&[4, 5]);
    let b = CacheKey::root(fp(), &[1, 2, 3]).extend(&[4, 5]);
    assert_eq!(a, b);
}

#[test]
fn diverging_prefixes_split() {
    let root = CacheKey::root(fp(), &[1, 2, 3]);
    assert_ne!(root.extend(&[4]), root.extend(&[5]));
}

#[test]
fn chunking_is_significant() {
    // [1,2]+[3] and [1]+[2,3] are different chains by design: a cached
    // block covers a specific chunk boundary, not just the token stream.
    let a = CacheKey::root(fp(), &[1, 2]).extend(&[3]);
    let b = CacheKey::root(fp(), &[1]).extend(&[2, 3]);
    assert_ne!(a, b);
}

#[test]
fn different_models_never_collide() {
    let other = ModelFingerprint::new("test/model", "tok-abc", "q4/contiguous");
    let a = CacheKey::root(fp(), &[1, 2, 3]);
    let b = CacheKey::root(other, &[1, 2, 3]);
    assert_ne!(a, b);
}

#[test]
fn a_prefix_hash_is_the_hash_of_parent_and_tokens() {
    let root = CacheKey::root(fp(), &[1, 0x0203_0405]);
    assert_eq!(
        root.prefix_hash,
        BlockId::of(&[1, 0, 0, 0, 0x05, 0x04, 0x03, 0x02])
    );
    let child = root.extend(&[7]);
    let mut bytes = root.prefix_hash.as_bytes().to_vec();
    bytes.extend_from_slice(&[7, 0, 0, 0]);
    assert_eq!(child.prefix_hash, BlockId::of(&bytes));
    assert_eq!(child.fingerprint, fp());
    assert!(child.same(&root.extend(&[7])));
    assert!(!child.same(&root));
}

#[test]
fn signature_roundtrip() {
    let signing = SigningKey::from_bytes(&[7u8; 32]);
    let agent = AgentId::from_verifying_key(&signing.verifying_key());
    let sig = signing.sign(b"memory write");
    assert!(agent.verify(b"memory write", &sig).is_ok());
    assert!(agent.verify(b"tampered", &sig).is_err());
}

#[test]
fn identity_display_roundtrip() {
    let signing = SigningKey::from_bytes(&[9u8; 32]);
    let agent = AgentId::from_verifying_key(&signing.verifying_key());
    let parsed: AgentId = agent.to_string().parse().unwrap();
    assert_eq!(agent, parsed);
}

#[test]
fn keys_and_signatures_are_those_of_ed25519() {
    // RFC 8032, section 7.1, the first test vector.
    let mut secret = [0u8; 32];
    let text = "9d61b19deffd5a60ba844af492ec2cc44449c5697b326919703bac031cae7f60";
    for i in 0..32 {
        secret[i] = u8::from_str_radix(&text[2 * i..2 * i + 2], 16).unwrap();
    }
    let key = SigningKey::from_bytes(&secret);
    let agent = AgentId::from_verifying_key(&key.verifying_key());
    assert_eq!(
        agent.to_string(),
        "d75a980182b10ab7d54bfed3c964073a0ee172f3daa62325af021a68f707511a"
    );
    assert_eq!(
        sign_hex(&key, b""),
        "e5564300c360ac729086e2cc806e828a84877f1eb8e5d974d873e06522490155\
         5fb8821590a33bacc61e39701cf9b46bd25bf5f0595bbe24655141438e7a100b"
    );
}

#[test]
fn an_id_that_is_no_key_is_told_from_a_bad_signature() {
    // y = 2 is not on the curve.
    let mut raw = [0u8; 32];
    raw[0] = 2;
    let sig = Signature::from_bytes(&[0; 64]);
    assert!(matches!(
        AgentId(raw).verify(b"m", &sig),
        Err(Error::InvalidAgentKey)
    ));
    let key = SigningKey::from_bytes(&[1; 32]);
    let agent = AgentId::from_verifying_key(&key.verifying_key());
    assert!(matches!(agent.verify(b"m", &sig), Err(Error::BadSignature)));
    assert!(matches!(verdict(None), Err(Error::InvalidAgentKey)));
    assert!(matches!(verdict(Some(false)), Err(Error::BadSignature)));
    assert!(verdict(Some(true)).is_ok());
}

fn agent_and_key() -> (SigningKey, AgentId) {
    let sk = SigningKey::from_bytes(&[42; 32]);
    let id = AgentId::from_verifying_key(&sk.verifying_key());
    (sk, id)
}

fn key(tokens: &[u32]) -> CacheKey {
    CacheKey::root(ModelFingerprint::new("m", "t", "l"), tokens)
}

#[test]
fn sign_verify_roundtrip_all_messages() {
    let (sk, agent) = agent_and_key();
    let k = key(&[1, 2]);
    let child = k.extend(&[3]);
    let blocks = vec![BlockId::of(b"a"), BlockId::of(b"b")];

    for msg in [
        register_message(&agent, "tester"),
        bind_message(&agent, &k, &blocks, None),
        bind_message(&agent, &child, &blocks, Some(&k)),
        chain_message(
            &agent,
            &[
                (k.clone(), blocks.clone(), None),
                (child.clone(), blocks.clone(), Some(k.clone())),
            ],
        ),
    ] {
        let sig = signature_from_hex(&sign_hex(&sk, &msg)).unwrap();
        agent.verify(&msg, &sig).unwrap();
    }
}

#[test]
fn domain_separation_and_tamper_rejection() {
    let (sk, agent) = agent_and_key();
    let k = key(&[7]);
    let blocks = vec![BlockId::of(b"x")];

    // A bind signature must not validate as a chain message (or vice
    // versa) even over the same fields.
    let bind_sig =
        signature_from_hex(&sign_hex(&sk, &bind_message(&agent, &k, &blocks, None))).unwrap();
    let chain_msg = chain_message(&agent, &[(k.clone(), blocks.clone(), None)]);
    assert!(agent.verify(&chain_msg, &bind_sig).is_err());

    // Changing any field invalidates: different blocks...
    let msg = bind_message(&agent, &k, &blocks, None);
    let sig = signature_from_hex(&sign_hex(&sk, &msg)).unwrap();
    let other = bind_message(&agent, &k, &[BlockId::of(b"y")], None);
    assert!(agent.verify(&other, &sig).is_err());
    // ...or a parent appearing.
    let with_parent = bind_message(&agent, &k, &blocks, Some(&key(&[8])));
    assert!(agent.verify(&with_parent, &sig).is_err());

    // A different agent's signature never validates.
    let intruder = SigningKey::from_bytes(&[43; 32]);
    let forged = signature_from_hex(&sign_hex(&intruder, &msg)).unwrap();
    assert!(agent.verify(&msg, &forged).is_err());
}

#[test]
fn encoding_is_stable() {
    // The canonical bytes are a wire contract shared with non-Rust
    // SDKs; lock the layout so changes are deliberate.
    let (_, agent) = agent_and_key();
    let msg = register_message(&agent, "x");
    assert!(msg.starts_with(b"KLPK/reg/v1\0"));
    assert_eq!(msg.len(), 12 + 32 + 1);

    let k = key(&[1]);
    let b = bind_message(&agent, &k, &[BlockId::of(b"a")], None);
    // prefix + pubkey + "m\0t\0l\0" + hash(32) + count(4) + block(32) + flag(1)
    assert_eq!(b.len(), 13 + 32 + 6 + 32 + 4 + 32 + 1);
}

#[test]
fn messages_byte_for_byte() {
    let agent = AgentId([5; 32]);
    let k = key(&[1]);
    let parent = key(&[2]);
    let block = BlockId([6; 32]);

    let mut link = b"m\0t\0l\0".to_vec();
    link.extend_from_slice(k.prefix_hash.as_bytes());
    link.extend_from_slice(&[1, 0, 0, 0]);
    link.extend_from_slice(&[6; 32]);
    let mut root = link.clone();
    root.push(0);
    let mut child = link.clone();
    child.push(1);
    child.extend_from_slice(parent.prefix_hash.as_bytes());

    let mut bind = b"KLPK/bind/v1\0".to_vec();
    bind.extend_from_slice(&[5; 32]);
    bind.extend_from_slice(&child);
    assert_eq!(bind_message(&agent, &k, &[block], Some(&parent)), bind);

    let mut chain = b"KLPK/chain/v1\0".to_vec();
    chain.extend_from_slice(&[5; 32]);
    chain.extend_from_slice(&[2, 0, 0, 0]);
    chain.extend_from_slice(&root);
    chain.extend_from_slice(&child);
    assert_eq!(
        chain_message(
            &agent,
            &[
                (k.clone(), vec![block], None),
                (k.clone(), vec![block], Some(parent.clone())),
            ],
        ),
        chain
    );

    let mut register = b"KLPK/reg/v1\0".to_vec();
    register.extend_from_slice(&[5; 32]);
    register.extend_from_slice("näme".as_bytes());
    assert_eq!(register_message(&agent, "näme"), register);
}

#[test]
fn malformed_signatures_are_bad_signatures() {
    for bad in ["", "nope", "ab", &"ab".repeat(63), &"ab".repeat(65), &"xy".repeat(64)] {
        assert!(matches!(signature_from_hex(bad), Err(Error::BadSignature)));
    }
    assert_eq!(
        signature_from_hex(&"AB".repeat(64)).unwrap().to_bytes(),
        [0xab; 64]
    );
}
