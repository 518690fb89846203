use hypha::meta::admission::{validate_bucket_name, validate_client_key, CTRL, MAX_KEY_LEN};
use hypha::meta::keyspace::{
    admits_no_successor, clean_marker_key, decode_shadow_client_key, encode_shadow_client_key,
    halt_marker_key, is_reserved_remote_key, marker_scan_start_after, mpu_fold_key, mpu_part_key,
    mpu_prefix, mpu_scan_prefix, mpu_stash_key, mpu_upload_key, parse_mpu_part,
    parse_mpu_upload_id, parse_recency_seq, pending_marker_key, recency_slice_key, shadow_key,
    shadow_clean_marker_key, shadow_scan_prefix, sync_marker_key, trim_quotes, MpuPart,
    MAX_CLIENT_PART, RECENCY_PREFIX,
};
use hypha::meta::metadata::Metadata;
use hypha::meta::sentinel::{
    classify_entry, delete_marker_body, delete_marker_etag, evict_sentinel_etag,
    is_composite_etag, is_reserved_sentinel, is_tombstone, tomb_kind, transit_sentinel_etag,
    TombKind, DELETE_MARKER_SENTINEL, EVICT_SENTINEL, TOMB, TOMB_EVICT, TOMB_TRANSIT,
    TRANSIT_SENTINEL,
};
use hypha::meta::twin::{composite_etag, parse_twin, Facts, FACTS_CHARS, TWIN_MAX_KEY_LEN};
use hypha::meta::user::{
    content_type, decode_user_metadata, encode_content_type, encode_user_metadata,
    passthrough_metadata, storage_class, CETAG, CTYPE, MTIME, PLEN, SCLASS, STANDARD, USER_PREFIX,
};

fn pairs(entries: &[(&str, &str)]) -> Metadata {
    let mut md = Metadata::new();
    for (name, value) in entries {
        md.insert(name.to_string(), value.to_string());
    }
    md
}

/// Every entry of one carrier is in the other.
fn same(a: &Metadata, b: &Metadata) -> bool {
    a.len() == b.len()
        && (0..a.len()).all(|i| b.get(a.name_at(i).as_str()) == Some(a.value_at(i)))
}

fn plain_facts() -> Facts {
    Facts { client_etag: "ab".repeat(16), plen: 1, mtime_ms: 1 }
}

/// Every facts field at its maximum.
fn maxed_facts() -> Facts {
    Facts {
        client_etag: format!("{}-{}", "ff".repeat(16), (1u32 << 14) - 1),
        plen: (1u64 << 46) - 1,
        mtime_ms: (1i64 << 42) - 1,
    }
}

#[test]
fn reserved_remote_keys_are_exactly_the_control_byte_prefix() {
    assert!(is_reserved_remote_key(&halt_marker_key()));
    for client in ["k", "a/b", "\u{2}leading-control", " ", "\u{7f}"] {
        assert!(
            !is_reserved_remote_key(client),
            "{client:?} is admissible as a client key and must not be filtered"
        );
        assert!(validate_client_key(client).is_ok());
    }
}

#[test]
fn twin_roundtrips() {
    let single = Facts {
        client_etag: "ab".repeat(16),
        plen: 4096,
        mtime_ms: 1_700_000_000_000,
    };
    let composite = Facts {
        client_etag: format!("{}-137", "cd".repeat(16)),
        plen: (1u64 << 46) - 1,
        mtime_ms: 1,
    };
    let maxed = maxed_facts();
    for f in [single, composite, maxed] {
        let tk = f.twin_key("dir/obj").unwrap();
        let (base, decoded) = parse_twin(&tk).unwrap();
        assert_eq!(base, "dir/obj");
        assert_eq!(decoded, f);
        assert_eq!(tk.len(), 1 + "dir/obj".len() + 1 + FACTS_CHARS);
    }
}

#[test]
fn twin_range_is_order_isomorphic() {
    let f = plain_facts();
    let mut keys = ["a", "a/b", "a!b", "ab", "b", "a\u{7f}"];
    keys.sort();
    for w in keys.windows(2) {
        let ta = f.twin_key(w[0]).unwrap();
        let tb = f.twin_key(w[1]).unwrap();
        assert!(ta < tb, "twin order broke for {:?} < {:?}", w[0], w[1]);
    }
    assert!(parse_twin(&mpu_upload_key("id")).is_none());
    assert!(parse_twin(&shadow_key("k")).is_none());
}

#[test]
fn shadow_key_carries_the_whole_digest() {
    let key = shadow_key("some/client/key");
    let digest = key.strip_prefix(&shadow_scan_prefix()).expect("prefixed");
    assert_eq!(
        base64_simd::URL_SAFE_NO_PAD.decode_to_vec(digest).expect("base64url").len(),
        32,
        "a truncated digest would put the collision case back"
    );
    assert!(digest.bytes().all(|b| b.is_ascii_alphanumeric() || b == b'-' || b == b'_'));

    let long = shadow_key(&"k".repeat(MAX_KEY_LEN));
    assert_eq!(long.len(), key.len());
    assert_ne!(long, key);
}

#[test]
fn reserved_sentinel_detection() {
    for s in [EVICT_SENTINEL, DELETE_MARKER_SENTINEL, TRANSIT_SENTINEL] {
        assert!(is_reserved_sentinel(&s));
    }
    assert!(!is_reserved_sentinel(&[0u8; 16]), "an ordinary 16-byte body is not a sentinel");
    let mut longer = EVICT_SENTINEL.to_vec();
    longer.push(0);
    assert!(!is_reserved_sentinel(&longer));
    assert!(!is_reserved_sentinel(&EVICT_SENTINEL[..15]));
}

#[test]
fn marker_scan_boundary_splits_ranges() {
    let boundary = marker_scan_start_after();
    let f = plain_facts();
    assert!(boundary > mpu_upload_key("some-upload-id"));
    assert!(boundary > sync_marker_key());
    assert!(boundary > clean_marker_key());
    assert!(boundary > shadow_key("\u{10FFFF}".repeat(240).as_str()));
    let hard = "\u{10FFFF}".repeat(240);
    assert!(boundary > f.twin_key(&hard).unwrap());
    for k in ["\u{2}", "obj", "dir/obj", "\u{10FFFF}", &"z".repeat(1024)] {
        assert!(boundary.as_str() < pending_marker_key(k), "boundary must precede {k:?}");
    }
}

#[test]
fn passthrough_metadata_keeps_client_facts_only() {
    let mut md = Metadata::new();
    md.insert(TOMB.to_string(), TOMB_EVICT.to_string());
    md.insert(PLEN.to_string(), "42".to_string());
    md.insert(CETAG.to_string(), "ab".repeat(16));
    md.insert(MTIME.to_string(), "7".to_string());
    md.insert(SCLASS.to_string(), "REDUCED_REDUNDANCY".to_string());
    md.insert(format!("{USER_PREFIX}color"), "blue".to_string());
    let kept = passthrough_metadata(&md);
    assert_eq!(kept.len(), 2);
    assert_eq!(kept.get(SCLASS).map(String::as_str), Some("REDUCED_REDUNDANCY"));
    assert_eq!(kept.get(&format!("{USER_PREFIX}color")).map(String::as_str), Some("blue"));
    assert!(!kept.contains_key(TOMB));
}

#[test]
fn twin_degrades_above_threshold() {
    let f = plain_facts();
    assert!(f.twin_key(&"k".repeat(TWIN_MAX_KEY_LEN)).is_some());
    assert!(f.twin_key(&"k".repeat(TWIN_MAX_KEY_LEN + 1)).is_none());
}

#[test]
fn packed_facts_use_unreserved_chars() {
    let maxed = maxed_facts();
    let tk = maxed.twin_key("obj").unwrap();
    let facts = tk.rsplit(CTRL as char).next().unwrap();
    assert_eq!(facts.len(), FACTS_CHARS);
    assert!(facts.bytes().all(|b| b.is_ascii_alphanumeric() || b == b'-' || b == b'_'));
    assert!(Facts::unpack(&"/".repeat(FACTS_CHARS)).is_none());
    assert!(Facts::unpack(&"A".repeat(FACTS_CHARS - 1)).is_none());
    assert!(Facts::unpack(&"_".repeat(FACTS_CHARS)).is_none());
}

#[test]
fn sentinels_are_distinct_and_classify() {
    for kind in [TombKind::Evict, TombKind::Transit] {
        assert_eq!(kind.sentinel().len(), 16);
        assert_eq!(classify_entry(16, &kind.sentinel_etag()), Some(kind));
    }
    assert_eq!(classify_entry(16, &delete_marker_body()), None);
    assert_ne!(delete_marker_body(), delete_marker_etag());
    assert_eq!(classify_entry(16, &"0".repeat(32)), None);
    assert_eq!(classify_entry(17, &TombKind::Evict.sentinel_etag()), None);
}

#[test]
fn composite_etag_has_part_count_suffix() {
    let e = composite_etag(&["ab".repeat(16), "cd".repeat(16)]).unwrap();
    assert!(e.ends_with("-2"));
    assert!(is_composite_etag(&e));
    assert!(!is_composite_etag(&"ab".repeat(16)));
    assert!(composite_etag(&[]).is_none());
}

#[test]
fn user_metadata_namespace_roundtrips() {
    let client = pairs(&[
        ("colour", "café ☕"),
        ("plain", "value"),
        ("mime", "text/plain;charset=utf-8"),
        ("spaced", "two  spaces"),
    ]);

    let mut stored = encode_user_metadata(&client);
    stored.insert(TOMB.to_string(), TOMB_EVICT.to_string());
    stored.insert(SCLASS.to_string(), "STANDARD_IA".to_string());

    assert!(same(&decode_user_metadata(&stored), &client));
    assert_eq!(storage_class(&stored), "STANDARD_IA");
    assert!((0..stored.len()).all(|i| stored.value_at(i).is_ascii()));
    for bare in ["value", "text/plain;charset=utf-8"] {
        assert!(
            (0..stored.len()).any(|i| stored.value_at(i) == bare),
            "safe ASCII must ride through unencoded, got {stored:?}"
        );
    }
    assert_eq!(stored.get("u-spaced").unwrap(), "two%20%20spaces");

    let stored = encode_user_metadata(&pairs(&[(PLEN, "99")]));
    assert!(!stored.contains_key(PLEN));
    assert_eq!(storage_class(&stored), STANDARD);
}

#[test]
fn key_admission() {
    assert!(validate_client_key("normal/key.txt").is_ok());
    assert!(validate_client_key("tab\tand\x1fctrl").is_ok());
    assert!(validate_client_key("bad\x00key").is_err());
    assert!(validate_client_key("bad\x01key").is_err());
    assert!(validate_client_key(&"x".repeat(MAX_KEY_LEN)).is_ok());
    assert!(validate_client_key(&"x".repeat(MAX_KEY_LEN + 1)).is_err());
    assert!(validate_client_key(&mpu_upload_key("id")).is_err());
    assert!(validate_client_key("\u{100000}anything").is_ok());
}

#[test]
fn bucket_name_budget() {
    assert!(validate_bucket_name(&"b".repeat(61), 2).is_ok());
    assert!(validate_bucket_name(&"b".repeat(62), 2).is_err());
    assert!(validate_bucket_name("bucket", 0).is_ok());
}

#[test]
fn meta_ranges_sort_and_separate() {
    let range_a = mpu_upload_key("u");
    let range_b = plain_facts().twin_key("obj").unwrap();
    let range_c = "obj".to_string();
    assert!(range_a < range_b);
    assert!(range_b < range_c);
    assert!(parse_twin(&range_a).is_none());
    assert!(parse_twin(&range_b).is_some());
    assert!(parse_twin(&range_c).is_none());
}

fn part(n: i32, retag: &'static str, pmd5: &'static str) -> MpuPart<'static> {
    MpuPart { part_number: n, retag, pmd5, stash_nonce: "" }
}

#[test]
fn mpu_part_key_roundtrips_and_rejects_upload_record() {
    let (retag, pmd5): (&'static str, &'static str) =
        ("ab".repeat(16).leak(), "cd".repeat(16).leak());
    let k = mpu_part_key("up-1", part(7, retag, pmd5));
    assert_eq!(parse_mpu_part(&k), Some(part(7, retag, pmd5)));

    let quoted = format!("\"{retag}\"");
    let kq = mpu_part_key("up-1", MpuPart { retag: &quoted, ..part(42, retag, pmd5) });
    assert_eq!(parse_mpu_part(&kq), Some(part(42, retag, pmd5)));

    let stashed = MpuPart { stash_nonce: "AAAA-nonce_1", ..part(10_000, retag, pmd5) };
    let ks = mpu_part_key("up-1", stashed);
    assert_eq!(parse_mpu_part(&ks), Some(stashed));
    assert_eq!(
        mpu_stash_key("up-1", 10_000, "AAAA-nonce_1"),
        "\u{1}\u{1}mup-1\u{1}c10000;AAAA-nonce_1"
    );
    assert_eq!(parse_mpu_part(&mpu_stash_key("up-1", 10_000, "n")), None);

    assert_eq!(parse_mpu_part(&mpu_upload_key("up-1")), None);
    assert_eq!(parse_mpu_part(&mpu_fold_key("up-1")), None);
    assert!(mpu_upload_key("up-1").starts_with(&mpu_prefix("up-1")));
    assert!(mpu_fold_key("up-1").starts_with(&mpu_prefix("up-1")));
    assert!(ks.starts_with(&mpu_prefix("up-1")));
    assert!(
        mpu_part_key("up-1", part(2, retag, pmd5)) < mpu_part_key("up-1", part(10, retag, pmd5))
    );
}

#[test]
fn part_records_list_in_the_order_of_their_numbers() {
    let numbers = [0, 1, 9, 10, 99, 100, 9_999, 10_000, 10_001, 99_999];
    for pair in numbers.windows(2) {
        // The other fields stand the other way round.
        let earlier = mpu_part_key("up-1", part(pair[0], "ff", "ff"));
        let later = mpu_part_key("up-1", part(pair[1], "00", "00"));
        assert!(earlier < later, "{} before {}", pair[0], pair[1]);
    }
    // A sixth digit is more than the padding allows for.
    assert!(mpu_part_key("up-1", part(100_000, "", "")) < mpu_part_key("up-1", part(99_999, "", "")));
}

#[test]
fn admits_no_successor_covers_both_terminal_conditions() {
    const MIN: u64 = 5 * 1024 * 1024;
    assert!(admits_no_successor(1, MIN - 1, MIN));
    assert!(admits_no_successor(MAX_CLIENT_PART, 4 << 30, MIN));
    assert!(!admits_no_successor(1, MIN, MIN));
    assert!(!admits_no_successor(MAX_CLIENT_PART - 1, 4 << 30, MIN));
}

// ---- names and parsers on exact values --------------------------------------------------------

#[test]
fn marker_names() {
    assert_eq!(mpu_scan_prefix(), "\u{1}\u{1}m");
    assert_eq!(mpu_prefix("u"), "\u{1}\u{1}mu\u{1}");
    assert!(sync_marker_key().starts_with("\u{1}\u{1}"));
    assert_ne!(clean_marker_key(), shadow_clean_marker_key());
    assert_eq!(parse_mpu_upload_id(&mpu_upload_key("up-9")), Some("up-9"));
    assert_eq!(parse_mpu_upload_id("obj"), None);
    assert_eq!(trim_quotes("\"\"x\""), "x");
}

#[test]
fn recency_names_sort_by_number() {
    let (a, b) = (recency_slice_key(9), recency_slice_key(0x10));
    assert!(a < b);
    assert!(a.starts_with(RECENCY_PREFIX));
    assert_eq!(parse_recency_seq(&b), Some(0x10));
    assert_eq!(parse_recency_seq("recency/zz"), None);
}

#[test]
fn shadow_names_carry_the_client_key() {
    let key = "dir/ö \u{10FFFF}";
    let encoded = encode_shadow_client_key(key);
    assert!(encoded.is_ascii());
    assert_eq!(decode_shadow_client_key(&encoded).as_deref(), Some(key));
    assert_eq!(decode_shadow_client_key("!"), None);
}

#[test]
fn tombstones_are_named_in_metadata() {
    assert_eq!(tomb_kind(&pairs(&[(TOMB, TOMB_EVICT)])), Some(TombKind::Evict));
    assert_eq!(tomb_kind(&pairs(&[(TOMB, TOMB_TRANSIT)])), Some(TombKind::Transit));
    assert_eq!(tomb_kind(&pairs(&[(TOMB, "gone")])), None);
    assert!(is_tombstone(&pairs(&[(TOMB, TOMB_EVICT)])));
    assert!(!is_tombstone(&Metadata::new()));
    assert_eq!(evict_sentinel_etag(), TombKind::Evict.sentinel_etag());
    assert_eq!(transit_sentinel_etag(), TombKind::Transit.sentinel_etag());
}

#[test]
fn content_type_round_trips() {
    let value = "text/plain; charset=ü";
    let stored = pairs(&[(CTYPE, &encode_content_type(value))]);
    assert_eq!(content_type(&stored).as_deref(), Some(value));
    assert_eq!(content_type(&Metadata::new()), None);
}

#[test]
fn composite_etag_of_known_parts() {
    let part = "d41d8cd98f00b204e9800998ecf8427e".to_string();
    assert_eq!(
        composite_etag(&[part.clone(), part]).as_deref(),
        Some("5873dd45edd01f09c1ef2e7819369e8e-2")
    );
    assert_eq!(composite_etag(&["zz".to_string()]), None);
}
