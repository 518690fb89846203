use hypha::format::envelope::{Envelope, Error, PINNED_WORK_FACTOR};
use hypha::format::footer::{Footer, FooterKind, FOOTER_LEN, VERSION};
use hypha::format::offset::{
    chunk_ciphertext_offset, chunk_count, ciphertext_len, ciphertext_range, plaintext_len_from,
    CHUNK_CIPHERTEXT, CHUNK_PLAINTEXT, HLEN, PAYLOAD_NONCE, TAG,
};
use hypha::format::stream::{
    Content, MemSource, RangeRead, RangeReader, RangeSource, SeekError, SeekTo, SKIP_THRESHOLD,
};
use hypha::format::trailer;
use hypha::format::trailer::{
    decode_tail, encode_trailer, single_trailer_len, ChecksumAlgorithm, ChecksumKind,
    StoredChecksum, TrailerKey, FACTS_LEN, MAX_TAIL_LEN, MIN_SINGLE_TRAILER_LEN, TAG_LEN,
    VERSION_LEN,
};
use std::io::{Read, Seek, SeekFrom};
use std::rc::Rc;

const PASSPHRASE: &str = "format test passphrase";

fn envelope() -> Envelope {
    Envelope::new(PASSPHRASE).unwrap()
}

fn pattern(len: usize) -> Vec<u8> {
    (0..len).map(|i| (i % 251) as u8).collect()
}

// ---- offsets ----------------------------------------------------------------------------------

#[test]
fn chunk_counts() {
    assert_eq!(chunk_count(0), 1);
    assert_eq!(chunk_count(1), 1);
    assert_eq!(chunk_count(CHUNK_PLAINTEXT), 1);
    assert_eq!(chunk_count(CHUNK_PLAINTEXT + 1), 2);
    assert_eq!(chunk_count(3 * CHUNK_PLAINTEXT), 3);
}

#[test]
fn plaintext_len_inverts_ciphertext_len() {
    let h = 200;
    for plen in [
        0u64,
        1,
        CHUNK_PLAINTEXT - 1,
        CHUNK_PLAINTEXT,
        CHUNK_PLAINTEXT + 1,
        3 * CHUNK_PLAINTEXT + 10,
    ] {
        assert_eq!(plaintext_len_from(ciphertext_len(plen, h), h), Some(plen));
    }
    assert_eq!(plaintext_len_from(h + PAYLOAD_NONCE + CHUNK_CIPHERTEXT + TAG, h), None);
    assert_eq!(plaintext_len_from(h, h), None);
}

#[test]
fn ranges_cover_whole_chunks() {
    let h = 200;
    let len = 3 * CHUNK_PLAINTEXT + 10;
    let r = ciphertext_range(CHUNK_PLAINTEXT + 5..CHUNK_PLAINTEXT + 6, len, h);
    assert_eq!(r.start, chunk_ciphertext_offset(1, h));
    assert_eq!(r.end, chunk_ciphertext_offset(2, h));
    let r = ciphertext_range(3 * CHUNK_PLAINTEXT - 1..len, len, h);
    assert_eq!(r.start, chunk_ciphertext_offset(2, h));
    assert_eq!(r.end, ciphertext_len(len, h));
}

// ---- footer -----------------------------------------------------------------------------------

#[test]
fn roundtrips() {
    for (kind, count) in [(FooterKind::Single, 1), (FooterKind::Composite, 17)] {
        let f = Footer {
            kind,
            count,
            plen: 123_456_789,
            mtime_ms: 1_700_000_000_000,
            md5: [0xab; 16],
        };
        let enc = f.encode();
        assert_eq!(enc.len() as u64, FOOTER_LEN);
        assert_eq!(Footer::decode(&enc), Some(f));
    }
}

#[test]
fn footer_client_etag_forms() {
    let mut f = Footer {
        kind: FooterKind::Single,
        count: 1,
        plen: 0,
        mtime_ms: 0,
        md5: [0xab; 16],
    };
    assert_eq!(f.client_etag(), "ab".repeat(16));
    f.kind = FooterKind::Composite;
    f.count = 3;
    assert_eq!(f.client_etag(), format!("{}-3", "ab".repeat(16)));
}

#[test]
fn rejects_foreign_bytes() {
    assert_eq!(Footer::decode(&[0u8; FOOTER_LEN as usize]), None);
    assert_eq!(Footer::decode(&[0u8; 10]), None);
    let mut b = Footer {
        kind: FooterKind::Single,
        count: 1,
        plen: 1,
        mtime_ms: 0,
        md5: [0; 16],
    }
    .encode();
    b[8] = 99;
    assert_eq!(Footer::decode(&b), None);
    b[8] = VERSION;
    b[9] = 7;
    assert_eq!(Footer::decode(&b), None);
}

fn trailing_bytes_break(env: &Envelope, trailing: usize) {
    for plen in [100usize, 64 * 1024] {
        let plaintext = vec![7u8; plen];
        let mut ct = env.encrypt(&plaintext).unwrap();
        let ct_len = ct.len();
        ct.extend_from_slice(&vec![0u8; trailing]);
        assert!(env.decrypt(&ct).is_err(), "unbounded decrypt must fail (plen={plen})");
        let out = env.decrypt(&ct[..ct_len]).unwrap();
        assert_eq!(out, plaintext, "bounded decrypt must succeed (plen={plen})");
    }
}

#[test]
fn footer_trailing_bytes_break_decryption() {
    trailing_bytes_break(&envelope(), FOOTER_LEN as usize);
}

// ---- streams ----------------------------------------------------------------------------------

fn read_exact<S: RangeSource>(reader: &mut RangeReader<S>, len: usize) -> Vec<u8>
where
    <S::Reader as RangeRead>::Error: std::fmt::Debug,
{
    let mut out = Vec::new();
    while out.len() < len {
        let got = reader.read(len - out.len()).unwrap();
        assert!(!got.is_empty(), "the stream ended early");
        out.extend(got);
    }
    out
}

#[test]
fn seek_and_read() {
    let data: Vec<u8> = (0..200_000u32).map(|i| (i % 251) as u8).collect();
    let mut r = RangeReader::new(MemSource::new(data.clone()));

    r.seek(SeekTo::Start(100_000)).unwrap();
    assert_eq!(read_exact(&mut r, 16), &data[100_000..100_016]);

    r.seek(SeekTo::End(-16)).unwrap();
    assert_eq!(read_exact(&mut r, 16), &data[data.len() - 16..]);

    assert!(r.seek(SeekTo::Current(-(data.len() as i64 * 2))).is_err());
}

#[test]
fn short_forward_seek_reuses_stream() {
    let data: Vec<u8> = (0..300_000u32).map(|i| (i % 241) as u8).collect();
    let mut r = RangeReader::new(MemSource::new(data.clone()));
    read_exact(&mut r, 8);
    r.seek(SeekTo::Current(1000)).unwrap();
    assert_eq!(read_exact(&mut r, 8), &data[1008..1016]);
    let source = r.into_source();
    assert_eq!(source.opens, 1);
    assert_eq!(source.offsets, [0]);

    let mut r = RangeReader::new(MemSource::new(data.clone()));
    read_exact(&mut r, 8);
    r.seek(SeekTo::Current(1000)).unwrap();
    read_exact(&mut r, 8);
    r.seek(SeekTo::Start(250_000)).unwrap();
    assert_eq!(read_exact(&mut r, 8), &data[250_000..250_008]);
    let source = r.into_source();
    assert_eq!(source.opens, 2);
    assert_eq!(source.offsets, [0, 250_000]);
}

#[test]
fn past_the_end_there_is_nothing_to_read() {
    let data = pattern(1_000);
    let mut r = RangeReader::new(MemSource::new(data.clone()));
    for to in [1_000, 1_001, u64::MAX] {
        assert_eq!(r.seek(SeekTo::Start(to)).unwrap(), to);
        assert!(r.read(16).unwrap().is_empty());
        assert_eq!(r.position(), to);
    }
    assert!(matches!(r.seek(SeekTo::Current(1)), Err(SeekError::OutOfRange)));
    r.seek(SeekTo::Start(999)).unwrap();
    assert_eq!(r.read(16).unwrap(), &data[999..]);
}

#[test]
fn seeks_and_reads_track_a_slice() {
    let len = 70_000usize;
    let data = pattern(len);
    let mut reader = RangeReader::new(MemSource::new(data.clone()));
    let mut pos: u64 = 0;
    let mut state: u64 = 7;
    for round in 0..200u64 {
        state = state.wrapping_mul(6364136223846793005).wrapping_add(1442695040888963407);
        let magnitude = (state >> 33) as i64 % 100_000;
        let take = (state >> 20) as usize % 3_000;
        let (to, want) = match round % 3 {
            0 => {
                let o = magnitude as u64 % (len as u64 + 1);
                (SeekTo::Start(o), Some(o))
            }
            1 => {
                let d = magnitude - 50_000;
                (SeekTo::Current(d), pos.checked_add_signed(d))
            }
            _ => {
                let d = -(magnitude % (len as i64 + 1));
                (SeekTo::End(d), (len as u64).checked_add_signed(d))
            }
        };
        match want {
            Some(want) => {
                assert_eq!(reader.seek(to).expect("a representable target must seek"), want);
                pos = want;
            }
            None => assert!(matches!(reader.seek(to), Err(SeekError::OutOfRange))),
        }
        assert_eq!(reader.position(), pos);

        let mut got = Vec::new();
        while got.len() < take {
            let bytes = reader.read(take - got.len()).unwrap();
            if bytes.is_empty() {
                break;
            }
            got.extend(bytes);
        }
        let lo = (pos as usize).min(len);
        let hi = (pos as usize + take).min(len);
        assert_eq!(&got[..], &data[lo.min(hi)..hi]);
        pos += got.len() as u64;
        assert_eq!(reader.position(), pos);
    }
}

#[test]
fn a_skip_is_one_chunk_at_most() {
    assert_eq!(SKIP_THRESHOLD, CHUNK_CIPHERTEXT);
    assert!(MemSource::new(Vec::new()).is_empty());
}

// ---- envelope ---------------------------------------------------------------------------------

fn header_of(env: &Envelope) -> Vec<u8> {
    let mut ct = env.encrypt(&[]).unwrap();
    ct.truncate(ct.len() - (PAYLOAD_NONCE + TAG) as usize);
    ct
}

#[test]
fn hlen_is_constant() {
    let env = Envelope::new("hlen pinning test passphrase").unwrap();
    let hlen = header_of(&env).len() as u64;
    assert_eq!(hlen, HLEN, "age scrypt header length changed to {hlen}; bump the trailer version");
}

#[test]
fn the_emitted_stanza_carries_the_pinned_work_factor() {
    assert_eq!(PINNED_WORK_FACTOR, 1, "the pin is the smallest value age accepts; 0 panics");
    let env = Envelope::new("work factor pinning test passphrase").unwrap();
    let header = String::from_utf8(header_of(&env)).expect("an age header is ASCII text");
    let stanza = header
        .lines()
        .find(|line| line.starts_with("-> scrypt "))
        .unwrap_or_else(|| panic!("no scrypt stanza in the emitted header:\n{header}"));
    let fields: Vec<&str> = stanza.split(' ').collect();
    assert_eq!(fields.len(), 4, "unexpected stanza shape: {stanza:?}");
    assert_eq!(
        fields[3],
        PINNED_WORK_FACTOR.to_string(),
        "the emitted work factor is not the pinned one: {stanza:?}"
    );
}

#[test]
fn a_file_over_the_work_factor_bound_is_refused() {
    let passphrase = "work factor bound test passphrase";
    let secret = age::secrecy::SecretString::from(passphrase.to_owned());
    let mut recipient = age::scrypt::Recipient::new(secret);
    recipient.set_work_factor(PINNED_WORK_FACTOR + 1);
    let ct = age::encrypt(&recipient, b"costlier than we ever emit").unwrap();

    let env = Envelope::new(passphrase).unwrap();
    assert!(
        env.decrypt(&ct).is_err(),
        "a work factor above the bound must be refused, not honoured"
    );
}

#[test]
fn envelope_errors() {
    match Envelope::new("") {
        Err(Error::Identity(why)) => assert_eq!(why, "empty passphrase"),
        _ => panic!("an empty passphrase must be refused"),
    }
    assert!(matches!(envelope().decrypt(b"not an age file"), Err(Error::Decrypt(_))));
}

#[test]
fn ciphertext_length_matches_closed_form() {
    let env = envelope();
    for len in [
        0usize,
        1,
        CHUNK_PLAINTEXT as usize - 1,
        CHUNK_PLAINTEXT as usize,
        CHUNK_PLAINTEXT as usize + 1,
        2 * CHUNK_PLAINTEXT as usize,
        2 * CHUNK_PLAINTEXT as usize + 17,
    ] {
        let ct = env.encrypt(&pattern(len)).unwrap();
        assert_eq!(
            ct.len() as u64,
            ciphertext_len(len as u64, HLEN),
            "closed-form ciphertext_len wrong for plaintext len {len}"
        );
        assert_eq!(env.decrypt(&ct).unwrap(), pattern(len));
    }
}

#[test]
fn corruption_fails_authentication() {
    let env = envelope();
    let pt = pattern(3 * CHUNK_PLAINTEXT as usize / 2);
    let ct = env.encrypt(&pt).unwrap();
    let h = HLEN as usize;
    for &at in &[h + 20, h + 16 + CHUNK_CIPHERTEXT as usize + 20, ct.len() - 1] {
        let mut bad = ct.clone();
        bad[at] ^= 0x01;
        assert!(env.decrypt(&bad).is_err(), "corruption at byte {at} not detected");
    }
}

#[test]
fn truncation_fails() {
    let env = envelope();
    let ct = env.encrypt(&pattern(CHUNK_PLAINTEXT as usize + 100)).unwrap();
    for cut in [ct.len() - 1, ct.len() - 100 - 16] {
        assert!(env.decrypt(&ct[..cut]).is_err(), "truncation to {cut} bytes not detected");
    }
}

#[test]
fn cross_file_chunk_splice_fails() {
    let env = envelope();
    let pt = pattern(2 * CHUNK_PLAINTEXT as usize);
    let a = env.encrypt(&pt).unwrap();
    let b = env.encrypt(&pt).unwrap();
    let h = HLEN as usize;
    let mut spliced = a.clone();
    spliced[h + 16..h + 16 + CHUNK_CIPHERTEXT as usize]
        .copy_from_slice(&b[h + 16..h + 16 + CHUNK_CIPHERTEXT as usize]);
    assert!(env.decrypt(&spliced).is_err(), "cross-file chunk splice not detected");
}

#[test]
fn chunk_reorder_fails() {
    let env = envelope();
    let ct = env.encrypt(&pattern(3 * CHUNK_PLAINTEXT as usize)).unwrap();
    let start = HLEN as usize + 16;
    let chunk = CHUNK_CIPHERTEXT as usize;
    let mut swapped = ct.clone();
    swapped[start..start + chunk].copy_from_slice(&ct[start + chunk..start + 2 * chunk]);
    swapped[start + chunk..start + 2 * chunk].copy_from_slice(&ct[start..start + chunk]);
    assert!(env.decrypt(&swapped).is_err(), "chunk reorder not detected");
}

#[test]
fn wrong_identity_fails() {
    let ct = envelope().encrypt(&pattern(100)).unwrap();
    assert!(Envelope::new("another passphrase").unwrap().decrypt(&ct).is_err());
}

fn identity() -> age::scrypt::Identity {
    let secret = age::secrecy::SecretString::from(PASSPHRASE.to_owned());
    let mut identity = age::scrypt::Identity::new(secret);
    identity.set_max_work_factor(PINNED_WORK_FACTOR);
    identity
}

fn decryptor<R: Read>(reader: R) -> age::stream::StreamReader<R> {
    let identity = identity();
    age::Decryptor::new(reader)
        .unwrap()
        .decrypt(std::iter::once(&identity as &dyn age::Identity))
        .unwrap()
}

#[test]
fn concatenated_parts_decrypt_in_one_stream() {
    let env = envelope();
    let plens = [
        0u64,
        1,
        CHUNK_PLAINTEXT - 1,
        CHUNK_PLAINTEXT,
        CHUNK_PLAINTEXT + 7,
        2 * CHUNK_PLAINTEXT,
    ];
    let mut blob = Vec::new();
    let mut ct_lens = Vec::new();
    let mut expected = Vec::new();
    for (i, &plen) in plens.iter().enumerate() {
        let pt: Vec<u8> = (0..plen).map(|b| (b as usize + i) as u8).collect();
        let part = env.encrypt(&pt).unwrap();
        assert_eq!(part.len() as u64, ciphertext_len(plen, HLEN));
        ct_lens.push(part.len() as u64);
        blob.extend_from_slice(&part);
        expected.extend_from_slice(&pt);
    }

    let mut cursor = std::io::Cursor::new(blob);
    let mut got = Vec::new();
    for &len in &ct_lens {
        let mut dec = decryptor(Read::by_ref(&mut cursor).take(len));
        dec.read_to_end(&mut got).unwrap();
    }
    assert_eq!(got, expected);
    assert_eq!(cursor.position(), cursor.get_ref().len() as u64);
}

/// A `RangeReader` as age reads it.
struct Seekable<S: RangeSource>(RangeReader<S>);

impl<S: RangeSource> Read for Seekable<S>
where
    <S::Reader as RangeRead>::Error: std::fmt::Debug,
{
    fn read(&mut self, buf: &mut [u8]) -> std::io::Result<usize> {
        let got = self.0.read(buf.len()).unwrap();
        buf[..got.len()].copy_from_slice(&got);
        Ok(got.len())
    }
}

impl<S: RangeSource> Seek for Seekable<S>
where
    <S::Reader as RangeRead>::Error: std::fmt::Debug,
{
    fn seek(&mut self, target: SeekFrom) -> std::io::Result<u64> {
        let to = match target {
            SeekFrom::Start(o) => SeekTo::Start(o),
            SeekFrom::End(d) => SeekTo::End(d),
            SeekFrom::Current(d) => SeekTo::Current(d),
        };
        self.0.seek(to).map_err(|_| std::io::Error::other("seek"))
    }
}

#[test]
fn ranged_read_via_seek() {
    let env = envelope();
    let pt = pattern(3 * CHUNK_PLAINTEXT as usize + 12345);
    let ct = env.encrypt(&pt).unwrap();

    for (a, b) in [
        (0u64, 10u64),
        (CHUNK_PLAINTEXT - 5, CHUNK_PLAINTEXT + 5),
        (2 * CHUNK_PLAINTEXT + 7, 3 * CHUNK_PLAINTEXT),
        (pt.len() as u64 - 20, pt.len() as u64),
    ] {
        let mut r = decryptor(Seekable(RangeReader::new(MemSource::new(ct.clone()))));
        r.seek(SeekFrom::Start(a)).unwrap();
        let mut got = vec![0u8; (b - a) as usize];
        r.read_exact(&mut got).unwrap();
        assert_eq!(&got[..], &pt[a as usize..b as usize], "range [{a}, {b}) mismatch");
    }
}

struct Window(std::io::Cursor<Vec<u8>>);

impl RangeRead for Window {
    type Error = ();
    fn rest(&self) -> Content {
        unreachable!()
    }
    fn read(&mut self, max: usize) -> Result<Vec<u8>, ()> {
        let mut out = Vec::new();
        Read::by_ref(&mut self.0).take(max as u64).read_to_end(&mut out).map_err(|_| ())?;
        Ok(out)
    }
}

struct Restricted {
    data: Rc<Vec<u8>>,
    allowed_from: u64,
    allowed_to: u64,
    header_end: u64,
}

impl RangeSource for Restricted {
    type Reader = Window;
    fn content(&self) -> Content {
        unreachable!()
    }
    fn len(&self) -> u64 {
        self.data.len() as u64
    }
    fn open_at(&mut self, offset: u64) -> Result<Window, ()> {
        assert!(
            offset < self.header_end || (offset >= self.allowed_from && offset < self.allowed_to),
            "read outside computed covering range: offset {offset}"
        );
        Ok(Window(std::io::Cursor::new(self.data[offset as usize..].to_vec())))
    }
}

#[test]
fn ciphertext_range_covers_decryption_needs() {
    let env = envelope();
    let pt = pattern(2 * CHUNK_PLAINTEXT as usize + 999);
    let ct = Rc::new(env.encrypt(&pt).unwrap());
    let h = HLEN;

    let (a, b) = (CHUNK_PLAINTEXT + 100, 2 * CHUNK_PLAINTEXT + 200);
    let cover = ciphertext_range(a..b, pt.len() as u64, h);
    assert_eq!(cover.start, chunk_ciphertext_offset(1, h));

    let src = Restricted {
        data: ct.clone(),
        allowed_from: cover.start,
        allowed_to: cover.end,
        header_end: h + 16,
    };
    let mut r = decryptor(Seekable(RangeReader::new(src)));
    r.seek(SeekFrom::Start(a)).unwrap();
    let mut got = vec![0u8; (b - a) as usize];
    r.read_exact(&mut got).unwrap();
    assert_eq!(&got[..], &pt[a as usize..b as usize]);
}

// ---- trailer ----------------------------------------------------------------------------------

fn key() -> TrailerKey {
    TrailerKey::derive("a-256-bit-random-master-passphrase-stand-in")
}

fn single(plen: u64) -> trailer::Footer {
    trailer::Footer {
        kind: trailer::FooterKind::Single,
        count: 1,
        plen,
        mtime_ms: 1_700_000_000_000,
        md5: [0xab; 16],
        checksum: None,
    }
}

#[test]
fn facts_size_is_minimal_and_unpadded() {
    assert_eq!(FACTS_LEN, 38);
    assert_eq!(single_trailer_len(None), 56);
    assert_eq!(single_trailer_len(Some(ChecksumAlgorithm::Crc32)), 60);
    assert_eq!(single_trailer_len(Some(ChecksumAlgorithm::Sha256)), 88);
}

#[test]
fn single_roundtrip() {
    let k = key();
    let body_ct = ciphertext_len(500, HLEN);
    let f = single(500);
    let blob = encode_trailer(&k, "obj/one", body_ct, &f, &[]);
    let object_len = body_ct + blob.len() as u64;

    let tail = decode_tail(&k, "obj/one", object_len, &blob).expect("verifies");
    assert_eq!(tail.footer, f);
    assert_eq!(tail.body_ct_len, body_ct);
    assert!(tail.windows.is_empty());
}

#[test]
fn checksums_use_only_their_digest_length() {
    let k = key();
    let body_ct = ciphertext_len(500, HLEN);
    for algorithm in [
        ChecksumAlgorithm::Crc32,
        ChecksumAlgorithm::Crc32c,
        ChecksumAlgorithm::Crc64Nvme,
        ChecksumAlgorithm::Sha1,
        ChecksumAlgorithm::Sha256,
    ] {
        let mut footer = single(500);
        footer.checksum = StoredChecksum::new(
            algorithm,
            ChecksumKind::FullObject,
            vec![algorithm as u8 + 1; algorithm.digest_len()],
        );
        let blob = encode_trailer(&k, "obj/checksum", body_ct, &footer, &[]);
        assert_eq!(blob.len(), single_trailer_len(Some(algorithm)));

        let decoded =
            decode_tail(&k, "obj/checksum", body_ct + blob.len() as u64, &blob).expect("verifies");
        assert_eq!(decoded.footer, footer);

        let mut tampered = blob;
        tampered[0] ^= 1;
        assert!(decode_tail(&k, "obj/checksum", body_ct + tampered.len() as u64, &tampered)
            .is_none());
    }
    assert!(StoredChecksum::new(ChecksumAlgorithm::Sha1, ChecksumKind::Composite, vec![0; 4])
        .is_none());
}

#[test]
fn composite_roundtrip_and_tiling() {
    let k = key();
    let plens = [5 * CHUNK_PLAINTEXT + 3, CHUNK_PLAINTEXT, 42];
    let mut table = Vec::new();
    let mut acc = 0u64;
    for &p in &plens {
        acc += ciphertext_len(p, HLEN);
        table.push(acc);
    }
    let body_ct = acc;
    let f = trailer::Footer {
        kind: trailer::FooterKind::Composite,
        count: plens.len() as u32,
        plen: plens.iter().sum(),
        mtime_ms: 1,
        md5: [0x11; 16],
        checksum: StoredChecksum::new(
            ChecksumAlgorithm::Sha256,
            ChecksumKind::Composite,
            vec![0x22; 32],
        ),
    };
    let blob = encode_trailer(&k, "obj/multi", body_ct, &f, &table);
    let object_len = body_ct + blob.len() as u64;

    let tail = decode_tail(&k, "obj/multi", object_len, &blob).expect("verifies");
    assert_eq!(tail.footer, f);
    assert_eq!(tail.plens, plens);
    assert_eq!(tail.windows.len(), 3);
    assert_eq!(tail.windows[0].start, 0);
    assert_eq!(tail.windows.last().unwrap().end, body_ct);
}

#[test]
fn tamper_and_foreign_fail_to_verify() {
    let k = key();
    let body_ct = ciphertext_len(500, HLEN);
    let blob = encode_trailer(&k, "obj/one", body_ct, &single(500), &[]);
    let object_len = body_ct + blob.len() as u64;

    let other = TrailerKey::derive("a-different-passphrase");
    assert!(decode_tail(&other, "obj/one", object_len, &blob).is_none());
    assert!(decode_tail(&k, "obj/two", object_len, &blob).is_none());
    let mut bad = blob.clone();
    let i = bad.len() - VERSION_LEN - TAG_LEN - 1;
    bad[i] ^= 0x01;
    assert!(decode_tail(&k, "obj/one", object_len, &bad).is_none());
    assert!(decode_tail(&k, "obj/one", 999, &vec![0u8; MAX_TAIL_LEN]).is_none());
}

#[test]
fn trailer_client_etag_forms() {
    let mut f = single(0);
    assert_eq!(f.client_etag(), "ab".repeat(16));
    f.kind = trailer::FooterKind::Composite;
    f.count = 3;
    assert_eq!(f.client_etag(), format!("{}-3", "ab".repeat(16)));
}

#[test]
fn trailer_trailing_bytes_break_decryption() {
    let env = Envelope::new("trailing-bytes test passphrase").unwrap();
    trailing_bytes_break(&env, MIN_SINGLE_TRAILER_LEN);
}
