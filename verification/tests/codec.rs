use std::cell::RefCell;
use std::io;
use std::pin::Pin;
use std::rc::Rc;
use std::task::{Context, Poll};

use futures::io::AsyncWrite;
use hypha::codec::composite::{
    decrypt_composite_full, decrypt_full, open_range, CompositeReader, PartSegment, PartWindow,
    ReadAction, ReadEvent, SegmentRead,
};
use hypha::codec::encrypt::{
    encrypt_blob_with_etag, encrypt_stream, Action, DigestMismatch, EncryptOptions,
    EncryptStream, Event, Failure, Finished, ObjectDigests, RequestedChecksum, SealError,
    SingleTrailer,
};
use hypha::codec::gate::{CipherGate, HOLDBACK};
use hypha::codec::tee::{BranchAction, Side, Sourced, Tee};
use hypha::error::Error;
use hypha::format::envelope::{Envelope, PINNED_WORK_FACTOR};
use hypha::format::offset::{ciphertext_len, CHUNK_CIPHERTEXT, CHUNK_PLAINTEXT, HLEN};
use hypha::format::trailer::{
    decode_tail, ChecksumAlgorithm, ChecksumKind, StoredChecksum, TrailerKey,
};
use md5::Digest;

const PASSPHRASE: &str = "codec unit test passphrase";

fn envelope() -> Envelope {
    Envelope::new(PASSPHRASE).unwrap()
}

fn single(object_key: &str) -> SingleTrailer {
    SingleTrailer {
        trailer_key: TrailerKey::derive(PASSPHRASE),
        object_key: object_key.to_string(),
        mtime_ms: 1_700_000_000_000,
        checksum: None,
    }
}

fn framed_options(object_key: &str) -> EncryptOptions {
    EncryptOptions { trailer: Some(single(object_key)), ..EncryptOptions::default() }
}

fn pattern(len: usize) -> Vec<u8> {
    (0..len).map(|i| (i % 251) as u8).collect()
}

fn md5_bytes(data: &[u8]) -> [u8; 16] {
    md5::Md5::digest(data).into()
}

// ---- a body through the cipher ----------------------------------------------------------------

/// The cipher's output, which waits in a buffer.
struct Sink(Rc<RefCell<CipherGate>>);

impl AsyncWrite for Sink {
    fn poll_write(self: Pin<&mut Self>, _: &mut Context<'_>, buf: &[u8]) -> Poll<io::Result<usize>> {
        if self.0.borrow_mut().offer(buf) {
            Poll::Ready(Ok(buf.len()))
        } else {
            Poll::Pending
        }
    }

    fn poll_flush(self: Pin<&mut Self>, _: &mut Context<'_>) -> Poll<io::Result<()>> {
        Poll::Ready(Ok(()))
    }

    fn poll_close(self: Pin<&mut Self>, _: &mut Context<'_>) -> Poll<io::Result<()>> {
        Poll::Ready(Ok(()))
    }
}

/// What a source has when it is asked.
enum Had {
    Chunk(Vec<u8>),
    Nothing,
    Failure,
}

fn source(data: &[u8], chunk: usize, jitter: bool) -> Vec<Had> {
    let mut had = Vec::new();
    for piece in data.chunks(chunk) {
        if jitter {
            had.push(Had::Nothing);
        }
        had.push(Had::Chunk(piece.to_vec()));
    }
    had
}

#[derive(Debug)]
struct Ran {
    frames: Vec<Vec<u8>>,
    digests: Option<ObjectDigests>,
    mismatch: Option<DigestMismatch>,
    failure: Option<Failure>,
    peak: usize,
}

impl Ran {
    fn body(&self) -> Vec<u8> {
        self.frames.concat()
    }
}

/// Runs a body through age and the stream's decisions, as a server does.
fn run(had: Vec<Had>, plen: u64, options: EncryptOptions) -> (u64, Ran) {
    let (len, mut stream) = EncryptStream::open(plen, options);
    let gate = Rc::new(RefCell::new(CipherGate::new()));
    let secret = age::secrecy::SecretString::from(PASSPHRASE.to_string());
    let mut recipient = age::scrypt::Recipient::new(secret);
    recipient.set_work_factor(PINNED_WORK_FACTOR);
    let recipients = [&recipient as &dyn age::Recipient];
    let encryptor = age::Encryptor::with_recipients(recipients.into_iter()).unwrap();
    let mut writer =
        futures::executor::block_on(encryptor.wrap_async_output(Sink(gate.clone()))).unwrap();
    let mut cx = Context::from_waker(futures::task::noop_waker_ref());

    let mut had = had.into_iter();
    let mut ran =
        Ran { frames: Vec::new(), digests: None, mismatch: None, failure: None, peak: 0 };
    let mut event = Event::Polled;
    loop {
        ran.peak = ran.peak.max(gate.borrow().len());
        let action = stream.step(&mut gate.borrow_mut(), event);
        event = match action {
            Action::PollSource => match had.next() {
                Some(Had::Chunk(chunk)) => Event::SourceChunk(chunk),
                Some(Had::Nothing) => Event::SourcePending,
                Some(Had::Failure) => Event::SourceFailed,
                None => Event::SourceEnded,
            },
            Action::PollWrite => {
                match Pin::new(&mut writer).poll_write(&mut cx, stream.inflight()) {
                    Poll::Ready(Ok(n)) => Event::Wrote(n),
                    Poll::Ready(Err(_)) => Event::WriteFailed,
                    Poll::Pending => Event::Stalled,
                }
            }
            Action::PollClose => match Pin::new(&mut writer).poll_close(&mut cx) {
                Poll::Ready(Ok(())) => Event::Closed,
                Poll::Ready(Err(_)) => Event::CloseFailed,
                Poll::Pending => Event::Stalled,
            },
            Action::Finish => {
                match stream.finish(&mut gate.borrow_mut()) {
                    Finished::Tail(bytes, digests) => {
                        ran.frames.push(bytes);
                        ran.digests = Some(digests);
                    }
                    Finished::Mismatch(m) => ran.mismatch = Some(m),
                    Finished::NoFinalChunk => panic!("the cipher writes at its close"),
                }
                Event::Polled
            }
            Action::Yield(bytes) => {
                ran.frames.push(bytes);
                Event::Polled
            }
            Action::Wait => Event::Polled,
            Action::Fail(failure) => {
                ran.failure = Some(failure);
                return (len, ran);
            }
            Action::End => return (len, ran),
        };
    }
}

#[test]
fn the_gate_takes_a_drained_write_and_makes_a_second_chunk_wait() {
    let chunk = vec![0u8; CHUNK_CIPHERTEXT as usize];
    let mut gate = CipherGate::new();
    assert!(gate.offer(&[0u8; 149]));
    assert!(gate.offer(&[0u8; 16]));

    // A full chunk and the withheld byte.
    gate.take_all();
    assert!(gate.offer(&vec![0u8; CHUNK_CIPHERTEXT as usize + HOLDBACK]));
    assert!(!gate.offer(&[0u8; 32]));

    // Drained to the withheld byte, which must not count against the budget.
    assert_eq!(gate.take_released().map(|out| out.len()), Some(CHUNK_CIPHERTEXT as usize));
    assert_eq!(gate.len(), HOLDBACK);
    assert!(gate.offer(&chunk));
    assert_eq!(gate.len(), CHUNK_CIPHERTEXT as usize + HOLDBACK);
}

#[test]
fn a_framed_body_is_exactly_as_long_as_it_declared() {
    let env = envelope();
    for plen in [0usize, 1, 65_535, 65_536, 65_537, 200_000] {
        let plaintext = pattern(plen);
        let (body_len, ran) =
            run(source(&plaintext, 7_000, true), plen as u64, framed_options("k"));
        let framed = ran.body();
        assert_eq!(framed.len() as u64, body_len, "plen {plen}");

        let tail = decode_tail(&TrailerKey::derive(PASSPHRASE), "k", body_len, &framed)
            .expect("the framed trailer must authenticate");
        let md5 = md5_bytes(&plaintext);
        assert_eq!(tail.footer.plen, plen as u64);
        assert_eq!(tail.footer.md5, md5);
        assert_eq!(ran.digests.unwrap().etag, hex::encode(md5));
        assert_eq!(env.decrypt(&framed[..tail.body_ct_len as usize]).unwrap(), plaintext);
    }
}

#[test]
fn the_gate_never_holds_more_than_one_ciphertext_chunk() {
    let plaintext = vec![7u8; 5 * CHUNK_PLAINTEXT as usize + 3];
    let (_, ran) = run(
        source(&plaintext, plaintext.len(), false),
        plaintext.len() as u64,
        EncryptOptions::default(),
    );
    let peak = ran.frames.iter().map(|f| f.len()).max().unwrap();
    assert!(peak <= CHUNK_CIPHERTEXT as usize + HOLDBACK, "the buffer reached {peak} bytes");
    assert!(ran.peak <= CHUNK_CIPHERTEXT as usize + HLEN as usize + 16 + HOLDBACK);
}

#[test]
fn a_digest_mismatch_ends_the_body_short_of_its_declared_length() {
    let plaintext = vec![5u8; 100_000];
    for trailer in [None, Some(single("k"))] {
        let options = EncryptOptions {
            trailer,
            expected_md5: Some([0u8; 16]),
            ..EncryptOptions::default()
        };
        let (body_len, ran) =
            run(source(&plaintext, 9_000, true), plaintext.len() as u64, options);
        let emitted = ran.body().len() as u64;
        assert!(emitted < body_len, "{emitted} of {body_len} bytes emitted");
        assert!(emitted < ciphertext_len(plaintext.len() as u64, HLEN));
        assert_eq!(ran.mismatch, Some(DigestMismatch::Md5));
        assert!(ran.digests.is_none());
    }
}

#[test]
fn an_object_that_fits_one_age_chunk_is_one_frame() {
    let plaintext = vec![4u8; 40_000];
    let (body_len, ran) =
        run(source(&plaintext, 4_096, true), plaintext.len() as u64, framed_options("k"));
    assert_eq!(ran.frames.len(), 1, "{} frames", ran.frames.len());
    assert_eq!(ran.frames[0].len() as u64, body_len);
}

#[test]
fn a_matching_digest_is_not_reported_as_a_mismatch() {
    let plaintext = vec![9u8; 70_000];
    let options = EncryptOptions {
        expected_md5: Some(md5_bytes(&plaintext)),
        ..EncryptOptions::default()
    };
    let (body_len, ran) = run(source(&plaintext, 4_096, true), plaintext.len() as u64, options);
    assert_eq!(ran.body().len() as u64, body_len);
    assert!(ran.digests.is_some());
    assert!(ran.mismatch.is_none());
}

#[test]
fn a_source_failure_fails_the_body_and_withholds_the_etag() {
    let (_, ran) = run(vec![Had::Failure], 10, EncryptOptions::default());
    assert_eq!(ran.failure, Some(Failure::Source));
    assert!(ran.digests.is_none());
}

#[test]
fn a_whole_blob_is_sealed_as_a_stream_is() {
    let env = envelope();
    let plaintext = pattern(70_001);
    let sealed =
        encrypt_blob_with_etag(&env, &plaintext, framed_options("k")).ok().unwrap();
    assert_eq!(sealed.body.len() as u64, sealed.len);
    assert_eq!(sealed.digests.etag, hex::encode(md5_bytes(&plaintext)));
    let (streamed, body) = encrypt_stream(&env, &plaintext, single("k")).ok().unwrap();
    assert_eq!(streamed, sealed.len);
    assert_eq!(body.len() as u64, streamed);
    let tail = decode_tail(&TrailerKey::derive(PASSPHRASE), "k", streamed, &body).unwrap();
    assert_eq!(env.decrypt(&body[..tail.body_ct_len as usize]).unwrap(), plaintext);
}

#[test]
fn a_blob_whose_digest_differs_is_refused() {
    let options =
        EncryptOptions { expected_md5: Some([1u8; 16]), ..EncryptOptions::default() };
    assert!(matches!(
        encrypt_blob_with_etag(&envelope(), b"data", options),
        Err(SealError::Mismatch(DigestMismatch::Md5))
    ));
    let options = EncryptOptions {
        checksum: requested(ChecksumAlgorithm::Crc32, Some("01020304")),
        ..EncryptOptions::default()
    };
    assert!(matches!(
        encrypt_blob_with_etag(&envelope(), b"data", options),
        Err(SealError::Mismatch(DigestMismatch::Checksum))
    ));
    // The MD5 is judged first.
    let options = EncryptOptions {
        expected_md5: Some([1u8; 16]),
        checksum: requested(ChecksumAlgorithm::Crc32, Some("01020304")),
        ..EncryptOptions::default()
    };
    assert!(matches!(
        encrypt_blob_with_etag(&envelope(), b"data", options),
        Err(SealError::Mismatch(DigestMismatch::Md5))
    ));
}

fn requested(algorithm: ChecksumAlgorithm, declared: Option<&str>) -> Option<RequestedChecksum> {
    Some(RequestedChecksum { algorithm, declared: declared.map(|d| hex::decode(d).unwrap()) })
}

/// The checksums of the nine digits, by algorithm.
const OF_THE_DIGITS: [(ChecksumAlgorithm, &str); 5] = [
    (ChecksumAlgorithm::Crc32, "cbf43926"),
    (ChecksumAlgorithm::Crc32c, "e3069283"),
    (ChecksumAlgorithm::Crc64Nvme, "ae8b14860a799888"),
    (ChecksumAlgorithm::Sha1, "f7c3bc1d808e04732adf679965ccc34ca7ae3441"),
    (
        ChecksumAlgorithm::Sha256,
        "15e2b0d3c33891ebb0f1ef609ec419420c20e320ce94c65fbc8c3312448eb225",
    ),
];

#[test]
fn a_requested_checksum_is_taken_of_the_body_and_stored_with_it() {
    for (algorithm, hex) in OF_THE_DIGITS {
        for declared in [None, Some(hex)] {
            let stored = StoredChecksum::new(
                algorithm,
                ChecksumKind::FullObject,
                hex::decode(hex).unwrap(),
            );
            let options = || EncryptOptions {
                trailer: Some(single("k")),
                checksum: requested(algorithm, declared),
                ..EncryptOptions::default()
            };
            let sealed = encrypt_blob_with_etag(&envelope(), b"123456789", options()).ok().unwrap();
            assert_eq!(sealed.digests.checksum, stored);
            assert_eq!(sealed.body.len() as u64, sealed.len);
            let key = TrailerKey::derive(PASSPHRASE);
            let tail = decode_tail(&key, "k", sealed.len, &sealed.body).unwrap();
            assert_eq!(tail.footer.checksum, stored);

            let (len, ran) = run(source(b"123456789", 2, true), 9, options());
            assert_eq!(ran.body().len() as u64, len);
            assert_eq!(ran.digests.as_ref().unwrap().checksum, stored);
            let tail = decode_tail(&key, "k", len, &ran.body()).unwrap();
            assert_eq!(tail.footer.checksum, stored);
        }
    }
}

#[test]
fn a_checksum_mismatch_ends_the_body_short_of_its_declared_length() {
    for (algorithm, hex) in OF_THE_DIGITS {
        let options = EncryptOptions {
            trailer: Some(single("k")),
            checksum: requested(algorithm, Some(hex)),
            ..EncryptOptions::default()
        };
        let (len, ran) = run(source(b"123456780", 4, false), 9, options);
        assert!((ran.body().len() as u64) < len);
        assert_eq!(ran.mismatch, Some(DigestMismatch::Checksum));
        assert!(ran.digests.is_none());
    }
}

#[test]
fn a_checksum_that_was_stamped_beforehand_stands_where_none_is_asked_for() {
    let stored =
        StoredChecksum::new(ChecksumAlgorithm::Crc32c, ChecksumKind::Composite, vec![9; 4]);
    let trailer = SingleTrailer { checksum: stored.clone(), ..single("k") };
    let options = EncryptOptions { trailer: Some(trailer), ..EncryptOptions::default() };
    let (len, ran) = run(source(b"body", 4, false), 4, options);
    assert_eq!(ran.body().len() as u64, len);
    assert_eq!(ran.digests.as_ref().unwrap().checksum, stored);
}

// ---- reading back -----------------------------------------------------------------------------

#[test]
fn a_whole_object_decrypts_without_reading_past_its_envelope() {
    let env = envelope();
    let plaintext = pattern(200_000);
    let mut object = env.encrypt(&plaintext).unwrap();
    let ct_len = object.len() as u64;
    object.extend_from_slice(&[0xAB; 120]);
    assert_eq!(decrypt_full(&env, &object, ct_len).unwrap(), plaintext);
}

#[test]
fn a_foreign_header_fails_the_get_rather_than_the_body() {
    let object = vec![0u8; 4096];
    let err = decrypt_full(&envelope(), &object, 4096)
        .expect_err("a body that is not an age file cannot open");
    assert!(matches!(err, Error::Crypto(_)), "{err:?}");
}

#[test]
fn a_composite_decrypts_across_its_part_boundaries() {
    let env = envelope();
    let parts: Vec<Vec<u8>> = vec![
        vec![1u8; 70_000],
        Vec::new(),
        vec![2u8; 3],
        vec![3u8; CHUNK_PLAINTEXT as usize],
        vec![4u8; 11],
    ];
    let mut object = Vec::new();
    let mut ct_lens = Vec::new();
    for part in &parts {
        let ct = env.encrypt(part).unwrap();
        ct_lens.push(ct.len() as u64);
        object.extend_from_slice(&ct);
    }
    assert_eq!(decrypt_composite_full(&env, &object, &ct_lens).unwrap(), parts.concat());
}

#[test]
fn a_composite_reader_opens_its_parts_in_order() {
    let mut reader = CompositeReader::new(vec![10, 20]);
    assert_eq!(reader.step(ReadEvent::Polled, true), ReadAction::Open(10));
    assert_eq!(reader.step(ReadEvent::Pending, true), ReadAction::Wait);
    assert_eq!(reader.step(ReadEvent::Polled, true), ReadAction::PollOpen);
    assert_eq!(reader.step(ReadEvent::Opened, true), ReadAction::PollRead);
    assert_eq!(reader.step(ReadEvent::Read(5), true), ReadAction::Filled(5));
    assert_eq!(reader.step(ReadEvent::Polled, true), ReadAction::PollRead);
    // The end of a part leads on to the next one.
    assert_eq!(reader.step(ReadEvent::Read(0), true), ReadAction::Open(20));
    assert_eq!(reader.step(ReadEvent::OpenFailed, true), ReadAction::Fail);
    assert_eq!(reader.step(ReadEvent::Polled, true), ReadAction::FailedBefore);
}

#[test]
fn a_part_window_ends_at_its_part() {
    let mut window = PartWindow { remaining: 5 };
    assert_eq!(window.cap(3), 3);
    window.took(3);
    assert_eq!(window.cap(3), 2);
    window.took(2);
    assert_eq!(window.cap(3), 0);
}

#[test]
fn a_segment_says_what_to_fetch_and_where_to_start() {
    assert_eq!(
        PartSegment::Whole(100..350).read(),
        SegmentRead { base: 100, len: 250, seek: 0, take: None }
    );
    assert_eq!(
        PartSegment::Partial { ct: 100..350, pt: 7..30 }.read(),
        SegmentRead { base: 100, len: 250, seek: 7, take: Some(23) }
    );
    assert_eq!(open_range(100, 50, 10), Some("bytes=110-149".to_string()));
    assert_eq!(open_range(100, 50, 50), None);
}

// ---- two readers of one body ------------------------------------------------------------------

/// Reads one branch on until it waits or ends; `None` where it waits.
fn turn(
    tee: &mut Tee,
    side: Side,
    source: &mut std::vec::IntoIter<Vec<u8>>,
    got: &mut Vec<u8>,
) -> Option<Result<(), String>> {
    loop {
        let mut action = tee.poll(side);
        if matches!(action, BranchAction::PollSource) {
            action = match source.next() {
                Some(chunk) => tee.feed(side, Sourced::Chunk(chunk)),
                None => tee.feed(side, Sourced::Ended),
            };
        }
        match action {
            BranchAction::Give(bytes) => got.extend_from_slice(&bytes),
            BranchAction::Park => return None,
            BranchAction::End => return Some(Ok(())),
            BranchAction::Fail(why) => return Some(Err(why)),
            BranchAction::PollSource => unreachable!(),
        }
    }
}

fn both_branches_agree(first: Side, second: Side) {
    let data = pattern(300_000);
    let chunks: Vec<Vec<u8>> = data.chunks(4_096).map(|c| c.to_vec()).collect();
    let mut source = chunks.into_iter();
    let mut tee = Tee::new();
    let (mut fast, mut slow) = (Vec::new(), Vec::new());
    let (mut fast_done, mut slow_done) = (false, false);
    while !fast_done || !slow_done {
        if !fast_done {
            fast_done = turn(&mut tee, first, &mut source, &mut fast).is_some();
        }
        if !slow_done {
            slow_done = turn(&mut tee, second, &mut source, &mut slow).is_some();
        }
    }
    assert_eq!(fast, data);
    assert_eq!(slow, data);
}

#[test]
fn both_branches_see_the_whole_body_when_the_first_lags() {
    both_branches_agree(Side::Second, Side::First);
}

#[test]
fn both_branches_see_the_whole_body_when_the_second_lags() {
    both_branches_agree(Side::First, Side::Second);
}

fn a_lost_sink_leaves_the_body_readable(dropped: Side, survivor: Side) {
    let data = pattern(300_000);
    let chunks: Vec<Vec<u8>> = data.chunks(4_096).map(|c| c.to_vec()).collect();
    let mut source = chunks.into_iter();
    let mut tee = Tee::new();
    tee.drop_branch(dropped);
    let mut got = Vec::new();
    assert_eq!(turn(&mut tee, survivor, &mut source, &mut got), Some(Ok(())));
    assert_eq!(got, data);
}

#[test]
fn dropping_the_first_sink_leaves_the_second_readable() {
    a_lost_sink_leaves_the_body_readable(Side::First, Side::Second);
}

#[test]
fn dropping_the_second_sink_leaves_the_first_readable() {
    a_lost_sink_leaves_the_body_readable(Side::Second, Side::First);
}

#[test]
fn a_sink_that_finishes_first_does_not_strand_a_slower_one() {
    let data = vec![7u8; 8_000];
    let mut source = vec![data.clone()].into_iter();
    let mut tee = Tee::new();
    assert!(matches!(tee.poll(Side::First), BranchAction::PollSource));
    let chunk = source.next().unwrap();
    assert!(matches!(
        tee.feed(Side::First, Sourced::Chunk(chunk)),
        BranchAction::Give(bytes) if bytes == data
    ));
    tee.drop_branch(Side::First);
    let mut got = Vec::new();
    assert_eq!(turn(&mut tee, Side::Second, &mut source, &mut got), Some(Ok(())));
    assert_eq!(got, data);
}

#[test]
fn a_sink_dropped_while_the_other_waits_on_it_unparks_it() {
    let data = pattern(300_000);
    let chunks: Vec<Vec<u8>> = data.chunks(4_096).map(|c| c.to_vec()).collect();
    let mut source = chunks.into_iter();
    let mut tee = Tee::new();
    let mut got = Vec::new();
    assert_eq!(turn(&mut tee, Side::First, &mut source, &mut got), None);
    let _ = tee.take_wake();
    tee.drop_branch(Side::Second);
    assert_eq!(tee.take_wake(), Some(Side::First));
    assert_eq!(turn(&mut tee, Side::First, &mut source, &mut got), Some(Ok(())));
    assert_eq!(got, data);
}

#[test]
fn a_source_failure_reaches_both_branches() {
    let mut tee = Tee::new();
    assert!(matches!(tee.poll(Side::First), BranchAction::PollSource));
    let why = "tee: reading the source failed mid-stream: the source hung up".to_string();
    assert!(matches!(
        tee.feed(Side::First, Sourced::Failed("the source hung up".to_string())),
        BranchAction::Fail(w) if w == why
    ));
    assert!(matches!(tee.poll(Side::Second), BranchAction::Fail(w) if w == why));
}

#[test]
fn an_end_and_a_failure_are_final_on_both_branches() {
    let mut tee = Tee::new();
    assert!(matches!(tee.poll(Side::First), BranchAction::PollSource));
    assert!(matches!(tee.feed(Side::First, Sourced::Ended), BranchAction::End));
    for side in [Side::Second, Side::First, Side::Second] {
        assert!(matches!(tee.poll(side), BranchAction::End));
    }

    let mut tee = Tee::new();
    assert!(matches!(tee.poll(Side::Second), BranchAction::PollSource));
    assert!(matches!(
        tee.feed(Side::Second, Sourced::Failed("gone".to_string())),
        BranchAction::Fail(_)
    ));
    for side in [Side::Second, Side::First, Side::Second] {
        assert!(matches!(
            tee.poll(side),
            BranchAction::Fail(w) if w == "tee: reading the source failed mid-stream: gone"
        ));
    }
}

#[test]
fn the_source_is_asked_on_only_once_both_branches_have_the_chunk() {
    let mut tee = Tee::new();
    assert!(matches!(tee.poll(Side::First), BranchAction::PollSource));
    // An empty chunk is no chunk: the source is asked again at once.
    assert!(matches!(
        tee.feed(Side::First, Sourced::Chunk(Vec::new())),
        BranchAction::PollSource
    ));
    assert!(matches!(
        tee.feed(Side::First, Sourced::Chunk(vec![1, 2])),
        BranchAction::Give(bytes) if bytes == [1, 2]
    ));
    assert!(matches!(tee.poll(Side::First), BranchAction::Park));
    assert!(matches!(tee.poll(Side::Second), BranchAction::Give(bytes) if bytes == [1, 2]));
    assert_eq!(tee.take_wake(), Some(Side::First));
    assert!(matches!(tee.poll(Side::First), BranchAction::PollSource));
}
