//! The commit journal format: checksummed full-image records, and the scan
//! that recovers the latest complete commit from the journal's bytes.
//!
//! A record is `MAGIC | version | length | checksum(payload) |
//! checksum(length) | payload | COMMIT`, the integers little-endian.
use crate::BustubxError;
use vstd::bytes::*;
use vstd::prelude::*;
use vstd::slice::*;

verus! {

/// Size of a record header in bytes.
pub const HEADER: usize = 40;

/// FNV-1a offset basis.
pub const FNV_OFFSET: u64 = 0xcbf29ce484222325u64;

/// FNV-1a prime.
pub const FNV_PRIME: u64 = 0x100000001b3u64;

/// The bytes `BUSTXJ01` that open every record.
pub open spec fn spec_magic() -> Seq<u8> {
    seq![66u8, 85u8, 83u8, 84u8, 88u8, 74u8, 48u8, 49u8]
}

/// The bytes `COMMIT01` that close every complete record.
pub open spec fn spec_commit() -> Seq<u8> {
    seq![67u8, 79u8, 77u8, 77u8, 73u8, 84u8, 48u8, 49u8]
}

/// One FNV-1a step: xor in the byte, then multiply modulo 2^64.
pub open spec fn fnv_step(hash: u64, byte: u8) -> u64 {
    (((hash ^ (byte as u64)) as nat * FNV_PRIME as nat) % 0x1_0000_0000_0000_0000nat) as u64
}

/// FNV-1a continued from `hash` over `bytes`.
pub open spec fn fnv_fold(hash: u64, bytes: Seq<u8>) -> u64
    decreases bytes.len(),
{
    if bytes.len() == 0 {
        hash
    } else {
        fnv_step(fnv_fold(hash, bytes.drop_last()), bytes.last())
    }
}

/// The journal checksum: 64-bit FNV-1a over the version and the payload
/// length (both little-endian) followed by the payload.
pub open spec fn spec_checksum(version: u64, payload: Seq<u8>) -> u64 {
    fnv_fold(
        FNV_OFFSET,
        spec_u64_to_le_bytes(version) + spec_u64_to_le_bytes(payload.len() as u64) + payload,
    )
}

/// The bytes of one complete record.
pub open spec fn spec_record(version: u64, payload: Seq<u8>) -> Seq<u8> {
    let length = spec_u64_to_le_bytes(payload.len() as u64);
    spec_magic() + spec_u64_to_le_bytes(version) + length + spec_u64_to_le_bytes(
        spec_checksum(version, payload),
    ) + spec_u64_to_le_bytes(spec_checksum(version, length)) + payload + spec_commit()
}

/// Why a journal cannot be recovered.
#[derive(Debug, Clone, Copy, PartialEq, Eq, Structural)]
pub enum JournalError {
    /// A record header does not start with the magic bytes.
    InvalidMagic,
    /// A record header's own checksum does not match.
    CorruptHeader,
    /// A complete record lacks its commit marker or its payload checksum fails.
    CorruptRecord,
    /// A version cannot follow the previous one without overflow.
    VersionOverflow,
    /// Versions do not count up from zero by one.
    NonContiguousVersions,
    /// The journal is not empty but holds no complete record.
    NoInitialRecord,
}

/// What recovery found: the length of the complete-record prefix, and the
/// latest complete record (version and payload).
pub type ScanOutcome = (int, Option<(u64, Seq<u8>)>);

/// The version that must follow `latest`, or `None` on overflow.
pub open spec fn next_version(latest: Option<(u64, Seq<u8>)>) -> Option<u64> {
    match latest {
        None => Some(0u64),
        Some((previous, _)) => if previous < u64::MAX {
            Some((previous + 1) as u64)
        } else {
            None
        },
    }
}

/// Recovery from position `cursor`, with `latest` the last complete record
/// seen before it. A record whose bytes run past the end (a torn tail) ends
/// the scan without error.
pub open spec fn scan_from(bytes: Seq<u8>, cursor: int, latest: Option<(u64, Seq<u8>)>) -> Result<
    ScanOutcome,
    JournalError,
>
    decreases bytes.len() - cursor,
{
    if cursor < 0 || bytes.len() - cursor < HEADER {
        Ok((cursor, latest))
    } else if bytes.subrange(cursor, cursor + 8) != spec_magic() {
        Err(JournalError::InvalidMagic)
    } else {
        let version = spec_u64_from_le_bytes(bytes.subrange(cursor + 8, cursor + 16));
        let length = spec_u64_from_le_bytes(bytes.subrange(cursor + 16, cursor + 24));
        let expected = spec_u64_from_le_bytes(bytes.subrange(cursor + 24, cursor + 32));
        let header_checksum = spec_u64_from_le_bytes(bytes.subrange(cursor + 32, cursor + 40));
        let available = bytes.len() - cursor - HEADER;
        if header_checksum != spec_checksum(version, spec_u64_to_le_bytes(length)) {
            Err(JournalError::CorruptHeader)
        } else if available < 8 || length > available - 8 {
            Ok((cursor, latest))
        } else {
            let end = cursor + HEADER + length;
            let payload = bytes.subrange(cursor + HEADER, end);
            if bytes.subrange(end, end + 8) != spec_commit() || spec_checksum(version, payload)
                != expected {
                Err(JournalError::CorruptRecord)
            } else {
                match next_version(latest) {
                    None => Err(JournalError::VersionOverflow),
                    Some(v) => if version != v {
                        Err(JournalError::NonContiguousVersions)
                    } else {
                        scan_from(bytes, end + 8, Some((version, payload)))
                    },
                }
            }
        }
    }
}

/// Recovery of a whole journal: the scan from the start, refusing a
/// non-empty journal without any complete record.
pub open spec fn spec_scan(bytes: Seq<u8>) -> Result<ScanOutcome, JournalError> {
    match scan_from(bytes, 0, None) {
        Ok((cursor, latest)) => if bytes.len() > 0 && latest is None {
            Err(JournalError::NoInitialRecord)
        } else {
            Ok((cursor, latest))
        },
        Err(e) => Err(e),
    }
}

/// The spec view of a recovered record.
pub open spec fn latest_view(latest: Option<(u64, Vec<u8>)>) -> Option<(u64, Seq<u8>)> {
    match latest {
        None => None,
        Some((v, p)) => Some((v, p@)),
    }
}

fn magic_bytes() -> (r: Vec<u8>)
    ensures
        r@ == spec_magic(),
{
    let r = vec![66u8, 85u8, 83u8, 84u8, 88u8, 74u8, 48u8, 49u8];
    assert(r@ =~= spec_magic());
    r
}

fn commit_bytes() -> (r: Vec<u8>)
    ensures
        r@ == spec_commit(),
{
    let r = vec![67u8, 79u8, 77u8, 77u8, 73u8, 84u8, 48u8, 49u8];
    assert(r@ =~= spec_commit());
    r
}

fn bytes_equal(a: &[u8], b: &[u8]) -> (r: bool)
    ensures
        r == (a@ == b@),
{
    if a.len() != b.len() {
        return false;
    }
    let mut i: usize = 0;
    while i < a.len()
        invariant
            a@.len() == b@.len(),
            i <= a@.len(),
            forall|j: int| 0 <= j < i ==> a@[j] == b@[j],
        decreases a@.len() - i,
    {
        if a[i] != b[i] {
            return false;
        }
        i = i + 1;
    }
    assert(a@ =~= b@);
    true
}

/// FNV-1a over `a` then `b` is the fold over their concatenation.
pub proof fn lemma_fnv_fold_concat(hash: u64, a: Seq<u8>, b: Seq<u8>)
    ensures
        fnv_fold(hash, a + b) == fnv_fold(fnv_fold(hash, a), b),
    decreases b.len(),
{
    if b.len() == 0 {
        assert(a + b =~= a);
    } else {
        lemma_fnv_fold_concat(hash, a, b.drop_last());
        assert((a + b).drop_last() =~= a + b.drop_last());
    }
}

fn fnv_extend(hash: u64, bytes: &[u8]) -> (r: u64)
    ensures
        r == fnv_fold(hash, bytes@),
{
    let mut h = hash;
    let mut i: usize = 0;
    while i < bytes.len()
        invariant
            i <= bytes@.len(),
            h == fnv_fold(hash, bytes@.subrange(0, i as int)),
        decreases bytes@.len() - i,
    {
        assert(bytes@.subrange(0, i + 1).drop_last() =~= bytes@.subrange(0, i as int));
        h = (h ^ (bytes[i] as u64)).wrapping_mul(FNV_PRIME);
        i = i + 1;
    }
    assert(bytes@.subrange(0, bytes@.len() as int) =~= bytes@);
    h
}

/// 64-bit FNV-1a over the version and payload length (little-endian)
/// followed by the payload.
pub fn checksum(version: u64, payload: &[u8]) -> (r: u64)
    ensures
        r == spec_checksum(version, payload@),
{
    let v = u64_to_le_bytes(version);
    let n = u64_to_le_bytes(payload.len() as u64);
    let h = fnv_extend(FNV_OFFSET, v.as_slice());
    let h = fnv_extend(h, n.as_slice());
    let h = fnv_extend(h, payload);
    proof {
        lemma_fnv_fold_concat(FNV_OFFSET, v@, n@);
        lemma_fnv_fold_concat(FNV_OFFSET, v@ + n@, payload@);
    }
    h
}

/// The bytes of one complete journal record.
pub fn record(version: u64, payload: &[u8]) -> (r: Vec<u8>)
    ensures
        r@ == spec_record(version, payload@),
{
    let length = u64_to_le_bytes(payload.len() as u64);
    let mut bytes = magic_bytes();
    let mut v = u64_to_le_bytes(version);
    bytes.append(&mut v);
    let mut len_copy = u64_to_le_bytes(payload.len() as u64);
    bytes.append(&mut len_copy);
    let mut c1 = u64_to_le_bytes(checksum(version, payload));
    bytes.append(&mut c1);
    let mut c2 = u64_to_le_bytes(checksum(version, length.as_slice()));
    bytes.append(&mut c2);
    let mut body = slice_to_vec(payload);
    bytes.append(&mut body);
    let mut tail = commit_bytes();
    bytes.append(&mut tail);
    bytes
}

/// Scan the records from the start of `bytes`; stops without error at a torn
/// tail.
fn scan_records(bytes: &[u8]) -> (r: Result<(usize, Option<(u64, Vec<u8>)>), JournalError>)
    ensures
        match r {
            Ok((cursor, latest)) => scan_from(bytes@, 0, None) == Ok::<ScanOutcome, JournalError>(
                (cursor as int, latest_view(latest)),
            ),
            Err(e) => scan_from(bytes@, 0, None) == Err::<ScanOutcome, JournalError>(e),
        },
{
    let magic = magic_bytes();
    let commit = commit_bytes();
    let mut cursor: usize = 0;
    let mut latest: Option<(u64, Vec<u8>)> = None;
    loop
        invariant
            cursor <= bytes@.len(),
            magic@ == spec_magic(),
            commit@ == spec_commit(),
            scan_from(bytes@, 0, None) == scan_from(bytes@, cursor as int, latest_view(latest)),
        decreases bytes@.len() - cursor,
    {
        if bytes.len() - cursor < HEADER {
            return Ok((cursor, latest));
        }
        if !bytes_equal(slice_subrange(bytes, cursor, cursor + 8), magic.as_slice()) {
            return Err(JournalError::InvalidMagic);
        }
        let version = u64_from_le_bytes(slice_subrange(bytes, cursor + 8, cursor + 16));
        let length = u64_from_le_bytes(slice_subrange(bytes, cursor + 16, cursor + 24));
        let expected = u64_from_le_bytes(slice_subrange(bytes, cursor + 24, cursor + 32));
        let header_checksum = u64_from_le_bytes(slice_subrange(bytes, cursor + 32, cursor + 40));
        let length_bytes = u64_to_le_bytes(length);
        if header_checksum != checksum(version, length_bytes.as_slice()) {
            return Err(JournalError::CorruptHeader);
        }
        let available = bytes.len() - cursor - HEADER;
        if available < 8 || length > (available - 8) as u64 {
            return Ok((cursor, latest));
        }
        let end = cursor + HEADER + length as usize;
        let payload = slice_subrange(bytes, cursor + HEADER, end);
        if !bytes_equal(slice_subrange(bytes, end, end + 8), commit.as_slice()) || checksum(
            version,
            payload,
        ) != expected {
            return Err(JournalError::CorruptRecord);
        }
        let expected_version: u64 = match &latest {
            None => 0,
            Some((previous, _)) => match previous.checked_add(1) {
                Some(v) => v,
                None => {
                    return Err(JournalError::VersionOverflow);
                },
            },
        };
        if version != expected_version {
            return Err(JournalError::NonContiguousVersions);
        }
        latest = Some((version, slice_to_vec(payload)));
        cursor = end + 8;
    }
}

/// Recover a journal from its bytes: the length of the prefix made of
/// complete records (the rest is a torn tail to cut off) and the latest
/// complete record. The outcome is exactly `spec_scan(bytes@)`.
pub fn scan_journal(bytes: &[u8]) -> (r: Result<(usize, Option<(u64, Vec<u8>)>), JournalError>)
    ensures
        match r {
            Ok((cursor, latest)) => spec_scan(bytes@) == Ok::<ScanOutcome, JournalError>(
                (cursor as int, latest_view(latest)),
            ),
            Err(e) => spec_scan(bytes@) == Err::<ScanOutcome, JournalError>(e),
        },
{
    match scan_records(bytes) {
        Ok((cursor, latest)) => {
            if bytes.len() > 0 && latest.is_none() {
                Err(JournalError::NoInitialRecord)
            } else {
                Ok((cursor, latest))
            }
        },
        Err(e) => Err(e),
    }
}

/// The journal holding one complete record per payload, with versions
/// counting up from `first`.
pub open spec fn records_from(first: nat, payloads: Seq<Seq<u8>>) -> Seq<u8>
    decreases payloads.len(),
{
    if payloads.len() == 0 {
        Seq::empty()
    } else {
        spec_record(first as u64, payloads[0]) + records_from(first + 1, payloads.drop_first())
    }
}

/// Every payload's length fits the 64-bit length field.
pub open spec fn payload_lengths_fit(payloads: Seq<Seq<u8>>) -> bool {
    forall|i: int| 0 <= i < payloads.len() ==> #[trigger] payloads[i].len() <= u64::MAX
}

/// Where each field of a record lies.
pub proof fn lemma_record_layout(version: u64, payload: Seq<u8>)
    requires
        payload.len() <= u64::MAX,
    ensures
        ({
            let r = spec_record(version, payload);
            let n = payload.len() as int;
            &&& r.len() == 48 + n
            &&& r.subrange(0, 8) == spec_magic()
            &&& r.subrange(8, 16) == spec_u64_to_le_bytes(version)
            &&& r.subrange(16, 24) == spec_u64_to_le_bytes(payload.len() as u64)
            &&& r.subrange(24, 32) == spec_u64_to_le_bytes(spec_checksum(version, payload))
            &&& r.subrange(32, 40) == spec_u64_to_le_bytes(
                spec_checksum(version, spec_u64_to_le_bytes(payload.len() as u64)),
            )
            &&& r.subrange(40, 40 + n) == payload
            &&& r.subrange(40 + n, 48 + n) == spec_commit()
        }),
{
    lemma_auto_spec_u64_to_from_le_bytes();
    let r = spec_record(version, payload);
    let n = payload.len() as int;
    let a = spec_u64_to_le_bytes(version);
    let b = spec_u64_to_le_bytes(payload.len() as u64);
    let c = spec_u64_to_le_bytes(spec_checksum(version, payload));
    let d = spec_u64_to_le_bytes(spec_checksum(version, b));
    assert(r =~= spec_magic() + a + b + c + d + payload + spec_commit());
    assert(r.subrange(0, 8) =~= spec_magic());
    assert(r.subrange(8, 16) =~= a);
    assert(r.subrange(16, 24) =~= b);
    assert(r.subrange(24, 32) =~= c);
    assert(r.subrange(32, 40) =~= d);
    assert(r.subrange(40, 40 + n) =~= payload);
    assert(r.subrange(40 + n, 48 + n) =~= spec_commit());
}

proof fn lemma_window(bytes: Seq<u8>, c: int, w: Seq<u8>, a: int, b: int)
    requires
        0 <= c,
        c + w.len() <= bytes.len(),
        bytes.subrange(c, c + w.len()) == w,
        0 <= a <= b <= w.len(),
    ensures
        bytes.subrange(c + a, c + b) == w.subrange(a, b),
{
    assert(bytes.subrange(c + a, c + b) =~= bytes.subrange(c, c + w.len()).subrange(a, b));
}

/// One complete record of the expected version at `c` is consumed.
proof fn lemma_scan_step_complete(
    bytes: Seq<u8>,
    c: int,
    latest: Option<(u64, Seq<u8>)>,
    version: u64,
    payload: Seq<u8>,
)
    requires
        payload.len() <= u64::MAX,
        0 <= c,
        c + spec_record(version, payload).len() <= bytes.len(),
        bytes.subrange(c, c + spec_record(version, payload).len()) == spec_record(version, payload),
        next_version(latest) == Some(version),
    ensures
        scan_from(bytes, c, latest) == scan_from(
            bytes,
            c + spec_record(version, payload).len(),
            Some((version, payload)),
        ),
{
    lemma_auto_spec_u64_to_from_le_bytes();
    let r = spec_record(version, payload);
    let n = payload.len() as int;
    lemma_record_layout(version, payload);
    lemma_window(bytes, c, r, 0, 8);
    lemma_window(bytes, c, r, 8, 16);
    lemma_window(bytes, c, r, 16, 24);
    lemma_window(bytes, c, r, 24, 32);
    lemma_window(bytes, c, r, 32, 40);
    lemma_window(bytes, c, r, 40, 40 + n);
    lemma_window(bytes, c, r, 40 + n, 48 + n);
}

/// A strict prefix of a record at `c`, running to the end, ends the scan.
proof fn lemma_scan_step_torn(
    bytes: Seq<u8>,
    c: int,
    latest: Option<(u64, Seq<u8>)>,
    version: u64,
    payload: Seq<u8>,
)
    requires
        payload.len() <= u64::MAX,
        0 <= c <= bytes.len(),
        bytes.len() - c < spec_record(version, payload).len(),
        bytes.subrange(c, bytes.len() as int) == spec_record(version, payload).subrange(
            0,
            bytes.len() - c,
        ),
    ensures
        scan_from(bytes, c, latest) == Ok::<ScanOutcome, JournalError>((c, latest)),
{
    lemma_auto_spec_u64_to_from_le_bytes();
    let r = spec_record(version, payload);
    lemma_record_layout(version, payload);
    if bytes.len() - c >= HEADER {
        let t = r.subrange(0, bytes.len() - c);
        lemma_window(bytes, c, t, 0, 8);
        lemma_window(bytes, c, t, 8, 16);
        lemma_window(bytes, c, t, 16, 24);
        lemma_window(bytes, c, t, 32, 40);
        assert(t.subrange(0, 8) =~= r.subrange(0, 8));
        assert(t.subrange(8, 16) =~= r.subrange(8, 16));
        assert(t.subrange(16, 24) =~= r.subrange(16, 24));
        assert(t.subrange(32, 40) =~= r.subrange(32, 40));
    }
}

/// Scanning complete records followed by a torn tail (a strict prefix of
/// some record) yields the end of the complete records and the last of them.
#[verifier::rlimit(60)]
proof fn lemma_scan_records(
    pre: Seq<u8>,
    first: nat,
    payloads: Seq<Seq<u8>>,
    tail: Seq<u8>,
    latest: Option<(u64, Seq<u8>)>,
    tail_version: u64,
    tail_payload: Seq<u8>,
)
    requires
        first + payloads.len() <= u64::MAX + 1,
        payload_lengths_fit(payloads),
        tail_payload.len() <= u64::MAX,
        tail.len() < spec_record(tail_version, tail_payload).len(),
        tail == spec_record(tail_version, tail_payload).subrange(0, tail.len() as int),
        payloads.len() > 0 ==> next_version(latest) == Some(first as u64),
    ensures
        scan_from(pre + records_from(first, payloads) + tail, pre.len() as int, latest) == Ok::<
            ScanOutcome,
            JournalError,
        >(
            (
                (pre.len() + records_from(first, payloads).len()) as int,
                if payloads.len() == 0 {
                    latest
                } else {
                    Some(((first + payloads.len() - 1) as u64, payloads.last()))
                },
            ),
        ),
    decreases payloads.len(),
{
    let c = pre.len() as int;
    let bytes = pre + records_from(first, payloads) + tail;
    if payloads.len() == 0 {
        assert(bytes.subrange(c, bytes.len() as int) =~= tail);
        lemma_scan_step_torn(bytes, c, latest, tail_version, tail_payload);
    } else {
        let p0 = payloads[0];
        let rest = payloads.drop_first();
        let r = spec_record(first as u64, p0);
        assert(p0.len() <= u64::MAX);
        assert(payload_lengths_fit(rest)) by {
            assert forall|i: int| 0 <= i < rest.len() implies #[trigger] rest[i].len()
                <= u64::MAX by {
                assert(rest[i] == payloads[i + 1]);
            }
        }
        let later = records_from(first + 1, rest) + tail;
        assert(bytes =~= pre + r + later);
        assert(bytes.subrange(c, c + r.len()) =~= r);
        lemma_scan_step_complete(bytes, c, latest, first as u64, p0);
        let pre2 = pre + r;
        let latest2 = Some((first as u64, p0));
        if rest.len() > 0 {
            assert(next_version(latest2) == Some((first + 1) as u64));
        }
        lemma_scan_records(pre2, first + 1, rest, tail, latest2, tail_version, tail_payload);
        assert(pre2 + records_from(first + 1, rest) + tail =~= bytes);
        if rest.len() > 0 {
            assert(rest.last() == payloads.last());
        }
    }
}

/// A journal of complete records for versions `0..n` followed by any torn
/// tail (a strict prefix of another record, possibly empty) recovers the
/// last complete record, version `n - 1`, and keeps exactly the complete
/// records: a crash in the middle of an append loses only that append.
pub proof fn lemma_torn_tail_recovers_last_commit(
    payloads: Seq<Seq<u8>>,
    cut: nat,
    tail_version: u64,
    tail_payload: Seq<u8>,
)
    requires
        0 < payloads.len() <= u64::MAX + 1,
        payload_lengths_fit(payloads),
        tail_payload.len() <= u64::MAX,
        cut < spec_record(tail_version, tail_payload).len(),
    ensures
        spec_scan(
            records_from(0, payloads) + spec_record(tail_version, tail_payload).subrange(
                0,
                cut as int,
            ),
        ) == Ok::<ScanOutcome, JournalError>(
            (
                records_from(0, payloads).len() as int,
                Some(((payloads.len() - 1) as u64, payloads.last())),
            ),
        ),
{
    let tail = spec_record(tail_version, tail_payload).subrange(0, cut as int);
    lemma_scan_records(
        Seq::<u8>::empty(),
        0,
        payloads,
        tail,
        None,
        tail_version,
        tail_payload,
    );
    assert(Seq::<u8>::empty() + records_from(0, payloads) + tail =~= records_from(0, payloads)
        + tail);
}

/// Where a scan from `k` that consumes the record at `k` continues.
spec fn record_end(bytes: Seq<u8>, k: int) -> int {
    k + HEADER + spec_u64_from_le_bytes(bytes.subrange(k + 16, k + 24)) + 8
}

/// Whether the scan from `k` consumes a complete record there and goes on.
spec fn scan_continues(bytes: Seq<u8>, k: int, latest: Option<(u64, Seq<u8>)>) -> bool {
    let version = spec_u64_from_le_bytes(bytes.subrange(k + 8, k + 16));
    let length = spec_u64_from_le_bytes(bytes.subrange(k + 16, k + 24));
    let expected = spec_u64_from_le_bytes(bytes.subrange(k + 24, k + 32));
    let header_checksum = spec_u64_from_le_bytes(bytes.subrange(k + 32, k + 40));
    let available = bytes.len() - k - HEADER;
    let end = k + HEADER + length;
    &&& 0 <= k
    &&& bytes.len() - k >= HEADER
    &&& bytes.subrange(k, k + 8) == spec_magic()
    &&& header_checksum == spec_checksum(version, spec_u64_to_le_bytes(length))
    &&& !(available < 8 || length > available - 8)
    &&& bytes.subrange(end, end + 8) == spec_commit()
    &&& spec_checksum(version, bytes.subrange(k + HEADER, end)) == expected
    &&& next_version(latest) == Some(version)
}

proof fn lemma_scan_returns_at_or_after(bytes: Seq<u8>, k: int, latest: Option<(u64, Seq<u8>)>)
    requires
        0 <= k <= bytes.len(),
    ensures
        scan_from(bytes, k, latest) matches Ok((c, _)) ==> k <= c <= bytes.len(),
    decreases bytes.len() - k,
{
    if scan_continues(bytes, k, latest) {
        let version = spec_u64_from_le_bytes(bytes.subrange(k + 8, k + 16));
        let end = record_end(bytes, k) - 8;
        lemma_scan_returns_at_or_after(
            bytes,
            end + 8,
            Some((version, bytes.subrange(k + HEADER, end))),
        );
    }
}

proof fn lemma_scan_prefix(
    bytes: Seq<u8>,
    k: int,
    latest: Option<(u64, Seq<u8>)>,
    c: int,
    last: Option<(u64, Seq<u8>)>,
)
    requires
        0 <= k <= c <= bytes.len(),
        scan_from(bytes, k, latest) == Ok::<ScanOutcome, JournalError>((c, last)),
    ensures
        scan_from(bytes.subrange(0, c), k, latest) == Ok::<ScanOutcome, JournalError>((c, last)),
    decreases bytes.len() - k,
{
    let p = bytes.subrange(0, c);
    if scan_continues(bytes, k, latest) {
        let version = spec_u64_from_le_bytes(bytes.subrange(k + 8, k + 16));
        let length = spec_u64_from_le_bytes(bytes.subrange(k + 16, k + 24));
        let end = k + HEADER + length;
        let payload = bytes.subrange(k + HEADER, end);
        lemma_scan_returns_at_or_after(bytes, end + 8, Some((version, payload)));
        lemma_scan_prefix(bytes, end + 8, Some((version, payload)), c, last);
        assert(p.subrange(k, k + 8) =~= bytes.subrange(k, k + 8));
        assert(p.subrange(k + 8, k + 16) =~= bytes.subrange(k + 8, k + 16));
        assert(p.subrange(k + 16, k + 24) =~= bytes.subrange(k + 16, k + 24));
        assert(p.subrange(k + 24, k + 32) =~= bytes.subrange(k + 24, k + 32));
        assert(p.subrange(k + 32, k + 40) =~= bytes.subrange(k + 32, k + 40));
        assert(p.subrange(k + HEADER, end) =~= payload);
        assert(p.subrange(end, end + 8) =~= bytes.subrange(end, end + 8));
        assert(scan_continues(p, k, latest));
    } else {
        assert(c == k);
    }
}

/// Recovery is stable: once the torn tail is cut off, recovering the kept
/// bytes finds the same latest record and nothing more to cut, so reopening
/// a recovered journal changes nothing.
pub proof fn lemma_recovery_is_stable(bytes: Seq<u8>)
    requires
        spec_scan(bytes) is Ok,
    ensures
        ({
            let (kept, latest) = spec_scan(bytes)->Ok_0;
            &&& 0 <= kept <= bytes.len()
            &&& spec_scan(bytes.subrange(0, kept)) == Ok::<ScanOutcome, JournalError>(
                (kept, latest),
            )
        }),
{
    let (kept, latest) = spec_scan(bytes)->Ok_0;
    lemma_scan_returns_at_or_after(bytes, 0, None);
    lemma_scan_prefix(bytes, 0, None, kept, latest);
}

/// The complete record a continuing scan consumes at `k`.
proof fn lemma_consumed_record(bytes: Seq<u8>, k: int, latest: Option<(u64, Seq<u8>)>)
    requires
        scan_continues(bytes, k, latest),
    ensures
        ({
            let version = spec_u64_from_le_bytes(bytes.subrange(k + 8, k + 16));
            let length = spec_u64_from_le_bytes(bytes.subrange(k + 16, k + 24));
            let end = k + HEADER + length;
            let payload = bytes.subrange(k + HEADER, end);
            &&& bytes.subrange(k, end + 8) == spec_record(version, payload)
            &&& payload.len() == length
            &&& record_end(bytes, k) == end + 8
        }),
{
    lemma_auto_spec_u64_to_from_le_bytes();
    let version = spec_u64_from_le_bytes(bytes.subrange(k + 8, k + 16));
    let length = spec_u64_from_le_bytes(bytes.subrange(k + 16, k + 24));
    let end = k + HEADER + length;
    let payload = bytes.subrange(k + HEADER, end);
    assert(spec_u64_to_le_bytes(spec_u64_from_le_bytes(bytes.subrange(k + 8, k + 16)))
        == bytes.subrange(k + 8, k + 16));
    assert(spec_u64_to_le_bytes(spec_u64_from_le_bytes(bytes.subrange(k + 16, k + 24)))
        == bytes.subrange(k + 16, k + 24));
    assert(spec_u64_to_le_bytes(spec_u64_from_le_bytes(bytes.subrange(k + 24, k + 32)))
        == bytes.subrange(k + 24, k + 32));
    assert(spec_u64_to_le_bytes(spec_u64_from_le_bytes(bytes.subrange(k + 32, k + 40)))
        == bytes.subrange(k + 32, k + 40));
    assert(payload.len() == length);
    assert(bytes.subrange(k, end + 8) =~= bytes.subrange(k, k + 8) + bytes.subrange(k + 8, k + 16)
        + bytes.subrange(k + 16, k + 24) + bytes.subrange(k + 24, k + 32) + bytes.subrange(
        k + 32,
        k + 40,
    ) + payload + bytes.subrange(end, end + 8));
}

/// The version that follows `latest`, counting past the largest.
pub open spec fn following(latest: Option<(u64, Seq<u8>)>) -> nat {
    match latest {
        None => 0,
        Some((v, _)) => (v + 1) as nat,
    }
}

proof fn lemma_scan_consumes_records(
    bytes: Seq<u8>,
    k: int,
    latest: Option<(u64, Seq<u8>)>,
    c: int,
    last: Option<(u64, Seq<u8>)>,
)
    requires
        0 <= k <= bytes.len(),
        scan_from(bytes, k, latest) == Ok::<ScanOutcome, JournalError>((c, last)),
    ensures
        exists|payloads: Seq<Seq<u8>>|
            #![trigger records_from(following(latest), payloads)]
            {
                &&& payload_lengths_fit(payloads)
                &&& following(latest) + payloads.len() <= u64::MAX + 1
                &&& k <= c <= bytes.len()
                &&& bytes.subrange(k, c) == records_from(following(latest), payloads)
                &&& payloads.len() == 0 ==> last == latest
                &&& payloads.len() > 0 ==> last == Some(
                    ((following(latest) + payloads.len() - 1) as u64, payloads.last()),
                )
            },
    decreases bytes.len() - k,
{
    if scan_continues(bytes, k, latest) {
        lemma_consumed_record(bytes, k, latest);
        let version = spec_u64_from_le_bytes(bytes.subrange(k + 8, k + 16));
        let length = spec_u64_from_le_bytes(bytes.subrange(k + 16, k + 24));
        let end = k + HEADER + length;
        let p = bytes.subrange(k + HEADER, end);
        let next = Some((version, p));
        lemma_scan_consumes_records(bytes, end + 8, next, c, last);
        let rest = choose|payloads: Seq<Seq<u8>>|
            #![trigger records_from(following(next), payloads)]
            {
                &&& payload_lengths_fit(payloads)
                &&& following(next) + payloads.len() <= u64::MAX + 1
                &&& end + 8 <= c <= bytes.len()
                &&& bytes.subrange(end + 8, c) == records_from(following(next), payloads)
                &&& payloads.len() == 0 ==> last == next
                &&& payloads.len() > 0 ==> last == Some(
                    ((following(next) + payloads.len() - 1) as u64, payloads.last()),
                )
            };
        let all = seq![p] + rest;
        assert(following(latest) == version);
        assert(all.drop_first() =~= rest);
        assert(all[0] == p);
        assert(records_from(following(latest), all) == spec_record(version, p) + records_from(
            following(latest) + 1,
            rest,
        ));
        assert(bytes.subrange(k, c) =~= bytes.subrange(k, end + 8) + bytes.subrange(end + 8, c));
        assert(payload_lengths_fit(all)) by {
            assert forall|i: int| 0 <= i < all.len() implies #[trigger] all[i].len() <= u64::MAX by {
                if i > 0 {
                    assert(all[i] == rest[i - 1]);
                }
            }
        }
        if rest.len() > 0 {
            assert(all.last() == rest.last());
        }
        assert(records_from(following(latest), all) == bytes.subrange(k, c));
    } else {
        assert(c == k);
        assert(bytes.subrange(k, c) =~= records_from(following(latest), Seq::<Seq<u8>>::empty()));
    }
}

/// Recovery accepts exactly journals that begin with complete records of
/// versions 0, 1, ... (followed by a torn tail, which is cut off): the kept
/// prefix is such records, and the latest record recovered is the last of
/// them (none for an empty prefix).
pub proof fn lemma_accepted_journals_are_records(bytes: Seq<u8>)
    requires
        spec_scan(bytes) is Ok,
    ensures
        ({
            let (kept, latest) = spec_scan(bytes)->Ok_0;
            exists|payloads: Seq<Seq<u8>>|
                #![trigger records_from(0, payloads)]
                {
                    &&& payload_lengths_fit(payloads)
                    &&& bytes.subrange(0, kept) == records_from(0, payloads)
                    &&& payloads.len() == 0 <==> latest is None
                    &&& payloads.len() > 0 ==> latest == Some(
                        ((payloads.len() - 1) as u64, payloads.last()),
                    )
                }
        }),
{
    let (c, last) = scan_from(bytes, 0, None)->Ok_0;
    lemma_scan_consumes_records(bytes, 0, None, c, last);
    let ps = choose|payloads: Seq<Seq<u8>>|
        #![trigger records_from(following(None), payloads)]
        {
            &&& payload_lengths_fit(payloads)
            &&& 0 <= c <= bytes.len()
            &&& bytes.subrange(0, c) == records_from(following(None), payloads)
            &&& payloads.len() == 0 ==> last == None::<(u64, Seq<u8>)>
            &&& payloads.len() > 0 ==> last == Some(
                ((following(None) + payloads.len() - 1) as u64, payloads.last()),
            )
        };
    assert(following(None) == 0);
    assert(records_from(0, ps) == bytes.subrange(0, c));
}

/// Whether `t` is a torn tail: too short for a record header, or the valid
/// header (magic and header checksum) of a record longer than `t`.
pub open spec fn torn_tail(t: Seq<u8>) -> bool {
    t.len() < HEADER || {
        let version = spec_u64_from_le_bytes(t.subrange(8, 16));
        let length = spec_u64_from_le_bytes(t.subrange(16, 24));
        let header_checksum = spec_u64_from_le_bytes(t.subrange(32, 40));
        let available = t.len() - HEADER;
        &&& t.subrange(0, 8) == spec_magic()
        &&& header_checksum == spec_checksum(version, spec_u64_to_le_bytes(length))
        &&& (available < 8 || length > available - 8)
    }
}

/// At a position where the rest of the bytes is `t`, the scan stops there
/// without error exactly when `t` is a torn tail.
proof fn lemma_stop_iff_torn(bytes: Seq<u8>, k: int, latest: Option<(u64, Seq<u8>)>)
    requires
        0 <= k <= bytes.len(),
    ensures
        (scan_from(bytes, k, latest) == Ok::<ScanOutcome, JournalError>((k, latest))) <==> torn_tail(
            bytes.subrange(k, bytes.len() as int),
        ),
{
    let t = bytes.subrange(k, bytes.len() as int);
    if bytes.len() - k >= HEADER {
        assert(t.subrange(0, 8) =~= bytes.subrange(k, k + 8));
        assert(t.subrange(8, 16) =~= bytes.subrange(k + 8, k + 16));
        assert(t.subrange(16, 24) =~= bytes.subrange(k + 16, k + 24));
        assert(t.subrange(32, 40) =~= bytes.subrange(k + 32, k + 40));
        if scan_continues(bytes, k, latest) {
            let end = record_end(bytes, k);
            lemma_consumed_record(bytes, k, latest);
            lemma_scan_returns_at_or_after(
                bytes,
                end,
                Some(
                    (
                        spec_u64_from_le_bytes(bytes.subrange(k + 8, k + 16)),
                        bytes.subrange(k + HEADER, end - 8),
                    ),
                ),
            );
        }
    }
}

/// Complete records of consecutive versions are consumed one by one.
proof fn lemma_scan_over_records(
    bytes: Seq<u8>,
    k: int,
    latest: Option<(u64, Seq<u8>)>,
    payloads: Seq<Seq<u8>>,
)
    requires
        0 <= k,
        k + records_from(following(latest), payloads).len() <= bytes.len(),
        bytes.subrange(k, k + records_from(following(latest), payloads).len()) == records_from(
            following(latest),
            payloads,
        ),
        payload_lengths_fit(payloads),
        following(latest) + payloads.len() <= u64::MAX + 1,
    ensures
        scan_from(bytes, k, latest) == scan_from(
            bytes,
            k + records_from(following(latest), payloads).len(),
            if payloads.len() == 0 {
                latest
            } else {
                Some(((following(latest) + payloads.len() - 1) as u64, payloads.last()))
            },
        ),
    decreases payloads.len(),
{
    if payloads.len() > 0 {
        let first = following(latest);
        let p0 = payloads[0];
        let rest = payloads.drop_first();
        let r = spec_record(first as u64, p0);
        let tail = records_from(first + 1, rest);
        assert(records_from(first, payloads) == r + tail);
        assert(bytes.subrange(k, k + r.len()) =~= (r + tail).subrange(0, r.len() as int));
        assert((r + tail).subrange(0, r.len() as int) =~= r);
        assert(p0.len() <= u64::MAX);
        assert(next_version(latest) == Some(first as u64));
        lemma_scan_step_complete(bytes, k, latest, first as u64, p0);
        let next = Some((first as u64, p0));
        assert(following(next) == first + 1);
        assert(payload_lengths_fit(rest)) by {
            assert forall|i: int| 0 <= i < rest.len() implies #[trigger] rest[i].len() <= u64::MAX by {
                assert(rest[i] == payloads[i + 1]);
            }
        }
        assert(bytes.subrange(k + r.len(), k + r.len() + tail.len()) =~= (r + tail).subrange(
            r.len() as int,
            (r.len() + tail.len()) as int,
        ));
        assert((r + tail).subrange(r.len() as int, (r.len() + tail.len()) as int) =~= tail);
        lemma_scan_over_records(bytes, k + r.len(), next, rest);
        if rest.len() > 0 {
            assert(rest.last() == payloads.last());
        }
    }
}

/// Recovery accepts a journal exactly when it is complete records of
/// versions 0, 1, ... followed by a torn tail (a non-empty journal holding
/// at least one record); then it keeps the records and returns the last.
pub proof fn lemma_journal_accepted_iff(bytes: Seq<u8>)
    ensures
        spec_scan(bytes) is Ok <==> exists|payloads: Seq<Seq<u8>>, tail: Seq<u8>|
            {
                &&& payload_lengths_fit(payloads)
                &&& payloads.len() <= u64::MAX + 1
                &&& bytes == records_from(0, payloads) + tail
                &&& torn_tail(tail)
                &&& bytes.len() > 0 ==> payloads.len() > 0
            },
        forall|payloads: Seq<Seq<u8>>, tail: Seq<u8>|
            {
                &&& payload_lengths_fit(payloads)
                &&& payloads.len() <= u64::MAX + 1
                &&& bytes == records_from(0, payloads) + tail
                &&& torn_tail(tail)
                &&& bytes.len() > 0 ==> payloads.len() > 0
            } ==> spec_scan(bytes) == Ok::<ScanOutcome, JournalError>(
                (
                    records_from(0, payloads).len() as int,
                    if payloads.len() == 0 {
                        None
                    } else {
                        Some(((payloads.len() - 1) as u64, payloads.last()))
                    },
                ),
            ),
{
    assert forall|payloads: Seq<Seq<u8>>, tail: Seq<u8>|
        {
            &&& payload_lengths_fit(payloads)
            &&& payloads.len() <= u64::MAX + 1
            &&& bytes == records_from(0, payloads) + tail
            &&& torn_tail(tail)
            &&& bytes.len() > 0 ==> payloads.len() > 0
        } implies spec_scan(bytes) == Ok::<ScanOutcome, JournalError>(
            (
                records_from(0, payloads).len() as int,
                if payloads.len() == 0 {
                    None
                } else {
                    Some(((payloads.len() - 1) as u64, payloads.last()))
                },
            ),
        ) by {
        let r = records_from(0, payloads);
        assert(following(None) == 0);
        assert(bytes.subrange(0, r.len() as int) =~= r);
        lemma_scan_over_records(bytes, 0, None, payloads);
        let last = if payloads.len() == 0 {
            None
        } else {
            Some(((payloads.len() - 1) as u64, payloads.last()))
        };
        assert(bytes.subrange(r.len() as int, bytes.len() as int) =~= tail);
        lemma_stop_iff_torn(bytes, r.len() as int, last);
    }
    if spec_scan(bytes) is Ok {
        let (c, last) = scan_from(bytes, 0, None)->Ok_0;
        lemma_scan_consumes_records(bytes, 0, None, c, last);
        let ps = choose|payloads: Seq<Seq<u8>>|
            #![trigger records_from(following(None), payloads)]
            {
                &&& payload_lengths_fit(payloads)
                &&& following(None) + payloads.len() <= u64::MAX + 1
                &&& 0 <= c <= bytes.len()
                &&& bytes.subrange(0, c) == records_from(following(None), payloads)
                &&& payloads.len() == 0 ==> last == None::<(u64, Seq<u8>)>
                &&& payloads.len() > 0 ==> last == Some(
                    ((following(None) + payloads.len() - 1) as u64, payloads.last()),
                )
            };
        assert(following(None) == 0);
        let tail = bytes.subrange(c, bytes.len() as int);
        lemma_scan_over_records(bytes, 0, None, ps);
        lemma_stop_iff_torn(bytes, c, last);
        assert(bytes =~= records_from(0, ps) + tail);
        assert(torn_tail(tail));
    }
}

/// Appending a record to a journal: the complete records are
/// `records_from(0, payloads)` followed by the new record's bytes.
pub proof fn lemma_records_push(first: nat, payloads: Seq<Seq<u8>>, payload: Seq<u8>)
    ensures
        records_from(first, payloads.push(payload)) == records_from(first, payloads)
            + spec_record((first + payloads.len()) as u64, payload),
    decreases payloads.len(),
{
    if payloads.len() == 0 {
        let one = payloads.push(payload);
        assert(one.drop_first() =~= Seq::<Seq<u8>>::empty());
        assert(one[0] == payload);
        assert(records_from(first + 1, one.drop_first()) =~= Seq::<u8>::empty());
        assert(records_from(first, one) =~= spec_record(first as u64, payload));
        assert(records_from(first, payloads) + spec_record(first as u64, payload) =~= spec_record(
            first as u64,
            payload,
        ));
    } else {
        lemma_records_push(first + 1, payloads.drop_first(), payload);
        assert(payloads.push(payload).drop_first() =~= payloads.drop_first().push(payload));
        assert(records_from(first, payloads.push(payload)) =~= spec_record(
            first as u64,
            payloads[0],
        ) + records_from(first + 1, payloads.drop_first()) + spec_record(
            (first + payloads.len()) as u64,
            payload,
        ));
    }
}

/// What one commit appends is what the next recovery returns: after
/// appending the record of version `n` to a journal of versions `0..n`, the
/// journal recovers exactly version `n` with the appended payload.
pub proof fn lemma_append_then_recover(payloads: Seq<Seq<u8>>, payload: Seq<u8>)
    requires
        payloads.len() <= u64::MAX,
        payload_lengths_fit(payloads),
        payload.len() <= u64::MAX,
    ensures
        spec_scan(records_from(0, payloads) + spec_record(payloads.len() as u64, payload)) == Ok::<
            ScanOutcome,
            JournalError,
        >(
            (
                (records_from(0, payloads).len() + spec_record(payloads.len() as u64, payload).len()) as int,
                Some((payloads.len() as u64, payload)),
            ),
        ),
{
    let all = payloads.push(payload);
    lemma_records_push(0, payloads, payload);
    assert(payload_lengths_fit(all)) by {
        assert forall|i: int| 0 <= i < all.len() implies #[trigger] all[i].len() <= u64::MAX by {
            if i < payloads.len() {
                assert(all[i] == payloads[i]);
            }
        }
    }
    lemma_torn_tail_recovers_last_commit(all, 0, 0, Seq::empty());
    assert(spec_record(0, Seq::empty()).subrange(0, 0) =~= Seq::<u8>::empty());
    assert(records_from(0, all) + Seq::<u8>::empty() =~= records_from(0, all));
    assert(all.last() == payload);
}

/// An empty journal recovers nothing and keeps nothing; a journal whose
/// only bytes are a torn first record is refused.
pub proof fn lemma_scan_without_complete_record(tail_version: u64, tail_payload: Seq<u8>, cut: nat)
    requires
        tail_payload.len() <= u64::MAX,
        cut < spec_record(tail_version, tail_payload).len(),
    ensures
        spec_scan(spec_record(tail_version, tail_payload).subrange(0, cut as int)) == if cut == 0 {
            Ok::<ScanOutcome, JournalError>((0, None))
        } else {
            Err::<ScanOutcome, JournalError>(JournalError::NoInitialRecord)
        },
{
    let tail = spec_record(tail_version, tail_payload).subrange(0, cut as int);
    lemma_scan_records(
        Seq::<u8>::empty(),
        0,
        Seq::<Seq<u8>>::empty(),
        tail,
        None,
        tail_version,
        tail_payload,
    );
    assert(Seq::<u8>::empty() + records_from(0, Seq::<Seq<u8>>::empty()) + tail =~= tail);
}

/// A scan that consumes all of `bytes` makes the same steps over `bytes`
/// followed by more bytes, up to the end of `bytes`.
proof fn lemma_scan_extend(
    bytes: Seq<u8>,
    extra: Seq<u8>,
    k: int,
    latest: Option<(u64, Seq<u8>)>,
    last: Option<(u64, Seq<u8>)>,
)
    requires
        0 <= k <= bytes.len(),
        scan_from(bytes, k, latest) == Ok::<ScanOutcome, JournalError>((bytes.len() as int, last)),
    ensures
        scan_from(bytes + extra, k, latest) == scan_from(bytes + extra, bytes.len() as int, last),
    decreases bytes.len() - k,
{
    let b2 = bytes + extra;
    if k == bytes.len() {
        assert(latest == last);
    } else {
        if !scan_continues(bytes, k, latest) {
            assert(false);
        }
        let version = spec_u64_from_le_bytes(bytes.subrange(k + 8, k + 16));
        let length = spec_u64_from_le_bytes(bytes.subrange(k + 16, k + 24));
        let end = k + HEADER + length;
        let payload = bytes.subrange(k + HEADER, end);
        assert(b2.subrange(k, k + 8) =~= bytes.subrange(k, k + 8));
        assert(b2.subrange(k + 8, k + 16) =~= bytes.subrange(k + 8, k + 16));
        assert(b2.subrange(k + 16, k + 24) =~= bytes.subrange(k + 16, k + 24));
        assert(b2.subrange(k + 24, k + 32) =~= bytes.subrange(k + 24, k + 32));
        assert(b2.subrange(k + 32, k + 40) =~= bytes.subrange(k + 32, k + 40));
        assert(b2.subrange(k + HEADER, end) =~= payload);
        assert(b2.subrange(end, end + 8) =~= bytes.subrange(end, end + 8));
        assert(scan_continues(b2, k, latest));
        lemma_scan_extend(bytes, extra, end + 8, Some((version, payload)), last);
    }
}

/// Appending the record of the next version to a journal whose recovery
/// consumes all of it: recovery then consumes the record too and returns it.
pub proof fn lemma_append_record(
    contents: Seq<u8>,
    latest: Option<(u64, Seq<u8>)>,
    version: u64,
    payload: Seq<u8>,
)
    requires
        spec_scan(contents) == Ok::<ScanOutcome, JournalError>((contents.len() as int, latest)),
        next_version(latest) == Some(version),
        payload.len() <= u64::MAX,
    ensures
        spec_scan(contents + spec_record(version, payload)) == Ok::<ScanOutcome, JournalError>(
            (
                (contents.len() + spec_record(version, payload).len()) as int,
                Some((version, payload)),
            ),
        ),
{
    let r = spec_record(version, payload);
    let all = contents + r;
    lemma_scan_extend(contents, r, 0, None, latest);
    lemma_record_layout(version, payload);
    assert(all.subrange(contents.len() as int, (contents.len() + r.len()) as int) =~= r);
    lemma_scan_step_complete(all, contents.len() as int, latest, version, payload);
}

/// Abstract state of an open journal.
pub struct JournalView {
    /// A write failed: what the journal holds is unknown until it is
    /// reopened, and every later use is refused.
    pub failed: bool,
    /// The bytes the journal holds.
    pub contents: Seq<u8>,
    /// The latest complete record, the one recovery returns.
    pub latest: Option<(u64, Seq<u8>)>,
    /// The record prepared for appending (version and payload), not yet
    /// known to be written.
    pub pending: Option<(u64, Seq<u8>)>,
}

/// An open journal's bookkeeping: whether it is usable, the latest
/// version it holds, and the record being appended. The bytes are written
/// and synced by the caller; a successful write is reported back.
pub struct JournalState {
    failed: bool,
    latest_version: Option<u64>,
    pending: bool,
    contents: Ghost<Seq<u8>>,
    latest: Ghost<Option<(u64, Seq<u8>)>>,
    pending_payload: Ghost<Seq<u8>>,
}

impl View for JournalState {
    type V = JournalView;

    closed spec fn view(&self) -> JournalView {
        JournalView {
            failed: self.failed,
            contents: self.contents@,
            latest: self.latest@,
            pending: if self.pending {
                Some((next_version(self.latest@)->Some_0, self.pending_payload@))
            } else {
                None
            },
        }
    }
}

/// The version of the latest record, if any.
pub open spec fn latest_version_of(latest: Option<(u64, Seq<u8>)>) -> Option<u64> {
    match latest {
        Some((v, _)) => Some(v),
        None => None,
    }
}

impl JournalState {
    /// Recovery of a usable journal consumes all it holds and returns its
    /// latest record; a prepared record is of the next version.
    pub closed spec fn wf(&self) -> bool {
        &&& self.latest_version == latest_version_of(self.latest@)
        &&& !self.failed ==> spec_scan(self.contents@) == Ok::<ScanOutcome, JournalError>(
            (self.contents@.len() as int, self.latest@),
        )
        &&& self.pending ==> next_version(self.latest@) is Some && self.pending_payload@.len()
            <= u64::MAX
    }

    /// Recovery from a usable journal's bytes consumes all of them and
    /// returns its latest record.
    pub proof fn lemma_recovers_latest(&self)
        requires
            self.wf(),
        ensures
            !self@.failed ==> spec_scan(self@.contents) == Ok::<ScanOutcome, JournalError>(
                (self@.contents.len() as int, self@.latest),
            ),
            self@.pending matches Some((v, _)) ==> next_version(self@.latest) == Some(v),
    {
    }

    /// An empty journal.
    pub fn new() -> (r: Self)
        ensures
            r.wf(),
            r@ == (JournalView {
                failed: false,
                contents: Seq::empty(),
                latest: None,
                pending: None,
            }),
    {
        JournalState {
            failed: false,
            latest_version: None,
            pending: false,
            contents: Ghost(Seq::empty()),
            latest: Ghost(None),
            pending_payload: Ghost(Seq::empty()),
        }
    }

    /// Recover a journal from its bytes: the length of the complete-record
    /// prefix to keep (the rest is a torn tail to cut off), the latest
    /// record, and the journal holding exactly the kept bytes.
    pub fn recover(bytes: &[u8]) -> (r: Result<(Self, usize, Option<(u64, Vec<u8>)>), JournalError>)
        ensures
            match r {
                Ok((j, kept, latest)) => {
                    &&& spec_scan(bytes@) == Ok::<ScanOutcome, JournalError>(
                        (kept as int, latest_view(latest)),
                    )
                    &&& j.wf()
                    &&& j@ == (JournalView {
                        failed: false,
                        contents: bytes@.subrange(0, kept as int),
                        latest: latest_view(latest),
                        pending: None,
                    })
                },
                Err(e) => spec_scan(bytes@) == Err::<ScanOutcome, JournalError>(e),
            },
    {
        let (kept, latest) = scan_journal(bytes)?;
        proof {
            lemma_recovery_is_stable(bytes@);
        }
        let latest_version = match &latest {
            Some((v, _)) => Some(*v),
            None => None,
        };
        let j = JournalState {
            failed: false,
            latest_version,
            pending: false,
            contents: Ghost(bytes@.subrange(0, kept as int)),
            latest: Ghost(latest_view(latest)),
            pending_payload: Ghost(Seq::empty()),
        };
        Ok((j, kept, latest))
    }

    /// The version of the latest record.
    pub fn latest_version(&self) -> (r: Option<u64>)
        requires
            self.wf(),
        ensures
            r == latest_version_of(self@.latest),
    {
        self.latest_version
    }

    /// Whether a record is prepared and not yet reported.
    pub fn has_pending(&self) -> (r: bool)
        ensures
            r == self@.pending is Some,
    {
        self.pending
    }

    /// Refuse use after a failed write.
    pub fn ensure_usable(&self) -> (r: Result<(), BustubxError>)
        ensures
            r is Ok <==> !self@.failed,
            r matches Err(e) ==> e is Transaction,
    {
        if self.failed {
            return Err(
                BustubxError::Transaction(
                    "Journal write failed; reopen to determine commit outcome".to_owned(),
                ),
            );
        }
        Ok(())
    }

    /// Prepare the append of the next version's record with `payload`: the
    /// bytes to write and sync. Refused after a failed write, or when no
    /// version can follow.
    pub fn prepare_append(&mut self, payload: &[u8]) -> (r: Result<Vec<u8>, BustubxError>)
        requires
            old(self).wf(),
        ensures
            final(self).wf(),
            r is Ok <==> !old(self)@.failed && next_version(old(self)@.latest) is Some,
            r matches Ok(bytes) ==> bytes@ == spec_record(
                next_version(old(self)@.latest)->Some_0,
                payload@,
            ) && final(self)@ == (JournalView {
                pending: Some((next_version(old(self)@.latest)->Some_0, payload@)),
                ..old(self)@
            }),
            r matches Err(e) ==> e is Transaction && final(self)@ == old(self)@,
    {
        self.ensure_usable()?;
        let version: u64 = match self.latest_version {
            None => 0,
            Some(v) => match v.checked_add(1) {
                Some(n) => n,
                None => {
                    return Err(BustubxError::Transaction("Commit versions exhausted".to_owned()));
                },
            },
        };
        assert(payload@.len() == payload.len());
        assert(next_version(self.latest@) == Some(version));
        let bytes = record(version, payload);
        self.pending = true;
        self.pending_payload = Ghost(payload@);
        Ok(bytes)
    }

    /// Record the outcome of writing and syncing the prepared record. A
    /// successful write adds the record: recovery now returns it. A failed
    /// write makes the journal unusable.
    pub fn finish_append(&mut self, written: bool) -> (r: Result<(), BustubxError>)
        requires
            old(self).wf(),
        ensures
            final(self).wf(),
            r is Ok <==> written && !old(self)@.failed,
            r matches Err(e) ==> e is Transaction,
            final(self)@.failed == (old(self)@.failed || !written),
            final(self)@.pending is None,
            r is Err ==> final(self)@.contents == old(self)@.contents && final(self)@.latest == old(
                self,
            )@.latest,
            r is Ok ==> match old(self)@.pending {
                Some((v, p)) => final(self)@.contents == old(self)@.contents + spec_record(v, p)
                    && final(self)@.latest == Some((v, p)),
                None => final(self)@.contents == old(self)@.contents && final(self)@.latest == old(
                    self,
                )@.latest,
            },
    {
        if !written || self.failed {
            self.failed = true;
            self.pending = false;
            return Err(
                BustubxError::Transaction(
                    "Journal write failed; reopen to determine commit outcome".to_owned(),
                ),
            );
        }
        if self.pending {
            let ghost v = next_version(self.latest@)->Some_0;
            let ghost p = self.pending_payload@;
            proof {
                lemma_append_record(self.contents@, self.latest@, v, p);
            }
            self.contents = Ghost(self.contents@ + spec_record(v, p));
            self.latest = Ghost(Some((v, p)));
            self.latest_version = Some(
                match self.latest_version {
                    None => 0,
                    Some(l) => l + 1,
                },
            );
            self.pending = false;
        }
        Ok(())
    }
}

/// The message of the storage error reported for a recovery failure.
pub open spec fn journal_error_message(e: JournalError) -> Seq<char> {
    match e {
        JournalError::InvalidMagic => "Invalid journal record magic"@,
        JournalError::CorruptHeader => "Corrupt journal record header"@,
        JournalError::CorruptRecord => "Corrupt committed journal record"@,
        JournalError::VersionOverflow => "Journal version overflow"@,
        JournalError::NonContiguousVersions => "Non-contiguous journal versions"@,
        JournalError::NoInitialRecord => "Journal has no complete initial record"@,
    }
}

impl JournalError {
    /// The storage error reported for this recovery failure, with the
    /// failure's message.
    pub fn to_error(self) -> (r: BustubxError)
        ensures
            r matches BustubxError::Storage(m) && m@ == journal_error_message(self),
    {
        match self {
            JournalError::InvalidMagic => BustubxError::Storage(
                "Invalid journal record magic".to_owned(),
            ),
            JournalError::CorruptHeader => BustubxError::Storage(
                "Corrupt journal record header".to_owned(),
            ),
            JournalError::CorruptRecord => BustubxError::Storage(
                "Corrupt committed journal record".to_owned(),
            ),
            JournalError::VersionOverflow => BustubxError::Storage(
                "Journal version overflow".to_owned(),
            ),
            JournalError::NonContiguousVersions => BustubxError::Storage(
                "Non-contiguous journal versions".to_owned(),
            ),
            JournalError::NoInitialRecord => BustubxError::Storage(
                "Journal has no complete initial record".to_owned(),
            ),
        }
    }
}

} // verus!
