use bustubx::transaction::recovery::{checksum, record, scan_journal, JournalError, JournalState};
use bustubx::BustubxError;

#[test]
fn checksum_is_fnv1a_over_version_length_and_payload() {
    // FNV-1a of 16 zero bytes (version 0, empty payload).
    let mut expected: u64 = 0xcbf29ce484222325;
    for _ in 0..16 {
        expected = (expected ^ 0).wrapping_mul(0x100000001b3);
    }
    assert_eq!(checksum(0, b""), expected);
    let mut expected: u64 = 0xcbf29ce484222325;
    let mut bytes = Vec::new();
    bytes.extend(7u64.to_le_bytes());
    bytes.extend(3u64.to_le_bytes());
    bytes.extend(b"abc");
    for b in bytes {
        expected = (expected ^ b as u64).wrapping_mul(0x100000001b3);
    }
    assert_eq!(checksum(7, b"abc"), expected);
    assert_ne!(checksum(7, b"abc"), checksum(8, b"abc"));
}

#[test]
fn record_layout() {
    let r = record(3, b"xy");
    assert_eq!(r.len(), 40 + 2 + 8);
    assert_eq!(&r[..8], b"BUSTXJ01");
    assert_eq!(&r[8..16], &3u64.to_le_bytes());
    assert_eq!(&r[16..24], &2u64.to_le_bytes());
    assert_eq!(&r[24..32], &checksum(3, b"xy").to_le_bytes());
    assert_eq!(&r[32..40], &checksum(3, &2u64.to_le_bytes()).to_le_bytes());
    assert_eq!(&r[40..42], b"xy");
    assert_eq!(&r[42..], b"COMMIT01");
}

#[test]
fn every_incomplete_tail_recovers_the_previous_commit() {
    let initial = record(0, b"initial");
    let next = record(1, b"committed database image");
    for cut in 1..next.len() {
        let mut bytes = initial.clone();
        bytes.extend(&next[..cut]);
        let (kept, recovered) = scan_journal(&bytes).unwrap();
        assert_eq!(recovered.unwrap(), (0, b"initial".to_vec()));
        assert_eq!(kept, initial.len());
        // Cut the torn tail, then append the next commit.
        let (mut state, kept_again, _) = JournalState::recover(&bytes).unwrap();
        assert_eq!(kept_again, kept);
        bytes.truncate(kept);
        bytes.extend(state.prepare_append(b"new commit").unwrap());
        state.finish_append(true).unwrap();
        assert_eq!(state.latest_version(), Some(1));
        assert_eq!(
            scan_journal(&bytes).unwrap().1.unwrap(),
            (1, b"new commit".to_vec())
        );
    }
}

#[test]
fn corruption_and_concurrent_open_fail_without_rewriting_history() {
    let mut bytes = record(0, b"initial");
    bytes[40] ^= 1;
    assert_eq!(scan_journal(&bytes), Err(JournalError::CorruptRecord));
    assert_eq!(
        scan_journal(&record(1, b"wrong first version")),
        Err(JournalError::NonContiguousVersions)
    );
    assert!(scan_journal(&record(0, b"valid")).is_ok());
}

#[test]
fn each_recovery_error_has_its_input() {
    let mut bytes = record(0, b"p");
    bytes[0] = b'X';
    assert_eq!(scan_journal(&bytes), Err(JournalError::InvalidMagic));
    let mut bytes = record(0, b"p");
    bytes[10] ^= 1;
    assert_eq!(scan_journal(&bytes), Err(JournalError::CorruptHeader));
    let mut bytes = record(0, b"p");
    let n = bytes.len();
    bytes[n - 1] = b'2';
    assert_eq!(scan_journal(&bytes), Err(JournalError::CorruptRecord));
    let mut bytes = record(0, b"a");
    bytes.extend(record(2, b"b"));
    assert_eq!(scan_journal(&bytes), Err(JournalError::NonContiguousVersions));
    let mut bytes = record(u64::MAX, b"a");
    bytes.extend(record(0, b"b"));
    assert_eq!(scan_journal(&bytes), Err(JournalError::NonContiguousVersions));
    assert_eq!(
        scan_journal(&record(0, b"abc")[..30]),
        Err(JournalError::NoInitialRecord)
    );
    assert_eq!(scan_journal(b""), Ok((0, None)));
    assert!(matches!(
        JournalError::CorruptHeader.to_error(),
        BustubxError::Storage(_)
    ));
}

#[test]
fn versions_count_up_and_the_latest_wins() {
    let mut bytes = Vec::new();
    for (v, p) in [b"zero".as_slice(), b"one", b"two"].iter().enumerate() {
        bytes.extend(record(v as u64, p));
    }
    let (kept, latest) = scan_journal(&bytes).unwrap();
    assert_eq!(kept, bytes.len());
    assert_eq!(latest, Some((2, b"two".to_vec())));
}

#[test]
fn failed_append_makes_journal_unusable() {
    let mut state = JournalState::new();
    assert!(state.ensure_usable().is_ok());
    assert!(state.finish_append(true).is_ok());
    assert_eq!(state.latest_version(), None);
    assert_eq!(state.prepare_append(b"first").unwrap(), record(0, b"first"));
    assert!(state.has_pending());
    assert!(matches!(
        state.finish_append(false),
        Err(BustubxError::Transaction(_))
    ));
    assert!(state.ensure_usable().is_err());
    assert_eq!(state.latest_version(), None);
    assert!(state.prepare_append(b"x").is_err());
}

#[test]
fn recovery_is_stable_after_cutting_the_tail() {
    let mut bytes = record(0, b"a");
    bytes.extend(record(1, b"bb"));
    let torn = record(2, b"ccc");
    bytes.extend(&torn[..45]);
    let (kept, latest) = scan_journal(&bytes).unwrap();
    assert_eq!(latest, Some((1, b"bb".to_vec())));
    let again = scan_journal(&bytes[..kept]).unwrap();
    assert_eq!(again, (kept, latest));
}
