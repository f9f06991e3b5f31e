use hash_index::callbacks::CallbackRegistry;
use hash_index::counter::CumulativeCounter;
use hash_index::hash_index::{Effect, HashEntry, HashIndex, Msg, Reply, Row};
use hash_index::ordered_collection::OrderedCollection;
use hash_index::queue::{QueueEntry, UniquePriorityQueue};
use hash_index::timer::FlushTimer;

fn digest(label: &[u8]) -> hash_index::hash_index::Hash {
    hash_index::hash_index::Hash { bytes: label.to_vec() }
}

fn entry(label: &[u8]) -> HashEntry {
    HashEntry { hash: digest(label), level: 0, payload: None, persistent_ref: None }
}

fn handle(hi: &mut HashIndex<u64>, msg: Msg<u64>) -> (Reply, Vec<Effect<u64>>) {
    hi.handle(msg, 0)
}

fn reopen(hi: &HashIndex<u64>) -> HashIndex<u64> {
    let mut rows: Vec<Row> = Vec::new();
    for r in &hi.rows {
        rows.push(r.duplicate());
    }
    HashIndex::new(rows, 10000, 0)
}

#[test]
fn s1_single_round_trip() {
    let mut hi = HashIndex::<u64>::new_for_testing();
    let (r, _) = handle(&mut hi, Msg::HashExists(digest(b"h1")));
    assert!(matches!(r, Reply::HashNotKnown));
    let (r, e) = handle(&mut hi, Msg::Reserve(entry(b"h1")));
    assert!(matches!(r, Reply::ReserveOK));
    assert!(e.is_empty());
    let (r, _) = handle(&mut hi, Msg::HashExists(digest(b"h1")));
    assert!(matches!(r, Reply::HashKnown));
    let (r, _) = handle(&mut hi, Msg::FetchPersistentRef(digest(b"h1")));
    assert!(matches!(r, Reply::Retry));
    let (r, _) = handle(&mut hi, Msg::Commit(digest(b"h1"), b"ref1".to_vec()));
    assert!(matches!(r, Reply::CommitOK));
    let (r, _) = handle(&mut hi, Msg::FetchPersistentRef(digest(b"h1")));
    match r {
        Reply::PersistentRef(v) => assert_eq!(v, b"ref1".to_vec()),
        _ => panic!("expected the committed reference"),
    }
}

#[test]
fn s2_duplicate_reservation() {
    let mut hi = HashIndex::<u64>::new_for_testing();
    handle(&mut hi, Msg::Reserve(entry(b"h1")));
    handle(&mut hi, Msg::Commit(digest(b"h1"), b"ref1".to_vec()));
    let rows_before = hi.rows.len();
    let counter_before = hi.id_counter.value;
    let (r, e) = handle(&mut hi, Msg::Reserve(entry(b"h1")));
    assert!(matches!(r, Reply::HashKnown));
    assert!(e.is_empty());
    assert_eq!(hi.rows.len(), rows_before);
    assert_eq!(hi.id_counter.value, counter_before);
    assert_eq!(hi.queue.len(), 0);
}

#[test]
fn s3_ordered_drain() {
    let mut hi = HashIndex::<u64>::new_for_testing();
    handle(&mut hi, Msg::Reserve(entry(b"h1")));
    handle(&mut hi, Msg::Reserve(entry(b"h2")));
    let (r, e) = handle(&mut hi, Msg::Commit(digest(b"h2"), b"r2".to_vec()));
    assert!(matches!(r, Reply::CommitOK));
    // h1 (id 1) is not ready, so nothing may drain yet
    assert!(e.is_empty());
    assert_eq!(hi.rows.len(), 0);
    let (r, e) = handle(&mut hi, Msg::Commit(digest(b"h1"), b"r1".to_vec()));
    assert!(matches!(r, Reply::CommitOK));
    assert_eq!(e.len(), 2);
    match &e[0] {
        Effect::InsertRow(row) => {
            assert_eq!(row.id, 1);
            assert_eq!(row.hash, b"h1".to_vec());
        },
        _ => panic!("expected the first insert"),
    }
    match &e[1] {
        Effect::InsertRow(row) => {
            assert_eq!(row.id, 2);
            assert_eq!(row.hash, b"h2".to_vec());
        },
        _ => panic!("expected the second insert"),
    }
    assert_eq!(hi.rows.len(), 2);
    assert_eq!(hi.rows[0].id, 1);
    assert_eq!(hi.rows[1].id, 2);
}

#[test]
fn s4_callback_timing() {
    let mut hi = HashIndex::<u64>::new_for_testing();
    handle(&mut hi, Msg::Reserve(entry(b"h1")));
    let (r, e) = handle(&mut hi, Msg::CallAfterHashIsComitted(digest(b"h1"), 7));
    assert!(matches!(r, Reply::CallbackRegistered));
    assert!(e.is_empty());
    let (_, e) = handle(&mut hi, Msg::Commit(digest(b"h1"), b"r1".to_vec()));
    // drained, but no database commit yet: the callback must not run
    for eff in &e {
        assert!(matches!(eff, Effect::InsertRow(_)));
    }
    let (r, e) = handle(&mut hi, Msg::Flush);
    assert!(matches!(r, Reply::CommitOK));
    assert_eq!(e.len(), 2);
    assert!(matches!(e[0], Effect::CommitDb));
    assert!(matches!(e[1], Effect::RunCallback(7)));
}

#[test]
fn callback_on_drained_uncommitted_digest_waits_for_commit() {
    let mut hi = HashIndex::<u64>::new_for_testing();
    handle(&mut hi, Msg::Reserve(entry(b"h1")));
    handle(&mut hi, Msg::Commit(digest(b"h1"), b"r1".to_vec()));
    // the row sits in the open transaction: drained, not yet durable
    assert!(hi.committed_rows < hi.rows.len());
    let (r, e) = handle(&mut hi, Msg::CallAfterHashIsComitted(digest(b"h1"), 7));
    assert!(matches!(r, Reply::CallbackRegistered));
    // the continuation must not run before the database commit
    assert!(e.is_empty());
    let (_, e) = handle(&mut hi, Msg::Flush);
    assert_eq!(e.len(), 2);
    assert!(matches!(e[0], Effect::CommitDb));
    assert!(matches!(e[1], Effect::RunCallback(7)));
}

#[test]
fn s5_callback_on_durable_digest() {
    let mut hi = HashIndex::<u64>::new_for_testing();
    handle(&mut hi, Msg::Reserve(entry(b"h1")));
    handle(&mut hi, Msg::CallAfterHashIsComitted(digest(b"h1"), 7));
    handle(&mut hi, Msg::Commit(digest(b"h1"), b"r1".to_vec()));
    handle(&mut hi, Msg::Flush);
    let (r, e) = handle(&mut hi, Msg::CallAfterHashIsComitted(digest(b"h1"), 9));
    assert!(matches!(r, Reply::CallbackRegistered));
    assert_eq!(e.len(), 1);
    assert!(matches!(e[0], Effect::RunCallback(9)));
}

#[test]
fn s6_update_before_commit_and_reopen() {
    let mut hi = HashIndex::<u64>::new_for_testing();
    handle(&mut hi, Msg::Reserve(entry(b"h1")));
    let update = HashEntry {
        hash: digest(b"h1"),
        level: 0,
        payload: Some(b"pl".to_vec()),
        persistent_ref: Some(b"ref1".to_vec()),
    };
    let (r, _) = handle(&mut hi, Msg::UpdateReserved(update));
    assert!(matches!(r, Reply::ReserveOK));
    let (r, _) = handle(&mut hi, Msg::FetchPayload(digest(b"h1")));
    match r {
        Reply::Payload(Some(p)) => assert_eq!(p, b"pl".to_vec()),
        _ => panic!("expected the updated payload"),
    }
    let (r, _) = handle(&mut hi, Msg::FetchPersistentRef(digest(b"h1")));
    match r {
        Reply::PersistentRef(v) => assert_eq!(v, b"ref1".to_vec()),
        _ => panic!("expected the updated reference"),
    }
    handle(&mut hi, Msg::Commit(digest(b"h1"), b"ref1".to_vec()));
    handle(&mut hi, Msg::Flush);
    let mut hi2 = reopen(&hi);
    let (r, _) = handle(&mut hi2, Msg::FetchPayload(digest(b"h1")));
    match r {
        Reply::Payload(Some(p)) => assert_eq!(p, b"pl".to_vec()),
        _ => panic!("expected the payload to survive the restart"),
    }
}

#[test]
fn lookup_transparency_across_commit_and_drain() {
    // the reference set by an update is observed before and after the commit
    let mut hi = HashIndex::<u64>::new_for_testing();
    handle(&mut hi, Msg::Reserve(entry(b"h1")));
    let update = HashEntry {
        hash: digest(b"h1"),
        level: 0,
        payload: None,
        persistent_ref: Some(b"r".to_vec()),
    };
    handle(&mut hi, Msg::UpdateReserved(update));
    let (r, _) = handle(&mut hi, Msg::FetchPersistentRef(digest(b"h1")));
    match r {
        Reply::PersistentRef(v) => assert_eq!(v, b"r".to_vec()),
        _ => panic!("expected the reference before the commit"),
    }
    handle(&mut hi, Msg::Commit(digest(b"h1"), b"r".to_vec()));
    assert_eq!(hi.queue.len(), 0);
    let (r, _) = handle(&mut hi, Msg::FetchPersistentRef(digest(b"h1")));
    match r {
        Reply::PersistentRef(v) => assert_eq!(v, b"r".to_vec()),
        _ => panic!("expected the reference after the drain"),
    }
}

#[test]
fn empty_payload_collapses_to_absent_after_drain() {
    let mut hi = HashIndex::<u64>::new_for_testing();
    let he = HashEntry {
        hash: digest(b"h1"),
        level: 0,
        payload: Some(Vec::new()),
        persistent_ref: None,
    };
    handle(&mut hi, Msg::Reserve(he));
    handle(&mut hi, Msg::Commit(digest(b"h1"), b"r".to_vec()));
    let (r, _) = handle(&mut hi, Msg::FetchPayload(digest(b"h1")));
    assert!(matches!(r, Reply::Payload(None)));
}

#[test]
fn unknown_digest_replies() {
    let mut hi = HashIndex::<u64>::new_for_testing();
    let (r, _) = handle(&mut hi, Msg::FetchPayload(digest(b"nope")));
    assert!(matches!(r, Reply::HashNotKnown));
    let (r, _) = handle(&mut hi, Msg::FetchPersistentRef(digest(b"nope")));
    assert!(matches!(r, Reply::HashNotKnown));
    let (r, e) = handle(&mut hi, Msg::CallAfterHashIsComitted(digest(b"nope"), 1));
    assert!(matches!(r, Reply::HashNotKnown));
    assert!(e.is_empty());
}

#[test]
fn id_monotonicity_across_restart() {
    let mut hi = HashIndex::<u64>::new_for_testing();
    handle(&mut hi, Msg::Reserve(entry(b"h1")));
    handle(&mut hi, Msg::Reserve(entry(b"h2")));
    handle(&mut hi, Msg::Commit(digest(b"h1"), b"r1".to_vec()));
    handle(&mut hi, Msg::Commit(digest(b"h2"), b"r2".to_vec()));
    handle(&mut hi, Msg::Flush);
    let max_id = hi.rows.iter().map(|r| r.id).max().unwrap();
    let mut hi2 = reopen(&hi);
    let next = hi2.next_id();
    assert!(next > max_id);
    assert_eq!(next, 3);
}

#[test]
fn schema_idempotent_reopen_equals_fresh() {
    let mut hi = HashIndex::<u64>::new_for_testing();
    let he = HashEntry {
        hash: digest(b"h1"),
        level: 2,
        payload: Some(b"children".to_vec()),
        persistent_ref: None,
    };
    handle(&mut hi, Msg::Reserve(he));
    handle(&mut hi, Msg::Commit(digest(b"h1"), b"r1".to_vec()));
    handle(&mut hi, Msg::Flush);
    // opening over the existing store and over a fresh copy of the same
    // committed rows answers lookups identically
    let mut a = reopen(&hi);
    let mut b = reopen(&hi);
    assert_eq!(a.id_counter.value, b.id_counter.value);
    for d in [b"h1".as_slice(), b"h2".as_slice()] {
        let (ra, _) = handle(&mut a, Msg::HashExists(digest(d)));
        let (rb, _) = handle(&mut b, Msg::HashExists(digest(d)));
        assert_eq!(matches!(ra, Reply::HashKnown), matches!(rb, Reply::HashKnown));
    }
    let (ra, _) = handle(&mut a, Msg::FetchPayload(digest(b"h1")));
    let (rb, _) = handle(&mut b, Msg::FetchPayload(digest(b"h1")));
    match (ra, rb) {
        (Reply::Payload(pa), Reply::Payload(pb)) => assert_eq!(pa, pb),
        _ => panic!("expected payloads from both stores"),
    }
}

#[test]
fn timed_flush_runs_through_reserve() {
    // interval 0: every message that may flush does flush first
    let mut hi: HashIndex<u64> = HashIndex::new(Vec::new(), 0, 0);
    handle(&mut hi, Msg::Reserve(entry(b"h1")));
    handle(&mut hi, Msg::CallAfterHashIsComitted(digest(b"h1"), 5));
    let (_, e) = handle(&mut hi, Msg::Commit(digest(b"h1"), b"r1".to_vec()));
    // commit drains h1 and then flushes: insert, database commit, callback
    assert_eq!(e.len(), 3);
    assert!(matches!(e[0], Effect::InsertRow(_)));
    assert!(matches!(e[1], Effect::CommitDb));
    assert!(matches!(e[2], Effect::RunCallback(5)));
}

#[test]
fn shutdown_flushes_and_commits_trailing_transaction() {
    let mut hi = HashIndex::<u64>::new_for_testing();
    handle(&mut hi, Msg::Reserve(entry(b"h1")));
    handle(&mut hi, Msg::CallAfterHashIsComitted(digest(b"h1"), 7));
    handle(&mut hi, Msg::Commit(digest(b"h1"), b"r1".to_vec()));
    let e = hi.shutdown();
    assert_eq!(e.len(), 3);
    assert!(matches!(e[0], Effect::CommitDb));
    assert!(matches!(e[1], Effect::RunCallback(7)));
    assert!(matches!(e[2], Effect::CommitDb));
    assert_eq!(hi.callbacks.group_count(), 0);
    assert_eq!(hi.committed_rows, hi.rows.len());
}

#[test]
fn sha512_digest_of_known_input() {
    let h = hash_index::hash_index::Hash::new(b"abc");
    assert_eq!(h.bytes.len(), 64);
    let expected: [u8; 64] = [
        0xdd, 0xaf, 0x35, 0xa1, 0x93, 0x61, 0x7a, 0xba, 0xcc, 0x41, 0x73, 0x49, 0xae, 0x20, 0x41,
        0x31, 0x12, 0xe6, 0xfa, 0x4e, 0x89, 0xa9, 0x7e, 0xa2, 0x0a, 0x9e, 0xee, 0xe6, 0x4b, 0x55,
        0xd3, 0x9a, 0x21, 0x92, 0x99, 0x2a, 0x27, 0x4f, 0xc1, 0xa8, 0x36, 0xba, 0x3c, 0x23, 0xa3,
        0xfe, 0xeb, 0xbd, 0x45, 0x4d, 0x44, 0x23, 0x64, 0x3c, 0xe8, 0x0e, 0x2a, 0x9a, 0xc9, 0x4f,
        0xa5, 0x4c, 0xa4, 0x9f,
    ];
    assert_eq!(h.bytes, expected.to_vec());
}

#[test]
fn flush_timer_fires_periodically() {
    let mut t = FlushTimer::new(10, 0);
    assert!(!t.did_fire(5));
    assert!(t.did_fire(10));
    assert!(!t.did_fire(15));
    assert!(t.did_fire(20));
}

#[test]
fn counter_is_monotone() {
    let mut c = CumulativeCounter::new(41);
    assert_eq!(c.next(), 42);
    assert_eq!(c.next(), 43);
    assert_eq!(c.value, 43);
}

#[test]
fn ordered_collection_keeps_keys_sorted() {
    let mut m: Vec<(i64, u32)> = Vec::new();
    m.insert_unique(5, 50);
    m.insert_unique(1, 10);
    m.insert_unique(3, 30);
    assert_eq!(m.find_min(), Some(1));
    m.update_value(3, 31);
    assert_eq!(m.pop_min(), Some((1, 10)));
    assert_eq!(m.pop_min(), Some((3, 31)));
    assert_eq!(m.pop_min(), Some((5, 50)));
    assert_eq!(m.pop_min(), None);
    assert_eq!(m.collection_len(), 0);
}

#[test]
fn queue_drain_stops_at_first_non_ready() {
    let mut q = UniquePriorityQueue::new();
    assert!(q.reserve_priority(1, b"d1".to_vec()).is_ok());
    q.put_value(
        &b"d1".to_vec(),
        QueueEntry { id: 1, level: 0, payload: None, persistent_ref: None },
    );
    assert!(q.reserve_priority(2, b"d2".to_vec()).is_ok());
    q.put_value(
        &b"d2".to_vec(),
        QueueEntry { id: 2, level: 0, payload: None, persistent_ref: Some(b"r2".to_vec()) },
    );
    // a duplicate digest is refused
    assert!(q.reserve_priority(3, b"d1".to_vec()).is_err());
    // the later entry is ready, but the minimum is not: nothing drains
    q.set_ready(2);
    assert!(q.pop_min_if_ready().is_none());
    assert_eq!(q.len(), 2);
    assert_eq!(q.find_id(&b"d1".to_vec()), Some(1));
}

#[test]
fn callback_registry_releases_only_flushable_groups() {
    let mut reg: CallbackRegistry<u64> = CallbackRegistry::new();
    reg.add(b"a".to_vec(), 1);
    reg.add(b"b".to_vec(), 2);
    reg.add(b"a".to_vec(), 3);
    reg.allow_flush(&b"a".to_vec());
    reg.allow_flush(&b"absent".to_vec());
    let fired = reg.flush_all();
    assert_eq!(fired, vec![1, 3]);
    assert_eq!(reg.group_count(), 1);
    reg.allow_flush(&b"b".to_vec());
    let fired = reg.flush_all();
    assert_eq!(fired, vec![2]);
    assert_eq!(reg.group_count(), 0);
}
