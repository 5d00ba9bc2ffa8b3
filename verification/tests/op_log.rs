use op_log::codec::decode_record;
use op_log::codec::encode_record;
use op_log::dag_walk::heads_ok;
use op_log::memory_store::MemoryOpHeadsStore;
use op_log::memory_store::MemoryOpStore;
use op_log::op_heads_store::MergeAllResolver;
use op_log::op_heads_store::OpHeadsStore;
use op_log::op_heads_store::OpHeadsStoreError;
use op_log::op_heads_store::ResolveError;
use op_log::op_heads_store::Resolver;
use op_log::op_heads_store::ResolverError;
use op_log::op_heads_store::resolve_op_heads;
use op_log::op_heads_store::sort_by_end_time;
use op_log::op_store::OpStore;
use op_log::op_store::OpStoreError;
use op_log::op_store::Operation;
use op_log::op_store::OperationId;
use op_log::op_store::OperationMetadata;
use op_log::op_store::OperationRecord;
use op_log::op_store::ViewId;

fn make_record(parent_ids: Vec<OperationId>, view: &[u8], end_time: i64) -> OperationRecord {
    OperationRecord {
        parent_ids,
        view_id: ViewId::new(view.to_vec()),
        metadata: OperationMetadata {
            author: b"alice".to_vec(),
            hostname: b"host".to_vec(),
            description: b"test operation".to_vec(),
            start_time: end_time - 1,
            end_time,
        },
    }
}

fn append(store: &mut MemoryOpStore, parents: &[&OperationId], view: &[u8], end_time: i64) -> OperationId {
    let parent_ids = parents.iter().map(|p| OperationId::new(p.bytes.clone())).collect();
    store.write_operation(&make_record(parent_ids, view, end_time))
}

fn head_bytes(heads: &MemoryOpHeadsStore) -> Vec<Vec<u8>> {
    let mut v: Vec<Vec<u8>> = heads
        .get_op_heads()
        .unwrap()
        .into_iter()
        .map(|id| id.bytes)
        .collect();
    v.sort();
    v
}

fn set_heads(heads: &mut MemoryOpHeadsStore, ids: &[&OperationId]) {
    for id in ids {
        let empty: Vec<OperationId> = Vec::new();
        heads.update_op_heads(&empty, id).unwrap();
    }
}

/// A resolver that records what it was invoked with, merges all heads,
/// and can be told to fail.
struct RecordingResolver {
    calls: usize,
    seen: Vec<Vec<u8>>,
    fail: bool,
    end_time: i64,
}

impl RecordingResolver {
    fn new(end_time: i64) -> RecordingResolver {
        RecordingResolver { calls: 0, seen: Vec::new(), fail: false, end_time }
    }
}

impl Resolver for RecordingResolver {
    fn merge(&mut self, heads: Vec<Operation>) -> Result<OperationRecord, ResolverError> {
        self.calls += 1;
        if self.fail {
            return Err(ResolverError { code: 7 });
        }
        let mut parent_ids: Vec<OperationId> = Vec::new();
        for h in &heads {
            self.seen.push(h.id.bytes.clone());
            parent_ids.push(OperationId::new(h.id.bytes.clone()));
        }
        let view_id = heads[heads.len() - 1].record.view_id.bytes.clone();
        Ok(OperationRecord {
            parent_ids,
            view_id: ViewId::new(view_id),
            metadata: OperationMetadata {
                author: b"merge".to_vec(),
                hostname: b"host".to_vec(),
                description: b"merge divergent operations".to_vec(),
                start_time: self.end_time - 1,
                end_time: self.end_time,
            },
        })
    }
}

#[test]
fn test_codec_round_trip() {
    let mut store = MemoryOpStore::new();
    let root = append(&mut store, &[], b"view-root", 10);
    let rec = make_record(vec![OperationId::new(root.bytes.clone())], b"some view", 42);
    let bytes = encode_record(&rec);
    let back = decode_record(&bytes).expect("canonical bytes must decode");
    assert_eq!(back.parent_ids.len(), 1);
    assert_eq!(back.parent_ids[0].bytes, root.bytes);
    assert_eq!(back.view_id.bytes, b"some view".to_vec());
    assert_eq!(back.metadata.author, b"alice".to_vec());
    assert_eq!(back.metadata.hostname, b"host".to_vec());
    assert_eq!(back.metadata.description, b"test operation".to_vec());
    assert_eq!(back.metadata.start_time, 41);
    assert_eq!(back.metadata.end_time, 42);
}

#[test]
fn test_codec_exact_bytes_of_trivial_record() {
    let rec = OperationRecord {
        parent_ids: Vec::new(),
        view_id: ViewId::new(Vec::new()),
        metadata: OperationMetadata {
            author: Vec::new(),
            hostname: Vec::new(),
            description: Vec::new(),
            start_time: 0,
            end_time: 0,
        },
    };
    let bytes = encode_record(&rec);
    assert_eq!(bytes, vec![0u8; 56]);
}

#[test]
fn test_codec_rejects_garbage_and_trailing_bytes() {
    assert!(decode_record(&vec![1u8, 2, 3]).is_none());
    let rec = make_record(Vec::new(), b"v", 5);
    let mut bytes = encode_record(&rec);
    bytes.push(0);
    assert!(decode_record(&bytes).is_none());
}

#[test]
fn test_write_idempotent() {
    let mut store = MemoryOpStore::new();
    let rec = make_record(Vec::new(), b"view", 1);
    let id1 = store.write_operation(&rec);
    let id2 = store.write_operation(&rec);
    assert_eq!(id1.bytes, id2.bytes);
    assert_eq!(id1.bytes.len(), 64);
    assert_eq!(store.num_operations(), 1);
}

#[test]
fn test_read_back_written_record() {
    let mut store = MemoryOpStore::new();
    let rec = make_record(Vec::new(), b"view", 1);
    let id = store.write_operation(&rec);
    let back = store.read_operation(&id).unwrap();
    assert_eq!(back.view_id.bytes, b"view".to_vec());
    assert_eq!(back.metadata.end_time, 1);
}

#[test]
fn test_read_not_found() {
    let store = MemoryOpStore::new();
    let id = OperationId::new(b"no such id".to_vec());
    match store.read_operation(&id) {
        Err(OpStoreError::NotFound(m)) => assert_eq!(m.bytes, b"no such id".to_vec()),
        _ => panic!("expected NotFound"),
    }
}

#[test]
fn test_read_corrupt() {
    let mut store = MemoryOpStore::new();
    let id = OperationId::new(b"damaged".to_vec());
    store.put_raw(&id, vec![1, 2, 3]);
    match store.read_operation(&id) {
        Err(OpStoreError::Corrupt(b)) => assert_eq!(b.bytes, b"damaged".to_vec()),
        _ => panic!("expected Corrupt"),
    }
}

#[test]
fn test_dag_filter_diamond_keeps_both() {
    let mut store = MemoryOpStore::new();
    let r = append(&mut store, &[], b"root", 1);
    let a = append(&mut store, &[&r], b"a", 2);
    let b = append(&mut store, &[&r], b"b", 3);
    let candidates = vec![
        OperationId::new(a.bytes.clone()),
        OperationId::new(b.bytes.clone()),
    ];
    let mut out: Vec<Vec<u8>> = heads_ok(&store, &candidates)
        .unwrap()
        .into_iter()
        .map(|id| id.bytes)
        .collect();
    out.sort();
    let mut expected = vec![a.bytes.clone(), b.bytes.clone()];
    expected.sort();
    assert_eq!(out, expected);
}

#[test]
fn test_dag_filter_chain_keeps_descendant_only() {
    let mut store = MemoryOpStore::new();
    let r = append(&mut store, &[], b"root", 1);
    let a = append(&mut store, &[&r], b"a", 2);
    let b = append(&mut store, &[&a], b"b", 3);
    let candidates = vec![
        OperationId::new(a.bytes.clone()),
        OperationId::new(b.bytes.clone()),
    ];
    let out = heads_ok(&store, &candidates).unwrap();
    assert_eq!(out.len(), 1);
    assert_eq!(out[0].bytes, b.bytes);
}

#[test]
fn test_dag_filter_missing_parent_fails() {
    let mut store = MemoryOpStore::new();
    let absent_parent = OperationId::new(b"missing".to_vec());
    let a = append(&mut store, &[&absent_parent], b"a", 2);
    let candidates = vec![OperationId::new(a.bytes.clone())];
    match heads_ok(&store, &candidates) {
        Err(OpStoreError::NotFound(m)) => assert_eq!(m.bytes, b"missing".to_vec()),
        _ => panic!("expected NotFound for the unresolvable parent"),
    }
}

#[test]
fn test_single_head_fast_path() {
    let mut store = MemoryOpStore::new();
    let mut heads = MemoryOpHeadsStore::new();
    let r = append(&mut store, &[], b"root", 1);
    let a = append(&mut store, &[&r], b"a", 2);
    set_heads(&mut heads, &[&a]);
    let ops_before = store.num_operations();
    let mut resolver = RecordingResolver::new(100);
    let op = resolve_op_heads(&mut heads, &mut store, &mut resolver).unwrap();
    assert_eq!(op.id.bytes, a.bytes);
    assert_eq!(op.record.view_id.bytes, b"a".to_vec());
    assert_eq!(heads.times_locked(), 0, "the fast path must not lock");
    assert_eq!(resolver.calls, 0);
    assert_eq!(store.num_operations(), ops_before, "the fast path must not write");
    assert_eq!(head_bytes(&heads), vec![a.bytes.clone()]);
}

#[test]
fn test_stale_ancestor_cleanup() {
    let mut store = MemoryOpStore::new();
    let mut heads = MemoryOpHeadsStore::new();
    let a = append(&mut store, &[], b"a", 1);
    let b = append(&mut store, &[&a], b"b", 2);
    set_heads(&mut heads, &[&a, &b]);
    let ops_before = store.num_operations();
    let mut resolver = RecordingResolver::new(100);
    let op = resolve_op_heads(&mut heads, &mut store, &mut resolver).unwrap();
    assert_eq!(op.id.bytes, b.bytes);
    assert_eq!(resolver.calls, 0, "staleness cleanup must not invoke the resolver");
    assert_eq!(store.num_operations(), ops_before, "no merge operation is created");
    assert_eq!(head_bytes(&heads), vec![b.bytes.clone()]);
}

#[test]
fn test_stale_ancestor_cleanup_again_is_fast() {
    let mut store = MemoryOpStore::new();
    let mut heads = MemoryOpHeadsStore::new();
    let a = append(&mut store, &[], b"a", 1);
    let b = append(&mut store, &[&a], b"b", 2);
    set_heads(&mut heads, &[&a, &b]);
    let mut resolver = RecordingResolver::new(100);
    resolve_op_heads(&mut heads, &mut store, &mut resolver).unwrap();
    let locks_after_first = heads.times_locked();
    let op = resolve_op_heads(&mut heads, &mut store, &mut resolver).unwrap();
    assert_eq!(op.id.bytes, b.bytes);
    assert_eq!(heads.times_locked(), locks_after_first, "second resolution takes the fast path");
    assert_eq!(head_bytes(&heads), vec![b.bytes.clone()]);
}

#[test]
fn test_divergence_merge() {
    let mut store = MemoryOpStore::new();
    let mut heads = MemoryOpHeadsStore::new();
    let r = append(&mut store, &[], b"root", 1);
    // b carries the earlier end timestamp, so it must come first
    let a = append(&mut store, &[&r], b"a", 20);
    let b = append(&mut store, &[&r], b"b", 10);
    set_heads(&mut heads, &[&a, &b]);
    let mut resolver = RecordingResolver::new(100);
    let op = resolve_op_heads(&mut heads, &mut store, &mut resolver).unwrap();
    assert_eq!(resolver.calls, 1, "the resolver is invoked exactly once");
    assert_eq!(
        resolver.seen,
        vec![b.bytes.clone(), a.bytes.clone()],
        "heads are handed over sorted by ascending end timestamp"
    );
    assert_eq!(heads.times_locked(), 1);
    let parents: Vec<Vec<u8>> = op.record.parent_ids.iter().map(|p| p.bytes.clone()).collect();
    assert_eq!(parents, vec![b.bytes.clone(), a.bytes.clone()]);
    assert_eq!(
        head_bytes(&heads),
        vec![op.id.bytes.clone()],
        "the head set holds exactly the merge operation's id"
    );
    let stored = store.read_operation(&op.id).unwrap();
    assert_eq!(stored.metadata.end_time, 100);
}

#[test]
fn test_no_lost_update_under_race() {
    let mut store = MemoryOpStore::new();
    let mut heads = MemoryOpHeadsStore::new();
    let r = append(&mut store, &[], b"root", 1);
    let a = append(&mut store, &[&r], b"a", 20);
    let b = append(&mut store, &[&r], b"b", 10);
    set_heads(&mut heads, &[&a, &b]);
    // two resolution attempts over the same divergence, as when two
    // processes race: the second observes what the first already did
    let mut resolver1 = RecordingResolver::new(100);
    let first = resolve_op_heads(&mut heads, &mut store, &mut resolver1).unwrap();
    let mut resolver2 = RecordingResolver::new(200);
    let second = resolve_op_heads(&mut heads, &mut store, &mut resolver2).unwrap();
    assert_eq!(second.id.bytes, first.id.bytes);
    assert_eq!(resolver2.calls, 0, "the second attempt finds divergence already resolved");
    let after = head_bytes(&heads);
    assert_eq!(after.len(), 1, "exactly one head survives");
    let merged = store.read_operation(&first.id).unwrap();
    let mut parents: Vec<Vec<u8>> = merged.parent_ids.iter().map(|p| p.bytes.clone()).collect();
    parents.sort();
    let mut both = vec![a.bytes.clone(), b.bytes.clone()];
    both.sort();
    assert_eq!(parents, both, "the surviving operation's parents cover both heads");
}

#[test]
fn test_empty_log_error() {
    let mut store = MemoryOpStore::new();
    let mut heads = MemoryOpHeadsStore::new();
    let mut resolver = RecordingResolver::new(100);
    match resolve_op_heads(&mut heads, &mut store, &mut resolver) {
        Err(ResolveError::Resolution(_)) => {}
        _ => panic!("an empty log must yield NoHeads"),
    }
    assert_eq!(store.num_operations(), 0, "nothing is written on the empty log");
    assert_eq!(resolver.calls, 0);
}

#[test]
fn test_resolver_error_propagates() {
    let mut store = MemoryOpStore::new();
    let mut heads = MemoryOpHeadsStore::new();
    let r = append(&mut store, &[], b"root", 1);
    let a = append(&mut store, &[&r], b"a", 20);
    let b = append(&mut store, &[&r], b"b", 10);
    set_heads(&mut heads, &[&a, &b]);
    let ops_before = store.num_operations();
    let mut resolver = RecordingResolver::new(100);
    resolver.fail = true;
    match resolve_op_heads(&mut heads, &mut store, &mut resolver) {
        Err(ResolveError::Resolver(e)) => assert_eq!(e.code, 7),
        _ => panic!("the resolver's error must propagate"),
    }
    assert_eq!(store.num_operations(), ops_before);
    let mut expected = vec![a.bytes.clone(), b.bytes.clone()];
    expected.sort();
    assert_eq!(head_bytes(&heads), expected, "a failed merge leaves the heads as they were");
}

#[test]
fn test_resolution_missing_head_record_fails() {
    let mut store = MemoryOpStore::new();
    let mut heads = MemoryOpHeadsStore::new();
    let missing_a = OperationId::new(b"gone-a".to_vec());
    let missing_b = OperationId::new(b"gone-b".to_vec());
    set_heads(&mut heads, &[&missing_a, &missing_b]);
    let mut resolver = RecordingResolver::new(100);
    match resolve_op_heads(&mut heads, &mut store, &mut resolver) {
        Err(ResolveError::Store(OpStoreError::NotFound(_))) => {}
        _ => panic!("a head whose record is missing must surface NotFound"),
    }
}

#[test]
fn test_merge_all_resolver() {
    let mut store = MemoryOpStore::new();
    let mut heads = MemoryOpHeadsStore::new();
    let r = append(&mut store, &[], b"root", 1);
    let a = append(&mut store, &[&r], b"a", 20);
    let b = append(&mut store, &[&r], b"b", 10);
    set_heads(&mut heads, &[&a, &b]);
    let mut resolver = MergeAllResolver {
        author: b"merge".to_vec(),
        hostname: b"host".to_vec(),
        description: b"resolve divergence".to_vec(),
        start_time: 99,
        end_time: 100,
    };
    let op = resolve_op_heads(&mut heads, &mut store, &mut resolver).unwrap();
    assert_eq!(op.record.parent_ids.len(), 2);
    assert_eq!(op.record.view_id.bytes, b"a".to_vec(), "the latest head's view is kept");
    assert_eq!(head_bytes(&heads), vec![op.id.bytes.clone()]);
}

#[test]
fn test_sort_by_end_time_orders_and_breaks_ties_by_id() {
    let mut ops: Vec<Operation> = Vec::new();
    for (id, end_time) in [(b"zz".to_vec(), 5i64), (b"aa".to_vec(), 5), (b"mm".to_vec(), 1)] {
        ops.push(Operation {
            id: OperationId::new(id),
            record: make_record(Vec::new(), b"v", end_time),
        });
    }
    let sorted = sort_by_end_time(ops);
    let order: Vec<Vec<u8>> = sorted.iter().map(|o| o.id.bytes.clone()).collect();
    assert_eq!(order, vec![b"mm".to_vec(), b"aa".to_vec(), b"zz".to_vec()]);
}

#[test]
fn test_update_op_heads_removes_and_adds() {
    let mut heads = MemoryOpHeadsStore::new();
    let a = OperationId::new(b"a".to_vec());
    let b = OperationId::new(b"b".to_vec());
    let c = OperationId::new(b"c".to_vec());
    set_heads(&mut heads, &[&a, &b]);
    let old = vec![OperationId::new(a.bytes.clone()), OperationId::new(b.bytes.clone())];
    heads.update_op_heads(&old, &c).unwrap();
    assert_eq!(head_bytes(&heads), vec![b"c".to_vec()]);
    assert_eq!(heads.name(), "memory");
}

#[test]
fn test_heads_store_error_values() {
    let read = OpHeadsStoreError::Read(op_log::op_heads_store::BackendError { code: 1 });
    assert!(matches!(read, OpHeadsStoreError::Read(_)));
    let lock = OpHeadsStoreError::Lock(op_log::op_heads_store::BackendError { code: 2 });
    assert!(matches!(lock, OpHeadsStoreError::Lock(_)));
    let write = OpHeadsStoreError::Write {
        new_op_id: OperationId::new(b"x".to_vec()),
        cause: op_log::op_heads_store::BackendError { code: 3 },
    };
    match write {
        OpHeadsStoreError::Write { new_op_id, cause } => {
            assert_eq!(new_op_id.bytes, b"x".to_vec());
            assert_eq!(cause.code, 3);
        }
        _ => unreachable!(),
    }
}

#[test]
fn test_put_raw_overwrites_and_contains() {
    let mut store = MemoryOpStore::new();
    let id = OperationId::new(b"slot".to_vec());
    assert!(!store.contains_operation(&id));
    store.put_raw(&id, vec![9, 9, 9]);
    assert!(store.contains_operation(&id));
    let rec = make_record(Vec::new(), b"view", 3);
    store.put_raw(&id, encode_record(&rec));
    assert_eq!(store.num_operations(), 1, "overwriting a slot adds no entry");
    let back = store.read_operation(&id).unwrap();
    assert_eq!(back.view_id.bytes, b"view".to_vec());
}

#[test]
fn test_heads_snapshot_has_no_repeats() {
    let mut heads = MemoryOpHeadsStore::new();
    let a = OperationId::new(b"a".to_vec());
    set_heads(&mut heads, &[&a, &a]);
    assert_eq!(head_bytes(&heads), vec![b"a".to_vec()]);
}

#[test]
fn test_divergence_merge_tie_broken_by_id() {
    let mut store = MemoryOpStore::new();
    let mut heads = MemoryOpHeadsStore::new();
    let r = append(&mut store, &[], b"root", 1);
    // both writers finish at the same instant: ids break the tie
    let a = append(&mut store, &[&r], b"a", 10);
    let b = append(&mut store, &[&r], b"b", 10);
    set_heads(&mut heads, &[&a, &b]);
    let mut resolver = RecordingResolver::new(100);
    resolve_op_heads(&mut heads, &mut store, &mut resolver).unwrap();
    assert_eq!(resolver.calls, 1);
    let mut expected = vec![a.bytes.clone(), b.bytes.clone()];
    expected.sort();
    assert_eq!(resolver.seen, expected, "equal timestamps are ordered by id bytes");
}

#[test]
fn test_three_way_divergence_merges_all() {
    let mut store = MemoryOpStore::new();
    let mut heads = MemoryOpHeadsStore::new();
    let r = append(&mut store, &[], b"root", 1);
    let a = append(&mut store, &[&r], b"a", 30);
    let b = append(&mut store, &[&r], b"b", 10);
    let c = append(&mut store, &[&r], b"c", 20);
    set_heads(&mut heads, &[&a, &b, &c]);
    let mut resolver = RecordingResolver::new(100);
    let op = resolve_op_heads(&mut heads, &mut store, &mut resolver).unwrap();
    assert_eq!(resolver.calls, 1);
    assert_eq!(
        resolver.seen,
        vec![b.bytes.clone(), c.bytes.clone(), a.bytes.clone()],
        "all three true heads arrive, in ascending end-time order"
    );
    assert_eq!(op.record.parent_ids.len(), 3);
    assert_eq!(head_bytes(&heads), vec![op.id.bytes.clone()]);
}
