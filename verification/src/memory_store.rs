//! In-memory backends for the two stores: enough for tests and for
//! single-process use, and a model of what any persistent backend
//! must provide.

use vstd::pervasive::VecAdditionalExecFns;
use vstd::prelude::*;

use crate::codec::decode_record;
use crate::codec::encode_record;
use crate::digest::digest_bytes;
use crate::op_store::OpStore;
use crate::op_store::OpStoreError;
use crate::op_store::OperationId;
use crate::op_store::OperationRecord;
use crate::op_heads_store::OpHeadsStore;
use crate::op_heads_store::OpHeadsStoreError;
use crate::op_heads_store::OpHeadsStoreLock;
use crate::op_store::clone_bytes;
use crate::op_store::clone_ids;
use crate::op_store::contains_id;
use crate::op_store::distinct_ids;
use crate::op_store::ids_set;
use crate::op_store::ids_view;
use crate::op_store::lemma_ids_set_push;
use crate::op_store::lemma_ids_set_take_step;

verus! {

/// The map that an association list holds: later entries shadow
/// earlier ones with the same key.
pub open spec fn map_of(es: Seq<(OperationId, Vec<u8>)>) -> Map<Seq<u8>, Seq<u8>>
    decreases es.len(),
{
    if es.len() == 0 {
        Map::empty()
    } else {
        map_of(es.drop_last()).insert(es.last().0@, es.last().1@)
    }
}

/// No two entries share a key.
pub open spec fn unique_keys(es: Seq<(OperationId, Vec<u8>)>) -> bool {
    forall|i: int, j: int| 0 <= i < j < es.len() ==> (#[trigger] es[i]).0@ != (#[trigger] es[j]).0@
}

proof fn lemma_map_of_contains(es: Seq<(OperationId, Vec<u8>)>, k: Seq<u8>)
    ensures
        map_of(es).contains_key(k) <==> exists|i: int| 0 <= i < es.len() && (#[trigger] es[i]).0@
            == k,
    decreases es.len(),
{
    if es.len() == 0 {
    } else {
        lemma_map_of_contains(es.drop_last(), k);
        if es.last().0@ == k {
            assert(es[es.len() - 1].0@ == k);
        } else {
            if map_of(es).contains_key(k) {
                let i = choose|i: int| 0 <= i < es.drop_last().len() && (#[trigger] es.drop_last()[i]).0@ == k;
                assert(es[i].0@ == k);
            }
            if exists|i: int| 0 <= i < es.len() && (#[trigger] es[i]).0@ == k {
                let i = choose|i: int| 0 <= i < es.len() && (#[trigger] es[i]).0@ == k;
                assert(i < es.len() - 1);
                assert(es.drop_last()[i].0@ == k);
            }
        }
    }
}

proof fn lemma_map_of_at(es: Seq<(OperationId, Vec<u8>)>, i: int)
    requires
        unique_keys(es),
        0 <= i < es.len(),
    ensures
        map_of(es).contains_key(es[i].0@),
        map_of(es)[es[i].0@] == es[i].1@,
    decreases es.len(),
{
    if i == es.len() - 1 {
    } else {
        assert(unique_keys(es.drop_last()));
        assert(es.drop_last()[i] == es[i]);
        lemma_map_of_at(es.drop_last(), i);
        assert(es.last().0@ != es[i].0@);
    }
}

proof fn lemma_map_of_update(es: Seq<(OperationId, Vec<u8>)>, i: int, e: (OperationId, Vec<u8>))
    requires
        unique_keys(es),
        0 <= i < es.len(),
        e.0@ == es[i].0@,
    ensures
        map_of(es.update(i, e)) == map_of(es).insert(e.0@, e.1@),
        unique_keys(es.update(i, e)),
    decreases es.len(),
{
    let up = es.update(i, e);
    assert forall|a: int, b: int| 0 <= a < b < up.len() implies (#[trigger] up[a]).0@ != (
    #[trigger] up[b]).0@ by {
        assert(es[a].0@ != es[b].0@);
    }
    if i == es.len() - 1 {
        assert(up.drop_last() =~= es.drop_last());
        assert(up.last() == e);
        assert(map_of(es.drop_last()).insert(es[i].0@, es[i].1@).insert(e.0@, e.1@) =~= map_of(
            es.drop_last(),
        ).insert(e.0@, e.1@));
    } else {
        assert(up.drop_last() =~= es.drop_last().update(i, e));
        assert(unique_keys(es.drop_last()));
        assert(es.drop_last()[i] == es[i]);
        lemma_map_of_update(es.drop_last(), i, e);
        assert(up.last() == es.last());
        assert(es.last().0@ != e.0@);
        assert(map_of(es.drop_last()).insert(e.0@, e.1@).insert(es.last().0@, es.last().1@)
            =~= map_of(es.drop_last()).insert(es.last().0@, es.last().1@).insert(e.0@, e.1@));
    }
}

proof fn lemma_map_of_push(es: Seq<(OperationId, Vec<u8>)>, e: (OperationId, Vec<u8>))
    requires
        unique_keys(es),
        forall|i: int| 0 <= i < es.len() ==> (#[trigger] es[i]).0@ != e.0@,
    ensures
        map_of(es.push(e)) == map_of(es).insert(e.0@, e.1@),
        unique_keys(es.push(e)),
{
    assert(es.push(e).drop_last() =~= es);
    assert(es.push(e).last() == e);
    assert forall|a: int, b: int| 0 <= a < b < es.push(e).len() implies (#[trigger] es.push(
        e,
    )[a]).0@ != (#[trigger] es.push(e)[b]).0@ by {
        if b < es.len() {
            assert(es[a].0@ != es[b].0@);
        } else {
            assert(es[a].0@ != e.0@);
        }
    }
}

proof fn lemma_map_of_finite(es: Seq<(OperationId, Vec<u8>)>)
    ensures
        map_of(es).dom().finite(),
    decreases es.len(),
{
    if es.len() == 0 {
        assert(map_of(es).dom() =~= Set::<Seq<u8>>::empty());
    } else {
        lemma_map_of_finite(es.drop_last());
        assert(map_of(es).dom() =~= map_of(es.drop_last()).dom().insert(es.last().0@));
    }
}

proof fn lemma_map_of_len(es: Seq<(OperationId, Vec<u8>)>)
    requires
        unique_keys(es),
    ensures
        map_of(es).dom().finite(),
        map_of(es).dom().len() == es.len(),
    decreases es.len(),
{
    if es.len() == 0 {
        assert(map_of(es).dom() =~= Set::<Seq<u8>>::empty());
    } else {
        assert(unique_keys(es.drop_last()));
        lemma_map_of_len(es.drop_last());
        lemma_map_of_contains(es.drop_last(), es.last().0@);
        assert forall|i: int| 0 <= i < es.drop_last().len() implies (#[trigger] es.drop_last()[
            i]).0@ != es.last().0@ by {
            assert(es[i].0@ != es[es.len() - 1].0@);
        }
        assert(!map_of(es.drop_last()).contains_key(es.last().0@));
        let d = map_of(es.drop_last()).dom();
        vstd::set::axiom_set_insert_len(d, es.last().0@);
        assert(map_of(es).dom() =~= d.insert(es.last().0@));
    }
}

/// An operation store kept in memory: an association list from id to
/// stored bytes, with one entry per id.
pub struct MemoryOpStore {
    entries: Vec<(OperationId, Vec<u8>)>,
}

impl MemoryOpStore {
    pub fn new() -> (r: MemoryOpStore)
        ensures
            r.inv(),
            r.ops() == Map::<Seq<u8>, Seq<u8>>::empty(),
    {
        MemoryOpStore { entries: Vec::new() }
    }

    /// The index holding `id`, if any.
    fn find(&self, id: &OperationId) -> (r: Option<usize>)
        ensures
            match r {
                Some(i) => i < self.entries@.len() && self.entries@[i as int].0@ == id@,
                None => forall|i: int|
                    0 <= i < self.entries@.len() ==> (#[trigger] self.entries@[i]).0@ != id@,
            },
    {
        let mut i: usize = 0;
        while i < self.entries.len()
            invariant
                i <= self.entries@.len(),
                forall|j: int| 0 <= j < i ==> (#[trigger] self.entries@[j]).0@ != id@,
            decreases self.entries@.len() - i,
        {
            if self.entries[i].0.matches(id) {
                return Some(i);
            }
            i += 1;
        }
        None
    }

    /// File `bytes` under `id` as they are, replacing whatever was
    /// there. This is how another process's writes, well-formed or
    /// not, appear to this one.
    pub fn put_raw(&mut self, id: &OperationId, bytes: Vec<u8>)
        requires
            old(self).inv(),
        ensures
            final(self).inv(),
            final(self).ops() == old(self).ops().insert(id@, bytes@),
    {
        let entry = (id.clone(), bytes);
        match self.find(id) {
            Some(i) => {
                proof {
                    lemma_map_of_update(self.entries@, i as int, entry);
                }
                self.entries.set(i, entry);
            },
            None => {
                proof {
                    lemma_map_of_push(self.entries@, entry);
                }
                self.entries.push(entry);
            },
        }
    }

    /// How many distinct content addresses hold a record.
    pub fn num_operations(&self) -> (r: usize)
        requires
            self.inv(),
        ensures
            r == self.ops().dom().len(),
    {
        proof {
            lemma_map_of_len(self.entries@);
        }
        self.entries.len()
    }

    /// Whether some bytes are filed under `id`.
    pub fn contains_operation(&self, id: &OperationId) -> (r: bool)
        requires
            self.inv(),
        ensures
            r == self.ops().contains_key(id@),
    {
        proof {
            lemma_map_of_contains(self.entries@, id@);
        }
        match self.find(id) {
            Some(_) => true,
            None => false,
        }
    }
}

impl OpStore for MemoryOpStore {
    closed spec fn inv(&self) -> bool {
        unique_keys(self.entries@)
    }

    closed spec fn ops(&self) -> Map<Seq<u8>, Seq<u8>> {
        map_of(self.entries@)
    }

    fn read_operation(&self, id: &OperationId) -> (r: Result<OperationRecord, OpStoreError>) {
        proof {
            lemma_map_of_contains(self.entries@, id@);
        }
        match self.find(id) {
            None => Err(OpStoreError::NotFound(id.clone())),
            Some(i) => {
                proof {
                    lemma_map_of_at(self.entries@, i as int);
                }
                match decode_record(&self.entries[i].1) {
                    Some(rec) => Ok(rec),
                    None => Err(OpStoreError::Corrupt(id.clone())),
                }
            },
        }
    }

    fn write_operation(&mut self, rec: &OperationRecord) -> (id: OperationId) {
        let bytes = encode_record(rec);
        let id = OperationId::new(digest_bytes(&bytes));
        self.put_raw(&id, bytes);
        id
    }

    proof fn ops_finite(&self) {
        lemma_map_of_finite(self.entries@);
    }
}

/// The token the in-memory heads store hands out: advisory only, so it
/// carries nothing and excludes no one.
pub struct MemoryLockToken {}

impl OpHeadsStoreLock for MemoryLockToken {

}

/// An op-heads store kept in memory: the head ids, each once, and a
/// count of how often the advisory lock was taken, so that callers can
/// observe whether a resolution paid the locking cost.
pub struct MemoryOpHeadsStore {
    head_ids: Vec<OperationId>,
    lock_count: u64,
    lock_count_full: Ghost<nat>,
}

impl MemoryOpHeadsStore {
    pub fn new() -> (r: MemoryOpHeadsStore)
        ensures
            r.inv(),
            r.heads() == Set::<Seq<u8>>::empty(),
            r.locks() == 0,
    {
        let r = MemoryOpHeadsStore {
            head_ids: Vec::new(),
            lock_count: 0,
            lock_count_full: Ghost(0nat),
        };
        proof {
            assert(ids_view(r.head_ids@) =~= Seq::<Seq<u8>>::empty());
            assert(ids_set(r.head_ids@) =~= Set::<Seq<u8>>::empty());
        }
        r
    }

    /// How often the advisory lock has been taken.
    pub fn times_locked(&self) -> (r: u64)
        requires
            self.inv(),
        ensures
            self.locks() < u64::MAX as nat ==> r as nat == self.locks(),
    {
        self.lock_count
    }
}

impl OpHeadsStore for MemoryOpHeadsStore {
    type Lock = MemoryLockToken;

    closed spec fn inv(&self) -> bool {
        &&& distinct_ids(self.head_ids@)
        &&& self.lock_count == if self.lock_count_full@ >= u64::MAX as nat {
            u64::MAX
        } else {
            self.lock_count_full@ as u64
        }
    }

    closed spec fn heads(&self) -> Set<Seq<u8>> {
        ids_set(self.head_ids@)
    }

    closed spec fn locks(&self) -> nat {
        self.lock_count_full@
    }

    fn name(&self) -> &str {
        "memory"
    }

    fn update_op_heads(&mut self, old_ids: &Vec<OperationId>, new_id: &OperationId) -> (r: Result<
        (),
        OpHeadsStoreError,
    >)
        ensures
            r is Ok,
    {
        let ghost before = self.head_ids@;
        let mut kept: Vec<OperationId> = Vec::new();
        let mut i: usize = 0;
        proof {
            assert(ids_view(before.take(0)) =~= Seq::<Seq<u8>>::empty());
            assert(ids_set(kept@) =~= ids_set(before.take(0)).difference(ids_set(old_ids@)));
        }
        while i < self.head_ids.len()
            invariant
                i <= self.head_ids@.len(),
                self.head_ids@ == before,
                distinct_ids(before),
                ids_set(kept@) == ids_set(before.take(i as int)).difference(ids_set(old_ids@)),
                forall|k: int, l: int|
                    0 <= k < l < kept@.len() ==> (#[trigger] kept@[k])@ != (#[trigger] kept@[l])@,
                forall|k: int|
                    0 <= k < kept@.len() ==> ids_set(before).contains((#[trigger] kept@[k])@),
            decreases self.head_ids@.len() - i,
        {
            let ghost kept0 = kept@;
            let keep = !contains_id(old_ids, &self.head_ids[i]);
            proof {
                lemma_ids_set_take_step(before, i as int);
            }
            if keep {
                proof {
                    crate::op_store::lemma_ids_set_member(before, i as int);
                    if ids_set(kept0).contains(before[i as int]@) {
                        let k = choose|k: int|
                            0 <= k < ids_view(kept0).len() && ids_view(kept0)[k] == before[i as int]@;
                        let m = choose|m: int|
                            0 <= m < ids_view(before.take(i as int)).len() && ids_view(
                                before.take(i as int),
                            )[m] == kept0[k]@;
                        assert(before[m]@ == before[i as int]@);
                        assert(false);
                    }
                }
                kept.push(self.head_ids[i].clone());
                proof {
                    lemma_ids_set_push(kept0, kept@.last());
                    assert(ids_set(kept@) =~= ids_set(before.take(i + 1)).difference(
                        ids_set(old_ids@),
                    ));
                    assert forall|k: int, l: int|
                        0 <= k < l < kept@.len() implies (#[trigger] kept@[k])@ != (
                    #[trigger] kept@[l])@ by {
                        if l < kept0.len() {
                            assert(kept0[k]@ != kept0[l]@);
                        } else {
                            assert(!ids_set(kept0).contains(kept@[l]@));
                            crate::op_store::lemma_ids_set_member(kept0, k);
                        }
                    }
                }
            } else {
                proof {
                    assert(ids_set(kept@) =~= ids_set(before.take(i + 1)).difference(
                        ids_set(old_ids@),
                    ));
                }
            }
            i += 1;
        }
        proof {
            assert(before.take(before.len() as int) =~= before);
        }
        let ghost kept_full = kept@;
        if !contains_id(&kept, new_id) {
            kept.push(new_id.clone());
            proof {
                lemma_ids_set_push(kept_full, kept@.last());
                assert forall|k: int, l: int|
                    0 <= k < l < kept@.len() implies (#[trigger] kept@[k])@ != (
                #[trigger] kept@[l])@ by {
                    if l < kept_full.len() {
                        assert(kept_full[k]@ != kept_full[l]@);
                    } else {
                        crate::op_store::lemma_ids_set_member(kept_full, k);
                    }
                }
            }
        }
        proof {
            assert(ids_set(kept@) =~= ids_set(kept_full).insert(new_id@));
        }
        self.head_ids = kept;
        proof {
            assert(self.heads() =~= ids_set(before).difference(ids_set(old_ids@)).insert(
                new_id@,
            ));
        }
        Ok(())
    }

    fn get_op_heads(&self) -> (r: Result<Vec<OperationId>, OpHeadsStoreError>)
        ensures
            r is Ok,
    {
        Ok(clone_ids(&self.head_ids))
    }

    proof fn heads_finite(&self) {
        vstd::seq_lib::seq_to_set_is_finite(ids_view(self.head_ids@));
    }

    fn lock(&mut self) -> (r: Result<MemoryLockToken, OpHeadsStoreError>)
        ensures
            r is Ok,
    {
        self.lock_count_full = Ghost(self.lock_count_full@ + 1);
        if self.lock_count < u64::MAX {
            self.lock_count = self.lock_count + 1;
        }
        Ok(MemoryLockToken {  })
    }
}

} // verus!
