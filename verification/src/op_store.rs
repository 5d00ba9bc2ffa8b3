//! Data model of the operation log: identifiers, metadata, operation
//! records, and the content-addressed operation store interface.

use vstd::prelude::*;

use crate::codec::dec_record;
use crate::codec::enc_record;
use crate::digest::digest_of;

verus! {

/// Content address of an operation record: the digest of its
/// serialized bytes.
#[derive(Debug)]
pub struct OperationId {
    pub bytes: Vec<u8>,
}

impl View for OperationId {
    type V = Seq<u8>;

    open spec fn view(&self) -> Seq<u8> {
        self.bytes@
    }
}

impl OperationId {
    pub fn new(bytes: Vec<u8>) -> (r: OperationId)
        ensures
            r@ == bytes@,
    {
        OperationId { bytes }
    }

    /// Byte-for-byte equality of two identifiers.
    pub fn matches(&self, other: &OperationId) -> (r: bool)
        ensures
            r == (self@ == other@),
    {
        bytes_eq(&self.bytes, &other.bytes)
    }
}

impl Clone for OperationId {
    fn clone(&self) -> (r: Self)
        ensures
            r@ == self@,
    {
        OperationId { bytes: clone_bytes(&self.bytes) }
    }
}

/// Content address of a view (the repository-metadata snapshot an
/// operation produces). Views themselves are opaque to this crate.
pub struct ViewId {
    pub bytes: Vec<u8>,
}

impl View for ViewId {
    type V = Seq<u8>;

    open spec fn view(&self) -> Seq<u8> {
        self.bytes@
    }
}

impl ViewId {
    pub fn new(bytes: Vec<u8>) -> (r: ViewId)
        ensures
            r@ == bytes@,
    {
        ViewId { bytes }
    }
}

impl Clone for ViewId {
    fn clone(&self) -> (r: Self)
        ensures
            r@ == self@,
    {
        ViewId { bytes: clone_bytes(&self.bytes) }
    }
}

/// Who and when: the bookkeeping attached to an operation. The end
/// timestamp is the authoritative key when operations must be totally
/// ordered for tie-breaking.
pub struct OperationMetadata {
    pub author: Vec<u8>,
    pub hostname: Vec<u8>,
    pub description: Vec<u8>,
    /// Start of the time interval, in milliseconds since the epoch.
    pub start_time: i64,
    /// End of the time interval, in milliseconds since the epoch.
    pub end_time: i64,
}

/// Mathematical value of an [`OperationMetadata`].
pub ghost struct MetadataView {
    pub author: Seq<u8>,
    pub hostname: Seq<u8>,
    pub description: Seq<u8>,
    pub start_time: i64,
    pub end_time: i64,
}

impl View for OperationMetadata {
    type V = MetadataView;

    open spec fn view(&self) -> MetadataView {
        MetadataView {
            author: self.author@,
            hostname: self.hostname@,
            description: self.description@,
            start_time: self.start_time,
            end_time: self.end_time,
        }
    }
}

impl Clone for OperationMetadata {
    fn clone(&self) -> (r: Self)
        ensures
            r@ == self@,
    {
        OperationMetadata {
            author: clone_bytes(&self.author),
            hostname: clone_bytes(&self.hostname),
            description: clone_bytes(&self.description),
            start_time: self.start_time,
            end_time: self.end_time,
        }
    }
}

/// An immutable node of the operation log, as stored: the ids of the
/// operations it succeeds, the view it produces, and its metadata.
pub struct OperationRecord {
    pub parent_ids: Vec<OperationId>,
    pub view_id: ViewId,
    pub metadata: OperationMetadata,
}

/// Mathematical value of an [`OperationRecord`].
pub ghost struct RecordView {
    pub parent_ids: Seq<Seq<u8>>,
    pub view_id: Seq<u8>,
    pub metadata: MetadataView,
}

/// The identifiers of a sequence of ids, as plain byte sequences.
pub open spec fn ids_view(ids: Seq<OperationId>) -> Seq<Seq<u8>> {
    ids.map_values(|id: OperationId| id@)
}

/// The identifiers of a sequence of ids, as a set.
pub open spec fn ids_set(ids: Seq<OperationId>) -> Set<Seq<u8>> {
    ids_view(ids).to_set()
}

/// No identifier occurs twice.
pub open spec fn distinct_ids(ids: Seq<OperationId>) -> bool {
    forall|i: int, j: int| 0 <= i < j < ids.len() ==> (#[trigger] ids[i])@ != (#[trigger] ids[j])@
}

pub proof fn lemma_ids_set_push(ids: Seq<OperationId>, e: OperationId)
    ensures
        ids_set(ids.push(e)) == ids_set(ids).insert(e@),
{
    assert forall|y: Seq<u8>| ids_set(ids.push(e)).contains(y) implies ids_set(ids).insert(
        e@,
    ).contains(y) by {
        let i = choose|i: int|
            0 <= i < ids_view(ids.push(e)).len() && ids_view(ids.push(e))[i] == y;
        if i < ids.len() {
            assert(ids_view(ids)[i] == y);
        } else {
            assert(y == e@);
        }
    }
    assert forall|y: Seq<u8>| ids_set(ids).insert(e@).contains(y) implies ids_set(
        ids.push(e),
    ).contains(y) by {
        if y == e@ {
            assert(ids_view(ids.push(e))[ids.len() as int] == y);
        } else {
            let i = choose|i: int| 0 <= i < ids_view(ids).len() && ids_view(ids)[i] == y;
            assert(ids_view(ids.push(e))[i] == y);
        }
    }
    assert(ids_set(ids.push(e)) =~= ids_set(ids).insert(e@));
}

pub proof fn lemma_ids_set_drop_last(ids: Seq<OperationId>)
    requires
        ids.len() > 0,
    ensures
        ids_set(ids) == ids_set(ids.drop_last()).insert(ids.last()@),
{
    assert(ids.drop_last().push(ids.last()) =~= ids);
    lemma_ids_set_push(ids.drop_last(), ids.last());
}

pub proof fn lemma_ids_set_take_step(ids: Seq<OperationId>, i: int)
    requires
        0 <= i < ids.len(),
    ensures
        ids_set(ids.take(i + 1)) == ids_set(ids.take(i)).insert(ids[i]@),
{
    assert(ids.take(i).push(ids[i]) =~= ids.take(i + 1));
    lemma_ids_set_push(ids.take(i), ids[i]);
}

pub proof fn lemma_ids_set_member(ids: Seq<OperationId>, i: int)
    requires
        0 <= i < ids.len(),
    ensures
        ids_set(ids).contains(ids[i]@),
{
    assert(ids_view(ids)[i] == ids[i]@);
}

pub proof fn lemma_distinct_ids_set_len(ids: Seq<OperationId>)
    requires
        distinct_ids(ids),
    ensures
        ids_set(ids).finite(),
        ids_set(ids).len() == ids.len(),
{
    let iv = ids_view(ids);
    assert forall|i: int, j: int| 0 <= i < iv.len() && 0 <= j < iv.len() && i != j implies iv[i]
        != iv[j] by {
        if i < j {
            assert(ids[i]@ != ids[j]@);
        } else {
            assert(ids[j]@ != ids[i]@);
        }
    }
    assert(iv.no_duplicates());
    iv.unique_seq_to_set();
    vstd::seq_lib::seq_to_set_is_finite(iv);
}

/// Whether `ids` holds `id`, by content.
pub fn contains_id(ids: &Vec<OperationId>, id: &OperationId) -> (r: bool)
    ensures
        r == ids_set(ids@).contains(id@),
{
    let mut i: usize = 0;
    let ghost iv = ids_view(ids@);
    while i < ids.len()
        invariant
            i <= ids@.len(),
            iv == ids_view(ids@),
            forall|j: int| 0 <= j < i ==> ids@[j]@ != id@,
        decreases ids@.len() - i,
    {
        if ids[i].matches(id) {
            proof {
                assert(iv[i as int] == id@);
            }
            return true;
        }
        i += 1;
    }
    proof {
        assert forall|j: int| 0 <= j < iv.len() implies iv[j] != id@ by {
            assert(ids@[j]@ != id@);
        }
        assert(!iv.contains(id@));
    }
    false
}

impl View for OperationRecord {
    type V = RecordView;

    open spec fn view(&self) -> RecordView {
        RecordView {
            parent_ids: ids_view(self.parent_ids@),
            view_id: self.view_id@,
            metadata: self.metadata@,
        }
    }
}

impl Clone for OperationRecord {
    fn clone(&self) -> (r: Self)
        ensures
            r@ == self@,
    {
        let r = OperationRecord {
            parent_ids: clone_ids(&self.parent_ids),
            view_id: self.view_id.clone(),
            metadata: self.metadata.clone(),
        };
        proof {
            assert(r@.parent_ids =~= self@.parent_ids);
            assert(r@ =~~= self@);
        }
        r
    }
}

/// An operation together with its content address: what callers of
/// the log work with once a record has been read or written.
pub struct Operation {
    pub id: OperationId,
    pub record: OperationRecord,
}

/// Mathematical value of an [`Operation`].
pub ghost struct OpView {
    pub id: Seq<u8>,
    pub record: RecordView,
}

impl View for Operation {
    type V = OpView;

    open spec fn view(&self) -> OpView {
        OpView { id: self.id@, record: self.record@ }
    }
}

impl Clone for Operation {
    fn clone(&self) -> (r: Self)
        ensures
            r@ == self@,
    {
        Operation { id: self.id.clone(), record: self.record.clone() }
    }
}

/// A read of the operation store failed: the id has no record, or the
/// stored bytes cannot be decoded.
#[derive(Debug)]
pub enum OpStoreError {
    NotFound(OperationId),
    Corrupt(OperationId),
}

/// Content-addressed, append-only storage for operation records.
///
/// The store's mathematical content is a map from content address to
/// stored bytes. Reads decode those bytes; writes serialize a record
/// and file it under the digest of its bytes, so writing the same
/// record twice is a no-op. No update or delete is exposed.
pub trait OpStore: Sized {
    /// The store is in a usable state.
    spec fn inv(&self) -> bool;

    /// The stored bytes, by content address.
    spec fn ops(&self) -> Map<Seq<u8>, Seq<u8>>;

    /// Load the record filed under `id`. Fails with `NotFound` when no
    /// bytes are filed there, and with `Corrupt` when the bytes there
    /// are not the encoding of any record.
    fn read_operation(&self, id: &OperationId) -> (r: Result<OperationRecord, OpStoreError>)
        requires
            self.inv(),
        ensures
            match r {
                Ok(rec) => self.ops().contains_key(id@) && dec_record(self.ops()[id@]) == Some(
                    rec@,
                ),
                Err(OpStoreError::NotFound(missing)) => !self.ops().contains_key(id@) && missing@
                    == id@,
                Err(OpStoreError::Corrupt(bad)) => self.ops().contains_key(id@) && dec_record(
                    self.ops()[id@],
                ) is None && bad@ == id@,
            },
    ;

    /// File `rec` under the digest of its canonical bytes and return
    /// that content address. Filing the same record again changes
    /// nothing.
    fn write_operation(&mut self, rec: &OperationRecord) -> (id: OperationId)
        requires
            old(self).inv(),
        ensures
            final(self).inv(),
            id@ == digest_of(enc_record(rec@)),
            final(self).ops() == old(self).ops().insert(id@, enc_record(rec@)),
    ;

    /// The store holds finitely many records.
    proof fn ops_finite(&self)
        requires
            self.inv(),
        ensures
            self.ops().dom().finite(),
    ;
}

/// Writing a record a second time files the same bytes under the same
/// content address, so the store after the second write is the store
/// after the first: writes are idempotent, and no duplicate entry
/// appears.
pub proof fn lemma_write_idempotent(ops: Map<Seq<u8>, Seq<u8>>, v: RecordView)
    ensures
        ops.insert(digest_of(enc_record(v)), enc_record(v)).insert(
            digest_of(enc_record(v)),
            enc_record(v),
        ) == ops.insert(digest_of(enc_record(v)), enc_record(v)),
{
    let one = ops.insert(digest_of(enc_record(v)), enc_record(v));
    assert(one.insert(digest_of(enc_record(v)), enc_record(v)) =~= one);
}

/// Copy a byte vector; the copy holds the same bytes.
pub fn clone_bytes(v: &Vec<u8>) -> (r: Vec<u8>)
    ensures
        r@ == v@,
{
    let r = v.clone();
    proof {
        assert(r@ =~= v@);
    }
    r
}

/// Copy a vector of ids; the copy holds the same ids.
pub fn clone_ids(ids: &Vec<OperationId>) -> (r: Vec<OperationId>)
    ensures
        ids_view(r@) == ids_view(ids@),
        r@.len() == ids@.len(),
        forall|i: int| 0 <= i < ids@.len() ==> r@[i]@ == ids@[i]@,
{
    let mut r: Vec<OperationId> = Vec::new();
    let mut i: usize = 0;
    while i < ids.len()
        invariant
            i <= ids@.len(),
            r@.len() == i,
            forall|j: int| 0 <= j < i ==> r@[j]@ == ids@[j]@,
        decreases ids@.len() - i,
    {
        r.push(ids[i].clone());
        i += 1;
    }
    proof {
        assert(ids_view(r@) =~= ids_view(ids@));
    }
    r
}

/// Byte-for-byte equality of two byte vectors.
pub fn bytes_eq(a: &Vec<u8>, b: &Vec<u8>) -> (r: bool)
    ensures
        r == (a@ == b@),
{
    if a.len() != b.len() {
        proof {
            assert(a@.len() != b@.len());
        }
        return false;
    }
    let mut i: usize = 0;
    while i < a.len()
        invariant
            a@.len() == b@.len(),
            i <= a@.len(),
            forall|j: int| 0 <= j < i ==> a@[j] == b@[j],
        decreases a@.len() - i,
    {
        if a[i] != b[i] {
            return false;
        }
        i += 1;
    }
    proof {
        assert(a@ =~= b@);
    }
    true
}

} // verus!
