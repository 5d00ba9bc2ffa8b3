//! The mutable head set of the operation log, and the resolution
//! routine that collapses divergent heads into one current operation.

use vstd::multiset::Multiset;
use vstd::prelude::*;

use crate::codec::dec_record;
use crate::codec::enc_record;
use crate::dag_walk::closure_resolvable;
use crate::dag_walk::graph_of;
use crate::dag_walk::heads_ok;
use crate::dag_walk::heads_spec;
use crate::dag_walk::in_closure;
use crate::op_store::OpStore;
use crate::op_store::OpStoreError;
use crate::op_store::Operation;
use crate::op_store::OperationId;
use crate::op_store::OperationMetadata;
use crate::op_store::OperationRecord;
use crate::op_store::OpView;
use crate::op_store::clone_bytes;
use crate::op_store::clone_ids;
use crate::op_store::contains_id;
use crate::op_store::distinct_ids;
use crate::op_store::ids_set;
use crate::op_store::ids_view;
use crate::op_store::lemma_distinct_ids_set_len;
use crate::op_store::lemma_ids_set_member;
use crate::op_store::lemma_ids_set_push;
use crate::op_store::lemma_ids_set_take_step;
use crate::digest::digest_of;

verus! {

/// An opaque cause carried out of a storage backend.
#[derive(Clone, Copy, Debug, PartialEq, Eq, Structural)]
pub struct BackendError {
    pub code: u64,
}

/// The op-heads store failed: its backing storage could not be read,
/// could not record the new head, or could not be locked.
#[derive(Debug)]
pub enum OpHeadsStoreError {
    Read(BackendError),
    Write { new_op_id: OperationId, cause: BackendError },
    Lock(BackendError),
}

/// Resolution found the log unusable: it has no heads at all.
#[derive(Debug)]
pub enum OpHeadResolutionError {
    NoHeads,
}

/// The externally supplied merge failed; its cause is opaque here and
/// simply propagates.
#[derive(Clone, Copy, Debug, PartialEq, Eq, Structural)]
pub struct ResolverError {
    pub code: u64,
}

/// Everything `resolve_op_heads` can fail with.
#[derive(Debug)]
pub enum ResolveError {
    Resolution(OpHeadResolutionError),
    HeadsStore(OpHeadsStoreError),
    Store(OpStoreError),
    Resolver(ResolverError),
}

/// A token standing for advisory exclusive access to the op-head set;
/// dropped when the holder is done. Purely a throughput optimization:
/// resolution stays correct if it never excludes anyone.
pub trait OpHeadsStoreLock {

}

/// Manages the set of current heads of the operation log.
///
/// Its mathematical content is the set of head ids. The snapshot a
/// read returns may legitimately list ids that are ancestors of one
/// another; callers must not assume a minimal antichain.
pub trait OpHeadsStore: Sized {
    type Lock: OpHeadsStoreLock;

    /// The store is in a usable state.
    spec fn inv(&self) -> bool;

    /// The ids currently recorded as heads.
    spec fn heads(&self) -> Set<Seq<u8>>;

    /// How many times the advisory lock has been taken.
    spec fn locks(&self) -> nat;

    /// A label for this backend.
    fn name(&self) -> &str;

    /// Remove the old op heads and add the new one, atomically.
    ///
    /// The old op heads must not contain the new one. After a failure
    /// the set is in no known state; the error names the head that was
    /// being recorded.
    fn update_op_heads(&mut self, old_ids: &Vec<OperationId>, new_id: &OperationId) -> (r: Result<
        (),
        OpHeadsStoreError,
    >)
        requires
            old(self).inv(),
            forall|i: int| 0 <= i < old_ids@.len() ==> (#[trigger] old_ids@[i])@ != new_id@,
        ensures
            final(self).inv(),
            final(self).locks() == old(self).locks(),
            match r {
                Ok(_) => final(self).heads() == old(self).heads().difference(
                    ids_set(old_ids@),
                ).insert(new_id@),
                Err(e) => e matches OpHeadsStoreError::Write { new_op_id, cause: _ }
                    && new_op_id@ == new_id@,
            },
    ;

    /// The current best-known snapshot of the head set, without
    /// repeats.
    fn get_op_heads(&self) -> (r: Result<Vec<OperationId>, OpHeadsStoreError>)
        requires
            self.inv(),
        ensures
            match r {
                Ok(ids) => ids_set(ids@) == self.heads() && distinct_ids(ids@),
                Err(e) => e is Read,
            },
    ;

    /// Take the advisory lock. Taking it moves no heads; it only
    /// discourages concurrent processes from resolving the same
    /// divergence twice.
    fn lock(&mut self) -> (r: Result<Self::Lock, OpHeadsStoreError>)
        requires
            old(self).inv(),
        ensures
            final(self).inv(),
            final(self).heads() == old(self).heads(),
            final(self).locks() == old(self).locks() + 1,
            r matches Err(e) ==> e is Lock,
    ;

    /// The store records finitely many heads.
    proof fn heads_finite(&self)
        requires
            self.inv(),
        ensures
            self.heads().finite(),
    ;
}

/// The externally supplied merge policy: from the divergent head
/// operations, produce the record of one operation that succeeds
/// them. How the views are merged is this trait's business alone; the
/// resolution routine hands over the heads sorted, and only requires
/// that the declared parents are drawn from them.
pub trait Resolver: Sized {
    fn merge(&mut self, heads: Vec<Operation>) -> (r: Result<OperationRecord, ResolverError>)
        requires
            sorted_ops(heads@),
            distinct_op_ids(ops_view(heads@)),
        ensures
            r matches Ok(rec) ==> forall|i: int|
                #![trigger rec.parent_ids@[i]]
                0 <= i < rec.parent_ids@.len() ==> exists|j: int|
                    0 <= j < heads@.len() && rec.parent_ids@[i]@ == (#[trigger] heads@[j]).id@,
    ;
}


/// No two of the values carry the same id.
pub open spec fn distinct_op_ids(s: Seq<OpView>) -> bool {
    forall|i: int, j: int| 0 <= i < j < s.len() ==> (#[trigger] s[i]).id != (#[trigger] s[j]).id
}

/// Every element of a filtered sequence is an element of the original.
proof fn lemma_filter_sub(s: Seq<OpView>, pred: spec_fn(OpView) -> bool)
    ensures
        forall|k: int|
            0 <= k < s.filter(pred).len() ==> s.contains(#[trigger] s.filter(pred)[k]),
    decreases s.len(),
{
    if s.len() == 0 {
        reveal(Seq::filter);
    } else {
        let d = s.drop_last();
        lemma_filter_sub(d, pred);
        d.lemma_filter_push(s.last(), pred);
        assert(d.push(s.last()) =~= s);
        assert forall|k: int| 0 <= k < s.filter(pred).len() implies s.contains(
            #[trigger] s.filter(pred)[k],
        ) by {
            if pred(s.last()) && k == s.filter(pred).len() - 1 {
                assert(s.filter(pred)[k] == s.last());
                assert(s[s.len() - 1] == s.last());
            } else {
                assert(s.filter(pred)[k] == d.filter(pred)[k]);
                assert(d.contains(d.filter(pred)[k]));
                let m = choose|m: int| 0 <= m < d.len() && d[m] == d.filter(pred)[k];
                assert(s[m] == d.filter(pred)[k]);
            }
        }
    }
}

/// Filtering keeps distinct ids distinct.
proof fn lemma_filter_distinct(s: Seq<OpView>, pred: spec_fn(OpView) -> bool)
    requires
        distinct_op_ids(s),
    ensures
        distinct_op_ids(s.filter(pred)),
    decreases s.len(),
{
    if s.len() == 0 {
        reveal(Seq::filter);
    } else {
        let d = s.drop_last();
        assert forall|i: int, j: int| 0 <= i < j < d.len() implies (#[trigger] d[i]).id != (
        #[trigger] d[j]).id by {
            assert(s[i].id != s[j].id);
        }
        lemma_filter_distinct(d, pred);
        lemma_filter_sub(d, pred);
        d.lemma_filter_push(s.last(), pred);
        assert(d.push(s.last()) =~= s);
        let f = s.filter(pred);
        assert forall|i: int, j: int| 0 <= i < j < f.len() implies (#[trigger] f[i]).id != (
        #[trigger] f[j]).id by {
            if pred(s.last()) && j == f.len() - 1 {
                assert(f[j] == s.last());
                assert(f[i] == d.filter(pred)[i]);
                assert(d.contains(d.filter(pred)[i]));
                let m = choose|m: int| 0 <= m < d.len() && d[m] == d.filter(pred)[i];
                assert(s[m] == f[i]);
                assert(s[m].id != s[s.len() - 1].id);
            } else {
                assert(f[i] == d.filter(pred)[i]);
                assert(f[j] == d.filter(pred)[j]);
            }
        }
    }
}

/// Two positions holding the same value push its count to two.
proof fn lemma_count_from_pair(s: Seq<OpView>, i: int, j: int)
    requires
        0 <= i < j < s.len(),
        s[i] == s[j],
    ensures
        s.to_multiset().count(s[i]) >= 2,
{
    s.to_multiset_ensures();
    let s2 = s.remove(i);
    s2.to_multiset_ensures();
    assert(s2[j - 1] == s[j]);
    assert(s2.contains(s[i]));
    assert(s2.to_multiset().count(s[i]) > 0);
    assert(s2.to_multiset() =~= s.to_multiset().remove(s[i]));
}

/// When a value's count reaches two, two distinct positions hold it.
proof fn lemma_pair_from_count(s: Seq<OpView>, v: OpView) -> (r: (int, int))
    requires
        s.to_multiset().count(v) >= 2,
    ensures
        0 <= r.0 < s.len(),
        0 <= r.1 < s.len(),
        r.0 != r.1,
        s[r.0] == v,
        s[r.1] == v,
{
    s.to_multiset_ensures();
    assert(s.contains(v));
    let a = choose|a: int| 0 <= a < s.len() && s[a] == v;
    let s2 = s.remove(a);
    s2.to_multiset_ensures();
    assert(s2.to_multiset() =~= s.to_multiset().remove(v));
    assert(s2.to_multiset().count(v) >= 1);
    assert(s2.contains(v));
    let b2 = choose|b: int| 0 <= b < s2.len() && s2[b] == v;
    let b: int = if b2 < a {
        b2
    } else {
        b2 + 1
    };
    assert(s[b] == v);
    (a, b)
}

/// Distinct ids carry over to any sequence holding the same
/// operations, in whatever order.
proof fn lemma_distinct_ids_transfer(s1: Seq<OpView>, s2: Seq<OpView>)
    requires
        s1.to_multiset() == s2.to_multiset(),
        distinct_op_ids(s1),
    ensures
        distinct_op_ids(s2),
{
    s1.to_multiset_ensures();
    s2.to_multiset_ensures();
    assert forall|i: int, j: int| 0 <= i < j < s2.len() implies (#[trigger] s2[i]).id != (
    #[trigger] s2[j]).id by {
        if s2[i].id == s2[j].id {
            if s2[i] == s2[j] {
                lemma_count_from_pair(s2, i, j);
                let p = lemma_pair_from_count(s1, s2[i]);
                if p.0 < p.1 {
                    assert(s1[p.0].id != s1[p.1].id);
                } else {
                    assert(s1[p.1].id != s1[p.0].id);
                }
            } else {
                assert(s2.contains(s2[i]));
                assert(s2.contains(s2[j]));
                assert(s2.to_multiset().count(s2[i]) > 0);
                assert(s2.to_multiset().count(s2[j]) > 0);
                assert(s1.to_multiset().count(s2[i]) > 0);
                assert(s1.to_multiset().count(s2[j]) > 0);
                assert(s1.contains(s2[i]));
                assert(s1.contains(s2[j]));
                let a = choose|a: int| 0 <= a < s1.len() && s1[a] == s2[i];
                let b = choose|b: int| 0 <= b < s1.len() && s1[b] == s2[j];
                if a < b {
                    assert(s1[a].id != s1[b].id);
                } else {
                    assert(s1[b].id != s1[a].id);
                }
            }
        }
    }
}

/// Lexicographic order on byte strings, examined from position `i`.
pub open spec fn bytes_le_from(a: Seq<u8>, b: Seq<u8>, i: int) -> bool
    decreases a.len() - i,
{
    if i >= a.len() {
        true
    } else if i >= b.len() {
        false
    } else if a[i] < b[i] {
        true
    } else if a[i] > b[i] {
        false
    } else {
        bytes_le_from(a, b, i + 1)
    }
}

/// Lexicographic order on byte strings.
pub open spec fn bytes_le(a: Seq<u8>, b: Seq<u8>) -> bool {
    bytes_le_from(a, b, 0)
}

pub proof fn lemma_bytes_le_total(a: Seq<u8>, b: Seq<u8>, i: int)
    ensures
        bytes_le_from(a, b, i) || bytes_le_from(b, a, i),
    decreases a.len() - i,
{
    if i >= a.len() || i >= b.len() {
    } else if a[i] == b[i] {
        lemma_bytes_le_total(a, b, i + 1);
    }
}

pub proof fn lemma_bytes_le_trans(a: Seq<u8>, b: Seq<u8>, c: Seq<u8>, i: int)
    requires
        bytes_le_from(a, b, i),
        bytes_le_from(b, c, i),
    ensures
        bytes_le_from(a, c, i),
    decreases a.len() - i,
{
    if i >= a.len() {
    } else {
        assert(i < b.len());
        assert(i < c.len());
        if a[i] == b[i] && b[i] == c[i] {
            lemma_bytes_le_trans(a, b, c, i + 1);
        }
    }
}

/// The resolver-input order: ascending end timestamp, ties broken by
/// id bytes, so that repeated resolution attempts see the same order.
pub open spec fn op_le(a: crate::op_store::OpView, b: crate::op_store::OpView) -> bool {
    ||| a.record.metadata.end_time < b.record.metadata.end_time
    ||| (a.record.metadata.end_time == b.record.metadata.end_time && bytes_le(a.id, b.id))
}

/// The operations' mathematical values, in order.
pub open spec fn ops_view(s: Seq<Operation>) -> Seq<crate::op_store::OpView> {
    s.map_values(|o: Operation| o@)
}

/// Each operation is `op_le` every later one.
pub open spec fn sorted_ops(s: Seq<Operation>) -> bool {
    forall|i: int, j: int| 0 <= i < j < s.len() ==> op_le((#[trigger] s[i])@, (#[trigger] s[j])@)
}

pub proof fn lemma_op_le_total(a: crate::op_store::OpView, b: crate::op_store::OpView)
    ensures
        op_le(a, b) || op_le(b, a),
{
    lemma_bytes_le_total(a.id, b.id, 0);
}

pub proof fn lemma_op_le_trans(
    a: crate::op_store::OpView,
    b: crate::op_store::OpView,
    c: crate::op_store::OpView,
)
    requires
        op_le(a, b),
        op_le(b, c),
    ensures
        op_le(a, c),
{
    if a.record.metadata.end_time == b.record.metadata.end_time && b.record.metadata.end_time
        == c.record.metadata.end_time {
        lemma_bytes_le_trans(a.id, b.id, c.id, 0);
    }
}

/// Whether `a` comes no later than `b` in the resolver-input order.
fn op_le_exec(a: &Operation, b: &Operation) -> (r: bool)
    ensures
        r == op_le(a@, b@),
{
    if a.record.metadata.end_time < b.record.metadata.end_time {
        return true;
    }
    if a.record.metadata.end_time > b.record.metadata.end_time {
        return false;
    }
    let av = &a.id.bytes;
    let bv = &b.id.bytes;
    let mut i: usize = 0;
    loop
        invariant
            a.record.metadata.end_time == b.record.metadata.end_time,
            av@ == a.id@,
            bv@ == b.id@,
            i <= av@.len(),
            i <= bv@.len(),
            bytes_le(av@, bv@) == bytes_le_from(av@, bv@, i as int),
        decreases av@.len() - i,
    {
        if i >= av.len() {
            return true;
        }
        if i >= bv.len() {
            return false;
        }
        if av[i] < bv[i] {
            return true;
        }
        if av[i] > bv[i] {
            return false;
        }
        i += 1;
    }
}

/// Place `op` into a sorted run, keeping it sorted; the run gains
/// exactly that operation.
fn insert_sorted(out: &mut Vec<Operation>, op: Operation)
    requires
        sorted_ops(old(out)@),
    ensures
        sorted_ops(final(out)@),
        ops_view(final(out)@).to_multiset() == ops_view(old(out)@).to_multiset().insert(op@),
        final(out)@.len() == old(out)@.len() + 1,
{
    let ghost out0 = out@;
    let mut k: usize = 0;
    loop
        invariant_except_break
            k <= out@.len(),
            out@ == out0,
            forall|i: int| 0 <= i < k ==> op_le((#[trigger] out0[i])@, op@),
        ensures
            k <= out0.len(),
            out@ == out0,
            forall|i: int| 0 <= i < k ==> op_le((#[trigger] out0[i])@, op@),
            k < out0.len() ==> !op_le(out0[k as int]@, op@),
        decreases out@.len() - k,
    {
        if k >= out.len() {
            break ;
        }
        if !op_le_exec(&out[k], &op) {
            break ;
        }
        k += 1;
    }
    proof {
        if k < out0.len() {
            assert(!op_le(out0[k as int]@, op@));
            lemma_op_le_total(out0[k as int]@, op@);
            assert forall|i: int| k <= i < out0.len() implies op_le(op@, (#[trigger] out0[i])@) by {
                if i > k {
                    assert(op_le(out0[k as int]@, out0[i]@));
                    lemma_op_le_trans(op@, out0[k as int]@, out0[i]@);
                }
            }
        }
    }
    out.insert(k, op);
    proof {
        let t = out@;
        assert forall|i: int, j: int| 0 <= i < j < t.len() implies op_le(
            (#[trigger] t[i])@,
            (#[trigger] t[j])@,
        ) by {
            if j < k {
                assert(t[i] == out0[i] && t[j] == out0[j]);
            } else if i > k {
                assert(t[i] == out0[i - 1] && t[j] == out0[j - 1]);
            } else if i < k && j == k {
                assert(t[i] == out0[i]);
            } else if i == k {
                assert(t[j] == out0[j - 1]);
            } else {
                assert(i < k && j > k);
                assert(t[i] == out0[i] && t[j] == out0[j - 1]);
                lemma_op_le_trans(out0[i]@, op@, out0[j - 1]@);
            }
        }
        let tv = ops_view(t);
        let ov = ops_view(out0);
        assert(tv =~= ov.insert(k as int, op@)) by {
            assert forall|x: int| 0 <= x < tv.len() implies tv[x] == ov.insert(k as int, op@)[x] by {
                if x < k {
                    assert(t[x] == out0[x]);
                } else if x == k {
                } else {
                    assert(t[x] == out0[x - 1]);
                }
            }
        }
        tv.to_multiset_ensures();
        ov.to_multiset_ensures();
        assert(tv.remove(k as int) =~= ov);
        assert(tv.remove(k as int).to_multiset() =~= tv.to_multiset().remove(op@));
        assert forall|x: crate::op_store::OpView| true implies tv.to_multiset().count(x)
            == ov.to_multiset().insert(op@).count(x) by {
            if x == op@ {
                assert(tv.to_multiset().contains(op@));
                assert(tv.to_multiset().count(op@) >= 1);
            }
        }
        assert(tv.to_multiset() =~= ov.to_multiset().insert(op@));
    }
}

/// Sort operations by ascending end timestamp, ids breaking ties: the
/// result holds the same operations, in the one order that repeated
/// resolution attempts will agree on.
pub fn sort_by_end_time(ops: Vec<Operation>) -> (r: Vec<Operation>)
    ensures
        sorted_ops(r@),
        ops_view(r@).to_multiset() == ops_view(ops@).to_multiset(),
        r@.len() == ops@.len(),
{
    let ghost orig = ops@;
    let mut rest = ops;
    let mut out: Vec<Operation> = Vec::new();
    proof {
        ops_view(orig).to_multiset_ensures();
        assert(ops_view(out@) =~= Seq::<crate::op_store::OpView>::empty());
        ops_view(out@).to_multiset_ensures();
        assert(ops_view(out@).to_multiset().len() == 0);
        assert(ops_view(out@).to_multiset() =~= Multiset::<crate::op_store::OpView>::empty());
        assert(ops_view(out@).to_multiset().add(ops_view(rest@).to_multiset()) =~= ops_view(
            rest@,
        ).to_multiset());
    }
    while rest.len() > 0
        invariant
            sorted_ops(out@),
            ops_view(out@).to_multiset().add(ops_view(rest@).to_multiset()) == ops_view(
                orig,
            ).to_multiset(),
            out@.len() + rest@.len() == orig.len(),
        decreases rest@.len(),
    {
        let ghost rest0 = rest@;
        let ghost out0 = out@;
        let op = rest.pop().unwrap();
        proof {
            let rv0 = ops_view(rest0);
            let rv = ops_view(rest@);
            assert(rv =~= rv0.remove(rv0.len() - 1));
            rv0.to_multiset_ensures();
            assert(rv.to_multiset() =~= rv0.to_multiset().remove(op@));
            assert(rv0.to_multiset().contains(rv0[rv0.len() - 1]));
        }
        insert_sorted(&mut out, op);
        proof {
            let a = ops_view(out0).to_multiset();
            let b = ops_view(rest0).to_multiset();
            assert(b.contains(op@));
            assert(ops_view(out@).to_multiset().add(ops_view(rest@).to_multiset()) =~= a.insert(
                op@,
            ).add(b.remove(op@)));
            assert(a.insert(op@).add(b.remove(op@)) =~= a.add(b));
        }
    }
    proof {
        assert(ops_view(rest@) =~= Seq::<crate::op_store::OpView>::empty());
        ops_view(rest@).to_multiset_ensures();
        assert(ops_view(rest@).to_multiset().len() == 0);
        assert(ops_view(rest@).to_multiset() =~= Multiset::<crate::op_store::OpView>::empty());
        assert(ops_view(out@).to_multiset().add(ops_view(rest@).to_multiset()) =~= ops_view(
            out@,
        ).to_multiset());
    }
    out
}

/// A resolver that merges by plain succession: the new record's
/// parents are exactly the given heads, its view is the last given
/// head's view, and its metadata comes from this resolver's fields.
/// Callers with richer view-merging policies supply their own
/// [`Resolver`] instead.
pub struct MergeAllResolver {
    pub author: Vec<u8>,
    pub hostname: Vec<u8>,
    pub description: Vec<u8>,
    pub start_time: i64,
    pub end_time: i64,
}

impl Resolver for MergeAllResolver {
    fn merge(&mut self, heads: Vec<Operation>) -> (r: Result<OperationRecord, ResolverError>)
        ensures
            heads@.len() > 0 ==> r is Ok,
            heads@.len() == 0 ==> r is Err,
            r matches Ok(rec) ==> {
                &&& rec.parent_ids@.len() == heads@.len()
                &&& forall|i: int|
                    0 <= i < heads@.len() ==> (#[trigger] rec.parent_ids@[i])@ == heads@[i].id@
                &&& rec.view_id@ == heads@[heads@.len() - 1].record@.view_id
                &&& rec.metadata@.author == old(self).author@
                &&& rec.metadata@.hostname == old(self).hostname@
                &&& rec.metadata@.description == old(self).description@
                &&& rec.metadata@.start_time == old(self).start_time
                &&& rec.metadata@.end_time == old(self).end_time
            },
    {
        if heads.len() == 0 {
            return Err(ResolverError { code: 0 });
        }
        let mut parent_ids: Vec<OperationId> = Vec::new();
        let mut i: usize = 0;
        while i < heads.len()
            invariant
                i <= heads@.len(),
                parent_ids@.len() == i,
                forall|k: int| 0 <= k < i ==> (#[trigger] parent_ids@[k])@ == heads@[k].id@,
            decreases heads@.len() - i,
        {
            parent_ids.push(heads[i].id.clone());
            i += 1;
        }
        let view_id = heads[heads.len() - 1].record.view_id.clone();
        let rec = OperationRecord {
            parent_ids,
            view_id,
            metadata: OperationMetadata {
                author: clone_bytes(&self.author),
                hostname: clone_bytes(&self.hostname),
                description: clone_bytes(&self.description),
                start_time: self.start_time,
                end_time: self.end_time,
            },
        };
        proof {
            assert forall|k: int| 0 <= k < rec.parent_ids@.len() implies exists|j: int|
                0 <= j < heads@.len() && (#[trigger] rec.parent_ids@[k])@ == heads@[j].id@ by {
                assert(rec.parent_ids@[k]@ == heads@[k].id@);
            }
        }
        Ok(rec)
    }
}

/// A set of one known element is that element's singleton.
proof fn lemma_singleton(s: Set<Seq<u8>>, t: Seq<u8>)
    requires
        s.finite(),
        s.len() == 1,
        s.contains(t),
    ensures
        s == Set::<Seq<u8>>::empty().insert(t),
{
    vstd::set::axiom_set_remove_len(s, t);
    assert forall|x: Seq<u8>| s.contains(x) implies Set::<Seq<u8>>::empty().insert(t).contains(
        x,
    ) by {
        if x != t {
            assert(s.remove(t).contains(x));
            s.remove(t).lemma_len0_is_empty();
        }
    }
    assert(s =~= Set::<Seq<u8>>::empty().insert(t));
}

/// Load the record of every id, pairing each id with its operation.
fn load_ops<S: OpStore>(store: &S, ids: &Vec<OperationId>) -> (r: Result<
    Vec<Operation>,
    OpStoreError,
>)
    requires
        store.inv(),
    ensures
        match r {
            Ok(v) => {
                &&& v@.len() == ids@.len()
                &&& forall|i: int|
                    0 <= i < v@.len() ==> (#[trigger] v@[i]).id@ == ids@[i]@
                        && store.ops().contains_key(ids@[i]@) && dec_record(store.ops()[ids@[i]@])
                        == Some(v@[i].record@)
            },
            Err(e) => match e {
                OpStoreError::NotFound(m) => !store.ops().contains_key(m@) && ids_set(
                    ids@,
                ).contains(m@),
                OpStoreError::Corrupt(b) => store.ops().contains_key(b@) && dec_record(
                    store.ops()[b@],
                ) is None && ids_set(ids@).contains(b@),
            },
        },
{
    let mut v: Vec<Operation> = Vec::new();
    let mut i: usize = 0;
    while i < ids.len()
        invariant
            store.inv(),
            i <= ids@.len(),
            v@.len() == i,
            forall|j: int|
                0 <= j < i ==> (#[trigger] v@[j]).id@ == ids@[j]@ && store.ops().contains_key(
                    ids@[j]@,
                ) && dec_record(store.ops()[ids@[j]@]) == Some(v@[j].record@),
        decreases ids@.len() - i,
    {
        let rec = match store.read_operation(&ids[i]) {
            Ok(rec) => rec,
            Err(e) => {
                proof {
                    lemma_ids_set_member(ids@, i as int);
                }
                return Err(e);
            },
        };
        v.push(Operation { id: ids[i].clone(), record: rec });
        i += 1;
    }
    Ok(v)
}

/// The ids of `a` that are not among `b`.
fn diff_ids(a: &Vec<OperationId>, b: &Vec<OperationId>) -> (r: Vec<OperationId>)
    ensures
        ids_set(r@) == ids_set(a@).difference(ids_set(b@)),
        forall|i: int| 0 <= i < r@.len() ==> !ids_set(b@).contains((#[trigger] r@[i])@),
{
    let mut r: Vec<OperationId> = Vec::new();
    let mut i: usize = 0;
    proof {
        assert(a@.take(0) =~= Seq::<OperationId>::empty());
        assert(ids_view(a@.take(0)) =~= Seq::<Seq<u8>>::empty());
        assert(ids_set(r@) =~= ids_set(a@.take(0)).difference(ids_set(b@)));
    }
    while i < a.len()
        invariant
            i <= a@.len(),
            ids_set(r@) == ids_set(a@.take(i as int)).difference(ids_set(b@)),
            forall|k: int| 0 <= k < r@.len() ==> !ids_set(b@).contains((#[trigger] r@[k])@),
        decreases a@.len() - i,
    {
        let ghost r0 = r@;
        let keep = !contains_id(b, &a[i]);
        proof {
            lemma_ids_set_take_step(a@, i as int);
        }
        if keep {
            r.push(a[i].clone());
            proof {
                lemma_ids_set_push(r0, r@.last());
                assert(r@.last()@ == a@[i as int]@);
                assert(ids_set(r@) =~= ids_set(a@.take(i + 1)).difference(ids_set(b@)));
            }
        } else {
            proof {
                assert(ids_set(r@) =~= ids_set(a@.take(i + 1)).difference(ids_set(b@)));
            }
        }
        i += 1;
    }
    proof {
        assert(a@.take(a@.len() as int) =~= a@);
    }
    r
}

/// The values with an id among `kept`, in the order given.
pub open spec fn kept_id(kept: Set<Seq<u8>>) -> spec_fn(crate::op_store::OpView) -> bool {
    |v: crate::op_store::OpView| kept.contains(v.id)
}

/// The loaded operations whose ids are among `keep`: exactly the
/// sub-sequence of `ops` carrying those ids, in order.
fn select_ops(ops: &Vec<Operation>, keep: &Vec<OperationId>) -> (r: Vec<Operation>)
    ensures
        ops_view(r@) == ops_view(ops@).filter(kept_id(ids_set(keep@))),
{
    let ghost pred = kept_id(ids_set(keep@));
    let mut r: Vec<Operation> = Vec::new();
    let mut i: usize = 0;
    proof {
        reveal(Seq::filter);
        assert(ops_view(r@) =~= Seq::<crate::op_store::OpView>::empty());
        assert(ops_view(ops@.take(0)) =~= Seq::<crate::op_store::OpView>::empty());
        assert(ops_view(r@) =~= ops_view(ops@.take(0)).filter(pred));
    }
    while i < ops.len()
        invariant
            i <= ops@.len(),
            pred == kept_id(ids_set(keep@)),
            ops_view(r@) == ops_view(ops@.take(i as int)).filter(pred),
        decreases ops@.len() - i,
    {
        let ghost prefix = ops_view(ops@.take(i as int));
        let ghost r0 = r@;
        let in_keep = contains_id(keep, &ops[i].id);
        if in_keep {
            r.push(ops[i].clone());
        }
        i += 1;
        proof {
            let x = ops@[i - 1]@;
            let prefix2 = ops_view(ops@.take(i as int));
            assert(ops@.take(i as int) =~= ops@.take(i - 1).push(ops@[i - 1]));
            assert(prefix2 =~= prefix.push(x));
            assert(prefix2.drop_last() =~= prefix);
            assert(prefix2.last() == x);
            prefix.lemma_filter_push(x, pred);
            assert(prefix2.filter(pred) == if pred(x) {
                prefix.filter(pred).push(x)
            } else {
                prefix.filter(pred)
            });
            if in_keep {
                assert(pred(x));
                assert(ops_view(r@) =~= ops_view(r0).push(x));
            } else {
                assert(!pred(x));
            }
            assert(ops_view(r@) =~= prefix2.filter(pred));
        }
    }
    proof {
        assert(ops@.take(ops@.len() as int) =~= ops@);
    }
    r
}

/// The ids an update retires: the stale ancestors together with the
/// parents the resolver consumed, the new id itself left out.
fn retire_list(
    ancestors: &Vec<OperationId>,
    parents: &Vec<OperationId>,
    new_id: &OperationId,
) -> (r: Vec<OperationId>)
    ensures
        forall|i: int| 0 <= i < r@.len() ==> (#[trigger] r@[i])@ != new_id@,
        ids_set(r@) == ids_set(ancestors@).union(ids_set(parents@)).remove(new_id@),
{
    let mut r: Vec<OperationId> = Vec::new();
    let mut i: usize = 0;
    proof {
        assert(ids_view(ancestors@.take(0)) =~= Seq::<Seq<u8>>::empty());
        assert(ids_set(r@) =~= ids_set(ancestors@.take(0)).remove(new_id@));
    }
    while i < ancestors.len()
        invariant
            i <= ancestors@.len(),
            ids_set(r@) == ids_set(ancestors@.take(i as int)).remove(new_id@),
            forall|k: int| 0 <= k < r@.len() ==> (#[trigger] r@[k])@ != new_id@,
        decreases ancestors@.len() - i,
    {
        let ghost r0 = r@;
        let keep = !ancestors[i].matches(new_id);
        proof {
            lemma_ids_set_take_step(ancestors@, i as int);
        }
        if keep {
            r.push(ancestors[i].clone());
            proof {
                lemma_ids_set_push(r0, r@.last());
                assert(ids_set(r@) =~= ids_set(ancestors@.take(i + 1)).remove(new_id@));
            }
        } else {
            proof {
                assert(ids_set(r@) =~= ids_set(ancestors@.take(i + 1)).remove(new_id@));
            }
        }
        i += 1;
    }
    proof {
        assert(ancestors@.take(ancestors@.len() as int) =~= ancestors@);
        assert(ids_view(parents@.take(0)) =~= Seq::<Seq<u8>>::empty());
        assert(ids_set(r@) =~= ids_set(ancestors@).union(ids_set(parents@.take(0))).remove(
            new_id@,
        ));
    }
    let mut j: usize = 0;
    while j < parents.len()
        invariant
            j <= parents@.len(),
            ids_set(r@) == ids_set(ancestors@).union(ids_set(parents@.take(j as int))).remove(
                new_id@,
            ),
            forall|k: int| 0 <= k < r@.len() ==> (#[trigger] r@[k])@ != new_id@,
        decreases parents@.len() - j,
    {
        let ghost r0 = r@;
        let keep = !parents[j].matches(new_id);
        proof {
            lemma_ids_set_take_step(parents@, j as int);
        }
        if keep {
            r.push(parents[j].clone());
            proof {
                lemma_ids_set_push(r0, r@.last());
                assert(ids_set(r@) =~= ids_set(ancestors@).union(
                    ids_set(parents@.take(j + 1)),
                ).remove(new_id@));
            }
        } else {
            proof {
                assert(ids_set(r@) =~= ids_set(ancestors@).union(
                    ids_set(parents@.take(j + 1)),
                ).remove(new_id@));
            }
        }
        j += 1;
    }
    proof {
        assert(parents@.take(parents@.len() as int) =~= parents@);
    }
    r
}

/// Resolve the op heads down to one current operation.
///
/// When exactly one head is recorded, that operation is returned at
/// once, with nothing locked and nothing written. Otherwise the
/// advisory lock is taken and the heads re-read: no heads at all is
/// the `NoHeads` error; heads that are ancestors of other heads are
/// retired without writing anything; and genuinely divergent heads
/// are handed to the resolver — each true head exactly once, sorted
/// by ascending end timestamp with ids breaking ties — whose merge
/// record is written to the store and recorded as the one new head,
/// retiring the heads it consumed and the stale ancestors. On every
/// path that does not merge, the resolver is left untouched, and when
/// one head is recorded the lock count does not move.
#[verifier::loop_isolation(false)]
pub fn resolve_op_heads<H: OpHeadsStore, S: OpStore, R: Resolver>(
    op_heads_store: &mut H,
    op_store: &mut S,
    resolver: &mut R,
) -> (r: Result<Operation, ResolveError>)
    requires
        old(op_heads_store).inv(),
        old(op_store).inv(),
    ensures
        final(op_heads_store).inv(),
        final(op_store).inv(),
        ({
            let h0 = old(op_heads_store).heads();
            let ops0 = old(op_store).ops();
            let g = graph_of(ops0);
            let f = heads_spec(g, h0);
            &&& (h0.len() == 1 ==> final(op_heads_store).locks() == old(op_heads_store).locks())
            &&& match r {
                Ok(op) => {
                    &&& h0.len() == 1 ==> {
                        &&& h0.contains(op.id@)
                        &&& final(op_store).ops() == ops0
                        &&& final(op_heads_store).heads() == h0
                        &&& ops0.contains_key(op.id@)
                        &&& dec_record(ops0[op.id@]) == Some(op.record@)
                        &&& *final(resolver) == *old(resolver)
                    }
                    &&& h0.len() != 1 ==> {
                        &&& h0.len() >= 2
                        &&& closure_resolvable(g, h0)
                        &&& (f.len() == 1 ==> {
                            &&& f.contains(op.id@)
                            &&& final(op_store).ops() == ops0
                            &&& final(op_heads_store).heads() == f
                            &&& ops0.contains_key(op.id@)
                            &&& dec_record(ops0[op.id@]) == Some(op.record@)
                            &&& *final(resolver) == *old(resolver)
                        })
                        &&& (f.len() != 1 ==> {
                            &&& op.id@ == digest_of(enc_record(op.record@))
                            &&& final(op_store).ops() == ops0.insert(
                                op.id@,
                                enc_record(op.record@),
                            )
                            &&& forall|p: Seq<u8>|
                                op.record@.parent_ids.to_set().contains(p) ==> f.contains(p)
                            &&& final(op_heads_store).heads() == f.difference(
                                op.record@.parent_ids.to_set(),
                            ).insert(op.id@)
                            &&& (op.record@.parent_ids.to_set() == f ==> final(op_heads_store).heads() == Set::<Seq<u8>>::empty().insert(op.id@))
                        })
                    }
                },
                Err(e) => {
                    &&& (h0.len() == 0 ==> e is Resolution || (e matches ResolveError::HeadsStore(
                        he0,
                    ) && (he0 is Read || he0 is Lock)))
                    &&& (e matches ResolveError::Resolution(_) ==> h0.len() == 0 && final(op_store).ops() == ops0 && final(op_heads_store).heads() == h0 && *final(resolver) == *old(resolver))
                    &&& (e matches ResolveError::Store(se) ==> final(op_store).ops() == ops0
                        && final(op_heads_store).heads() == h0 && *final(resolver) == *old(resolver)
                        && (match se {
                        OpStoreError::NotFound(m) => !ops0.contains_key(m@) && in_closure(
                            g,
                            h0,
                            m@,
                        ),
                        OpStoreError::Corrupt(b) => ops0.contains_key(b@) && dec_record(ops0[b@])
                            is None && in_closure(g, h0, b@),
                    }))
                    &&& (e matches ResolveError::Resolver(_) ==> final(op_store).ops() == ops0
                        && final(op_heads_store).heads() == h0 && h0.len() >= 2 && f.len() != 1)
                    &&& (e matches ResolveError::HeadsStore(he) ==> {
                        &&& ((he is Read || he is Lock) ==> final(op_store).ops() == ops0 && final(op_heads_store).heads() == h0 && *final(resolver) == *old(resolver))
                        &&& (he is Write ==> final(op_store).ops() == ops0 || (exists|b: Seq<u8>|
                            final(op_store).ops() == ops0.insert(digest_of(b), b)))
                    })
                },
            }
        }),
{
    let ghost h0 = op_heads_store.heads();
    let ghost ops0 = op_store.ops();
    let ghost g = graph_of(ops0);
    let ghost f = heads_spec(g, h0);
    let mut first = match op_heads_store.get_op_heads() {
        Ok(v) => v,
        Err(e) => {
            return Err(ResolveError::HeadsStore(e));
        },
    };
    proof {
        lemma_distinct_ids_set_len(first@);
    }
    if first.len() == 1 {
        let ghost first0 = first@;
        let op_id = first.pop().unwrap();
        proof {
            lemma_ids_set_member(first0, 0);
            assert(first0[0] == op_id);
            assert(h0.contains(op_id@));
        }
        let record = match op_store.read_operation(&op_id) {
            Ok(rec) => rec,
            Err(e) => {
                return Err(ResolveError::Store(e));
            },
        };
        return Ok(Operation { id: op_id, record });
    }
    // no single head: take the advisory lock and look again
    let _lock = match op_heads_store.lock() {
        Ok(l) => l,
        Err(e) => {
            return Err(ResolveError::HeadsStore(e));
        },
    };
    let head_ids = match op_heads_store.get_op_heads() {
        Ok(v) => v,
        Err(e) => {
            return Err(ResolveError::HeadsStore(e));
        },
    };
    proof {
        lemma_distinct_ids_set_len(head_ids@);
        assert(head_ids@.len() == h0.len());
    }
    if head_ids.len() == 0 {
        proof {
            h0.lemma_len0_is_empty();
        }
        return Err(ResolveError::Resolution(OpHeadResolutionError::NoHeads));
    }
    if head_ids.len() == 1 {
        // cannot arise between the two reads above, but kept so that a
        // backend raced by other processes is still handled
        let mut single = head_ids;
        let op_id = single.pop().unwrap();
        let record = match op_store.read_operation(&op_id) {
            Ok(rec) => rec,
            Err(e) => {
                return Err(ResolveError::Store(e));
            },
        };
        return Ok(Operation { id: op_id, record });
    }
    let loaded = match load_ops(op_store, &head_ids) {
        Ok(v) => v,
        Err(e) => {
            return Err(ResolveError::Store(e));
        },
    };
    let filtered_ids = match heads_ok(op_store, &head_ids) {
        Ok(v) => v,
        Err(e) => {
            return Err(ResolveError::Store(e));
        },
    };
    proof {
        assert(ids_set(head_ids@) == h0);
        assert(f == heads_spec(g, ids_set(head_ids@)));
        assert(ids_set(filtered_ids@) == f);
        lemma_distinct_ids_set_len(filtered_ids@);
        assert forall|x: Seq<u8>| f.contains(x) implies h0.contains(x) by {}
    }
    let ancestor_ids = diff_ids(&head_ids, &filtered_ids);
    if filtered_ids.len() == 1 {
        // spurious divergence: every other entry was a stale ancestor.
        // Retire the stale entries; no merge operation is created.
        let target = filtered_ids[0].clone();
        proof {
            lemma_ids_set_member(filtered_ids@, 0);
            assert(f.contains(target@));
            lemma_singleton(f, target@);
            assert forall|i: int| 0 <= i < ancestor_ids@.len() implies (
            #[trigger] ancestor_ids@[i])@ != target@ by {
                assert(!ids_set(filtered_ids@).contains(ancestor_ids@[i]@));
            }
        }
        match op_heads_store.update_op_heads(&ancestor_ids, &target) {
            Ok(_) => {},
            Err(e) => {
                return Err(ResolveError::HeadsStore(e));
            },
        }
        proof {
            assert(op_heads_store.heads() =~= f) by {
                assert(ids_set(ancestor_ids@) == h0.difference(f));
            }
        }
        let mut i: usize = 0;
        while i < loaded.len()
            invariant
                i <= loaded@.len(),
                forall|j: int| 0 <= j < i ==> (#[trigger] loaded@[j]).id@ != target@,
            decreases loaded@.len() - i,
        {
            if loaded[i].id.matches(&target) {
                return Ok(loaded[i].clone());
            }
            i += 1;
        }
        proof {
            let k = choose|k: int|
                0 <= k < ids_view(head_ids@).len() && ids_view(head_ids@)[k] == target@;
            assert(loaded@[k].id@ == target@);
            assert(false);
        }
        return Err(ResolveError::Resolution(OpHeadResolutionError::NoHeads));
    }
    // genuine divergence: merge through the resolver
    let selected = select_ops(&loaded, &filtered_ids);
    let sorted = sort_by_end_time(selected);
    proof {
        ops_view(sorted@).to_multiset_ensures();
        ops_view(selected@).to_multiset_ensures();
        assert forall|j: int| 0 <= j < sorted@.len() implies f.contains(
            (#[trigger] sorted@[j]).id@,
        ) by {
            assert(ops_view(sorted@)[j] == sorted@[j]@);
            assert(ops_view(sorted@).contains(sorted@[j]@));
            assert(ops_view(sorted@).to_multiset().count(sorted@[j]@) > 0);
            assert(ops_view(selected@).to_multiset().count(sorted@[j]@) > 0);
            assert(ops_view(selected@).contains(sorted@[j]@));
            let i = choose|i: int|
                0 <= i < ops_view(selected@).len() && ops_view(selected@)[i] == sorted@[j]@;
            ops_view(loaded@).lemma_filter_pred(kept_id(ids_set(filtered_ids@)), i);
            assert(kept_id(ids_set(filtered_ids@))(sorted@[j]@));
            assert(ids_set(filtered_ids@).contains(sorted@[j]@.id));
        }
        assert forall|i: int, j: int|
            0 <= i < j < ops_view(loaded@).len() implies (#[trigger] ops_view(loaded@)[i]).id != (
        #[trigger] ops_view(loaded@)[j]).id by {
            assert(loaded@[i].id@ == head_ids@[i]@);
            assert(loaded@[j].id@ == head_ids@[j]@);
            assert(head_ids@[i]@ != head_ids@[j]@);
        }
        assert(distinct_op_ids(ops_view(loaded@)));
        lemma_filter_distinct(ops_view(loaded@), kept_id(ids_set(filtered_ids@)));
        assert(distinct_op_ids(ops_view(selected@)));
        lemma_distinct_ids_transfer(ops_view(selected@), ops_view(sorted@));
        assert(distinct_op_ids(ops_view(sorted@)));
    }
    let new_rec = match resolver.merge(sorted) {
        Ok(rec) => rec,
        Err(e) => {
            return Err(ResolveError::Resolver(e));
        },
    };
    proof {
        assert forall|p: Seq<u8>| ids_set(new_rec.parent_ids@).contains(p) implies f.contains(
            p,
        ) by {
            let i = choose|i: int|
                0 <= i < ids_view(new_rec.parent_ids@).len() && ids_view(new_rec.parent_ids@)[i]
                    == p;
            assert((#[trigger] new_rec.parent_ids@[i])@ == p);
        }
    }
    let new_id = op_store.write_operation(&new_rec);
    let retire = retire_list(&ancestor_ids, &new_rec.parent_ids, &new_id);
    match op_heads_store.update_op_heads(&retire, &new_id) {
        Ok(_) => {},
        Err(e) => {
            proof {
                assert(op_store.ops() == ops0.insert(digest_of(enc_record(new_rec@)), enc_record(
                    new_rec@,
                )));
            }
            return Err(ResolveError::HeadsStore(e));
        },
    }
    let result = Operation { id: new_id, record: new_rec };
    proof {
        let pset = result.record@.parent_ids.to_set();
        assert(pset =~= ids_set(result.record.parent_ids@)) by {
            assert(result.record@.parent_ids == ids_view(result.record.parent_ids@));
        }
        let hs = op_heads_store.heads();
        assert(hs == h0.difference(ids_set(retire@)).insert(new_id@));
        assert(ids_set(retire@) == ids_set(ancestor_ids@).union(pset).remove(new_id@));
        assert(ids_set(ancestor_ids@) == h0.difference(f));
        assert forall|x: Seq<u8>| hs.contains(x) implies f.difference(pset).insert(
            new_id@,
        ).contains(x) by {}
        assert forall|x: Seq<u8>| f.difference(pset).insert(new_id@).contains(x) implies
            hs.contains(x) by {}
        assert(hs =~= f.difference(pset).insert(new_id@));
        if pset == f {
            lemma_merge_retires_all(f, pset, new_id@);
        }
    }
    Ok(result)
}

/// No lost update: when the resolver's declared parents cover every
/// true head, the update retires them all, and the one id left in the
/// head set is the merge operation's — no contributed head survives
/// unmerged and none is dropped.
pub proof fn lemma_merge_retires_all(f: Set<Seq<u8>>, parents: Set<Seq<u8>>, new_id: Seq<u8>)
    requires
        f.subset_of(parents),
    ensures
        f.difference(parents).insert(new_id) == Set::<Seq<u8>>::empty().insert(new_id),
{
    assert(f.difference(parents).insert(new_id) =~= Set::<Seq<u8>>::empty().insert(new_id));
}

/// No lost update under divergence: for two heads neither of which is
/// an ancestor of the other, both are true heads, and a merge whose
/// parents cover them leaves exactly the merge's id as the head set.
pub proof fn lemma_no_lost_update(
    g: Map<Seq<u8>, Seq<Seq<u8>>>,
    a: Seq<u8>,
    b: Seq<u8>,
    parents: Set<Seq<u8>>,
    new_id: Seq<u8>,
)
    requires
        !crate::dag_walk::is_ancestor(g, a, b),
        !crate::dag_walk::is_ancestor(g, b, a),
        !crate::dag_walk::is_ancestor(g, a, a),
        !crate::dag_walk::is_ancestor(g, b, b),
        parents.contains(a),
        parents.contains(b),
    ensures
        heads_spec(g, set![a, b]) == set![a, b],
        heads_spec(g, set![a, b]).difference(parents).insert(new_id) == Set::<
            Seq<u8>,
        >::empty().insert(new_id),
{
    crate::dag_walk::lemma_independent_heads(g, a, b);
    assert(heads_spec(g, set![a, b]).subset_of(parents));
    lemma_merge_retires_all(heads_spec(g, set![a, b]), parents, new_id);
}

} // verus!
