//! Canonical byte format of operation records.
//!
//! A record is serialized as: the parent count, then each parent id
//! length-prefixed, then the view id, author, hostname and description
//! length-prefixed, then the start and end timestamps. All integers are
//! eight bytes, least significant byte first. Every record has exactly
//! one encoding, and decoding accepts exactly the encodings.

use vstd::prelude::*;

use crate::op_store::MetadataView;
use crate::op_store::OperationId;
use crate::op_store::OperationMetadata;
use crate::op_store::OperationRecord;
use crate::op_store::RecordView;
use crate::op_store::ViewId;
use crate::op_store::ids_view;

verus! {

/// One more than the largest length a length prefix can carry.
pub open spec fn length_limit() -> int {
    0x1_0000_0000_0000_0000
}

/// A 64-bit integer as eight bytes, least significant first.
pub open spec fn enc_u64(x: u64) -> Seq<u8> {
    seq![
        (x & 0xff) as u8,
        ((x >> 8) & 0xff) as u8,
        ((x >> 16) & 0xff) as u8,
        ((x >> 24) & 0xff) as u8,
        ((x >> 32) & 0xff) as u8,
        ((x >> 40) & 0xff) as u8,
        ((x >> 48) & 0xff) as u8,
        ((x >> 56) & 0xff) as u8,
    ]
}

/// The 64-bit integer read from eight bytes, least significant first.
pub open spec fn dec_u64(s: Seq<u8>) -> u64 {
    (s[0] as u64) | ((s[1] as u64) << 8) | ((s[2] as u64) << 16) | ((s[3] as u64) << 24)
        | ((s[4] as u64) << 32) | ((s[5] as u64) << 40) | ((s[6] as u64) << 48)
        | ((s[7] as u64) << 56)
}

pub proof fn lemma_u64_round_trip(x: u64)
    ensures
        dec_u64(enc_u64(x)) == x,
{
    let s = enc_u64(x);
    assert(s[0] == (x & 0xff) as u8);
    assert(s[1] == ((x >> 8) & 0xff) as u8);
    assert(s[2] == ((x >> 16) & 0xff) as u8);
    assert(s[3] == ((x >> 24) & 0xff) as u8);
    assert(s[4] == ((x >> 32) & 0xff) as u8);
    assert(s[5] == ((x >> 40) & 0xff) as u8);
    assert(s[6] == ((x >> 48) & 0xff) as u8);
    assert(s[7] == ((x >> 56) & 0xff) as u8);
    assert(((x & 0xff) as u8 as u64) | (((x >> 8) & 0xff) as u8 as u64) << 8
        | (((x >> 16) & 0xff) as u8 as u64) << 16 | (((x >> 24) & 0xff) as u8 as u64) << 24
        | (((x >> 32) & 0xff) as u8 as u64) << 32 | (((x >> 40) & 0xff) as u8 as u64) << 40
        | (((x >> 48) & 0xff) as u8 as u64) << 48 | (((x >> 56) & 0xff) as u8 as u64) << 56
        == x) by (bit_vector);
}

/// A byte string prefixed with its length.
pub open spec fn enc_lp(b: Seq<u8>) -> Seq<u8> {
    enc_u64(b.len() as u64) + b
}

/// A sequence of byte strings, each length-prefixed, in order.
pub open spec fn enc_ids(ps: Seq<Seq<u8>>) -> Seq<u8>
    decreases ps.len(),
{
    if ps.len() == 0 {
        Seq::empty()
    } else {
        enc_lp(ps[0]) + enc_ids(ps.drop_first())
    }
}

pub proof fn lemma_enc_ids_push(ps: Seq<Seq<u8>>, x: Seq<u8>)
    ensures
        enc_ids(ps.push(x)) == enc_ids(ps) + enc_lp(x),
    decreases ps.len(),
{
    if ps.len() == 0 {
        assert(ps.push(x)[0] == x);
        assert(ps.push(x).drop_first() =~= Seq::<Seq<u8>>::empty());
        assert(enc_ids(ps.push(x).drop_first()) == Seq::<u8>::empty());
        assert(enc_ids(ps.push(x)) == enc_lp(x) + Seq::<u8>::empty());
        assert(enc_ids(ps.push(x)) =~= enc_ids(ps) + enc_lp(x));
    } else {
        assert(ps.push(x).drop_first() =~= ps.drop_first().push(x));
        lemma_enc_ids_push(ps.drop_first(), x);
        assert(ps.push(x)[0] == ps[0]);
        assert(enc_lp(ps[0]) + (enc_ids(ps.drop_first()) + enc_lp(x)) =~= (enc_lp(ps[0])
            + enc_ids(ps.drop_first())) + enc_lp(x));
    }
}

/// The canonical serialization of a record.
pub open spec fn enc_record(v: RecordView) -> Seq<u8> {
    enc_u64(v.parent_ids.len() as u64) + enc_ids(v.parent_ids) + enc_lp(v.view_id) + enc_lp(
        v.metadata.author,
    ) + enc_lp(v.metadata.hostname) + enc_lp(v.metadata.description) + enc_u64(
        v.metadata.start_time as u64,
    ) + enc_u64(v.metadata.end_time as u64)
}

/// Append the eight-byte encoding of `x`.
pub fn write_u64(out: &mut Vec<u8>, x: u64)
    ensures
        final(out)@ == old(out)@ + enc_u64(x),
{
    proof {
        assert((x & 0xff) <= 0xff && ((x >> 8) & 0xff) <= 0xff && ((x >> 16) & 0xff) <= 0xff && ((
        x >> 24) & 0xff) <= 0xff && ((x >> 32) & 0xff) <= 0xff && ((x >> 40) & 0xff) <= 0xff && ((
        x >> 48) & 0xff) <= 0xff && ((x >> 56) & 0xff) <= 0xff) by (bit_vector);
    }
    out.push((x & 0xff) as u8);
    out.push(((x >> 8) & 0xff) as u8);
    out.push(((x >> 16) & 0xff) as u8);
    out.push(((x >> 24) & 0xff) as u8);
    out.push(((x >> 32) & 0xff) as u8);
    out.push(((x >> 40) & 0xff) as u8);
    out.push(((x >> 48) & 0xff) as u8);
    out.push(((x >> 56) & 0xff) as u8);
    proof {
        assert(out@ =~= old(out)@ + enc_u64(x));
    }
}

/// Append `b` with its length prefix.
pub fn write_lp(out: &mut Vec<u8>, b: &Vec<u8>)
    ensures
        final(out)@ == old(out)@ + enc_lp(b@),
{
    let ghost mid = out@ + enc_u64(b@.len() as u64);
    write_u64(out, b.len() as u64);
    let mut i: usize = 0;
    while i < b.len()
        invariant
            i <= b@.len(),
            out@ == mid + b@.subrange(0, i as int),
        decreases b@.len() - i,
    {
        out.push(b[i]);
        i += 1;
        proof {
            assert(out@ =~= mid + b@.subrange(0, i as int));
        }
    }
    proof {
        assert(b@.subrange(0, b@.len() as int) =~= b@);
        assert(out@ =~= old(out)@ + enc_lp(b@));
    }
}

/// Serialize a record into its canonical byte form.
pub fn encode_record(rec: &OperationRecord) -> (out: Vec<u8>)
    ensures
        out@ == enc_record(rec@),
{
    let ghost v = rec@;
    let mut out: Vec<u8> = Vec::new();
    write_u64(&mut out, rec.parent_ids.len() as u64);
    proof {
        assert(out@ =~= Seq::<u8>::empty() + enc_u64(v.parent_ids.len() as u64));
        assert(out@ =~= enc_u64(v.parent_ids.len() as u64));
        assert(v.parent_ids.take(0) =~= Seq::<Seq<u8>>::empty());
    }
    let mut i: usize = 0;
    while i < rec.parent_ids.len()
        invariant
            i <= rec.parent_ids@.len(),
            v == rec@,
            out@ == enc_u64(v.parent_ids.len() as u64) + enc_ids(v.parent_ids.take(i as int)),
        decreases rec.parent_ids@.len() - i,
    {
        write_lp(&mut out, &rec.parent_ids[i].bytes);
        proof {
            let taken = v.parent_ids.take(i as int);
            lemma_enc_ids_push(taken, v.parent_ids[i as int]);
            assert(taken.push(v.parent_ids[i as int]) =~= v.parent_ids.take(i + 1));
            assert(out@ =~= enc_u64(v.parent_ids.len() as u64) + enc_ids(
                v.parent_ids.take(i + 1),
            ));
        }
        i += 1;
    }
    proof {
        assert(v.parent_ids.take(v.parent_ids.len() as int) =~= v.parent_ids);
    }
    write_lp(&mut out, &rec.view_id.bytes);
    write_lp(&mut out, &rec.metadata.author);
    write_lp(&mut out, &rec.metadata.hostname);
    write_lp(&mut out, &rec.metadata.description);
    write_u64(&mut out, rec.metadata.start_time as u64);
    write_u64(&mut out, rec.metadata.end_time as u64);
    proof {
        assert(out@ =~= enc_record(v));
    }
    out
}

/// The integer at position `i`, read from eight bytes.
pub open spec fn dec_u64_at(s: Seq<u8>, i: int) -> u64 {
    dec_u64(s.subrange(i, i + 8))
}

/// The length-prefixed byte string at position `i`, with the position
/// that follows it; `None` if the bytes do not reach that far.
pub open spec fn dec_lp_at(s: Seq<u8>, i: int) -> Option<(Seq<u8>, int)> {
    if 0 <= i && i + 8 <= s.len() {
        if i + 8 + (dec_u64_at(s, i) as int) <= s.len() {
            Some(
                (
                    s.subrange(i + 8, i + 8 + (dec_u64_at(s, i) as int)),
                    i + 8 + (dec_u64_at(s, i) as int),
                ),
            )
        } else {
            None
        }
    } else {
        None
    }
}

/// `count` length-prefixed byte strings starting at position `i`, with
/// the position that follows them.
pub open spec fn dec_ids_at(s: Seq<u8>, i: int, count: nat) -> Option<(Seq<Seq<u8>>, int)>
    decreases count,
{
    if count == 0 {
        Some((Seq::empty(), i))
    } else {
        match dec_lp_at(s, i) {
            Some(p) => match dec_ids_at(s, p.1, (count - 1) as nat) {
                Some(q) => Some((seq![p.0] + q.0, q.1)),
                None => None,
            },
            None => None,
        }
    }
}

/// The record whose canonical encoding is exactly `s`, if there is one.
pub open spec fn dec_record(s: Seq<u8>) -> Option<RecordView> {
    if s.len() < 8 {
        None
    } else {
        match dec_ids_at(s, 8, dec_u64_at(s, 0) as nat) {
            None => None,
            Some(p) => match dec_lp_at(s, p.1) {
                None => None,
                Some(pv) => match dec_lp_at(s, pv.1) {
                    None => None,
                    Some(pa) => match dec_lp_at(s, pa.1) {
                        None => None,
                        Some(ph) => match dec_lp_at(s, ph.1) {
                            None => None,
                            Some(pd) => if pd.1 + 16 == s.len() {
                                Some(
                                    RecordView {
                                        parent_ids: p.0,
                                        view_id: pv.0,
                                        metadata: MetadataView {
                                            author: pa.0,
                                            hostname: ph.0,
                                            description: pd.0,
                                            start_time: dec_u64_at(s, pd.1) as i64,
                                            end_time: dec_u64_at(s, pd.1 + 8) as i64,
                                        },
                                    },
                                )
                            } else {
                                None
                            },
                        },
                    },
                },
            },
        }
    }
}

/// Every length that the encoding of `v` writes fits its prefix.
pub open spec fn record_fits(v: RecordView) -> bool {
    &&& v.parent_ids.len() < length_limit()
    &&& forall|k: int|
        0 <= k < v.parent_ids.len() ==> #[trigger] v.parent_ids[k].len() < length_limit()
    &&& v.view_id.len() < length_limit()
    &&& v.metadata.author.len() < length_limit()
    &&& v.metadata.hostname.len() < length_limit()
    &&& v.metadata.description.len() < length_limit()
}

/// The value of any executable record fits, since every vector is
/// bounded by the address space.
pub proof fn lemma_record_fits(rec: &OperationRecord)
    ensures
        record_fits(rec@),
{
    assert(rec.parent_ids.len() == rec.parent_ids@.len());
    assert(rec.view_id.bytes.len() == rec.view_id@.len());
    assert(rec.metadata.author.len() == rec.metadata.author@.len());
    assert(rec.metadata.hostname.len() == rec.metadata.hostname@.len());
    assert(rec.metadata.description.len() == rec.metadata.description@.len());
    assert forall|k: int| 0 <= k < rec@.parent_ids.len() implies #[trigger] rec@.parent_ids[k].len()
        < length_limit() by {
        assert(rec.parent_ids@[k].bytes.len() == rec.parent_ids@[k]@.len());
    }
}

pub proof fn lemma_dec_u64_at(s: Seq<u8>, i: int, x: u64)
    requires
        0 <= i,
        i + 8 <= s.len(),
        s.subrange(i, i + 8) == enc_u64(x),
    ensures
        dec_u64_at(s, i) == x,
{
    lemma_u64_round_trip(x);
}

pub proof fn lemma_dec_lp_at(s: Seq<u8>, i: int, b: Seq<u8>)
    requires
        0 <= i,
        i + 8 + b.len() <= s.len(),
        b.len() < length_limit(),
        s.subrange(i, i + 8 + b.len()) == enc_lp(b),
    ensures
        dec_lp_at(s, i) == Some((b, i + 8 + b.len())),
{
    let n64 = b.len() as u64;
    let e = enc_lp(b);
    assert forall|k: int| 0 <= k < 8 implies s.subrange(i, i + 8)[k] == enc_u64(n64)[k] by {
        assert(s.subrange(i, i + 8 + b.len())[k] == e[k]);
    }
    assert(s.subrange(i, i + 8) =~= enc_u64(n64));
    lemma_dec_u64_at(s, i, n64);
    assert(dec_u64_at(s, i) as int == b.len());
    assert forall|k: int| 0 <= k < b.len() implies s.subrange(i + 8, i + 8 + b.len())[k] == b[k] by {
        assert(s.subrange(i, i + 8 + b.len())[8 + k] == e[8 + k]);
    }
    assert(s.subrange(i + 8, i + 8 + b.len()) =~= b);
}

pub proof fn lemma_dec_ids_at(s: Seq<u8>, i: int, ps: Seq<Seq<u8>>)
    requires
        0 <= i,
        i + enc_ids(ps).len() <= s.len(),
        forall|k: int| 0 <= k < ps.len() ==> #[trigger] ps[k].len() < length_limit(),
        s.subrange(i, i + enc_ids(ps).len()) == enc_ids(ps),
    ensures
        dec_ids_at(s, i, ps.len()) == Some((ps, i + enc_ids(ps).len())),
    decreases ps.len(),
{
    if ps.len() == 0 {
        assert(ps =~= Seq::<Seq<u8>>::empty());
    } else {
        let head = ps[0];
        let tail = ps.drop_first();
        let l0: int = 8 + head.len() as int;
        let e = enc_ids(ps);
        let le: int = e.len() as int;
        assert(enc_ids(ps) == enc_lp(head) + enc_ids(tail));
        assert forall|k: int| 0 <= k < l0 implies s.subrange(i, i + l0)[k] == enc_lp(head)[k] by {
            assert(s.subrange(i, i + le)[k] == e[k]);
        }
        assert(s.subrange(i, i + l0) =~= enc_lp(head));
        lemma_dec_lp_at(s, i, head);
        let lt: int = enc_ids(tail).len() as int;
        assert forall|k: int| 0 <= k < lt implies s.subrange(i + l0, i + l0 + lt)[k] == enc_ids(
            tail,
        )[k] by {
            assert(s.subrange(i, i + le)[l0 + k] == e[l0 + k]);
        }
        assert(s.subrange(i + l0, i + l0 + lt) =~= enc_ids(tail));
        lemma_dec_ids_at(s, i + l0, tail);
        assert(dec_ids_at(s, i + l0, tail.len()) == Some((tail, i + l0 + lt)));
        assert((ps.len() - 1) as nat == tail.len());
        assert(seq![head] + tail =~= ps);
        assert(dec_ids_at(s, i, ps.len()) == Some((ps, i + enc_ids(ps).len())));
    }
}

/// Within `s`, a stretch known to be `a + b` splits into a stretch
/// that is `a` and one that is `b`.
proof fn lemma_split_at(s: Seq<u8>, a: Seq<u8>, b: Seq<u8>, i: int)
    requires
        0 <= i,
        i + a.len() + b.len() <= s.len(),
        s.subrange(i, i + a.len() + b.len()) == a + b,
    ensures
        s.subrange(i, i + a.len()) == a,
        s.subrange(i + a.len(), i + a.len() + b.len()) == b,
{
    let la: int = a.len() as int;
    let lb: int = b.len() as int;
    assert forall|k: int| 0 <= k < la implies s.subrange(i, i + la)[k] == a[k] by {
        assert(s.subrange(i, i + la + lb)[k] == (a + b)[k]);
    }
    assert(s.subrange(i, i + la) =~= a);
    assert forall|k: int| 0 <= k < lb implies s.subrange(i + la, i + la + lb)[k] == b[k] by {
        assert(s.subrange(i, i + la + lb)[la + k] == (a + b)[la + k]);
    }
    assert(s.subrange(i + la, i + la + lb) =~= b);
}

/// Offset of the parent-id section within an encoded record.
pub open spec fn off_ids(v: RecordView) -> int {
    8
}

/// Offset of the view id section within an encoded record.
pub open spec fn off_view(v: RecordView) -> int {
    8 + enc_ids(v.parent_ids).len() as int
}

/// Offset of the author section within an encoded record.
pub open spec fn off_author(v: RecordView) -> int {
    off_view(v) + 8 + v.view_id.len()
}

/// Offset of the hostname section within an encoded record.
pub open spec fn off_hostname(v: RecordView) -> int {
    off_author(v) + 8 + v.metadata.author.len()
}

/// Offset of the description section within an encoded record.
pub open spec fn off_description(v: RecordView) -> int {
    off_hostname(v) + 8 + v.metadata.hostname.len()
}

/// Offset of the two timestamps within an encoded record.
pub open spec fn off_times(v: RecordView) -> int {
    off_description(v) + 8 + v.metadata.description.len()
}

/// Where each section of a record stands within its encoding.
proof fn lemma_record_layout(v: RecordView)
    ensures
        enc_record(v).len() == off_times(v) + 16,
        enc_record(v).subrange(0, 8) == enc_u64(v.parent_ids.len() as u64),
        enc_record(v).subrange(off_ids(v), off_view(v)) == enc_ids(v.parent_ids),
        enc_record(v).subrange(off_view(v), off_author(v)) == enc_lp(v.view_id),
        enc_record(v).subrange(off_author(v), off_hostname(v)) == enc_lp(v.metadata.author),
        enc_record(v).subrange(off_hostname(v), off_description(v)) == enc_lp(
            v.metadata.hostname,
        ),
        enc_record(v).subrange(off_description(v), off_times(v)) == enc_lp(
            v.metadata.description,
        ),
        enc_record(v).subrange(off_times(v), off_times(v) + 8) == enc_u64(
            v.metadata.start_time as u64,
        ),
        enc_record(v).subrange(off_times(v) + 8, off_times(v) + 16) == enc_u64(
            v.metadata.end_time as u64,
        ),
{
    let s = enc_record(v);
    let p0 = enc_u64(v.parent_ids.len() as u64);
    let p1 = enc_ids(v.parent_ids);
    let p2 = enc_lp(v.view_id);
    let p3 = enc_lp(v.metadata.author);
    let p4 = enc_lp(v.metadata.hostname);
    let p5 = enc_lp(v.metadata.description);
    let p6 = enc_u64(v.metadata.start_time as u64);
    let p7 = enc_u64(v.metadata.end_time as u64);
    let g1 = p0 + p1;
    let g2 = g1 + p2;
    let g3 = g2 + p3;
    let g4 = g3 + p4;
    let g5 = g4 + p5;
    let g6 = g5 + p6;
    assert(s == g6 + p7);
    assert(s.subrange(0, g6.len() + p7.len() as int) =~= g6 + p7);
    lemma_split_at(s, g6, p7, 0);
    lemma_split_at(s, g5, p6, 0);
    lemma_split_at(s, g4, p5, 0);
    lemma_split_at(s, g3, p4, 0);
    lemma_split_at(s, g2, p3, 0);
    lemma_split_at(s, g1, p2, 0);
    lemma_split_at(s, p0, p1, 0);
}

/// Decoding is a left inverse of encoding: the canonical bytes of a
/// record decode to exactly that record.
pub proof fn lemma_record_round_trip(v: RecordView)
    requires
        record_fits(v),
    ensures
        dec_record(enc_record(v)) == Some(v),
{
    let s = enc_record(v);
    lemma_record_layout(v);
    let o2: int = off_view(v);
    let o3: int = off_author(v);
    let o4: int = off_hostname(v);
    let o5: int = off_description(v);
    let o6: int = off_times(v);
    lemma_dec_u64_at(s, 0, v.parent_ids.len() as u64);
    assert(dec_u64_at(s, 0) as nat == v.parent_ids.len());
    lemma_dec_ids_at(s, 8, v.parent_ids);
    assert(dec_ids_at(s, 8, v.parent_ids.len()) == Some((v.parent_ids, o2)));
    lemma_dec_lp_at(s, o2, v.view_id);
    assert(dec_lp_at(s, o2) == Some((v.view_id, o3)));
    lemma_dec_lp_at(s, o3, v.metadata.author);
    assert(dec_lp_at(s, o3) == Some((v.metadata.author, o4)));
    lemma_dec_lp_at(s, o4, v.metadata.hostname);
    assert(dec_lp_at(s, o4) == Some((v.metadata.hostname, o5)));
    lemma_dec_lp_at(s, o5, v.metadata.description);
    assert(dec_lp_at(s, o5) == Some((v.metadata.description, o6)));
    lemma_dec_u64_at(s, o6, v.metadata.start_time as u64);
    lemma_dec_u64_at(s, o6 + 8, v.metadata.end_time as u64);
    let x = v.metadata.start_time;
    let y = v.metadata.end_time;
    assert(x as u64 as i64 == x) by (bit_vector);
    assert(y as u64 as i64 == y) by (bit_vector);
    assert(dec_record(s) == Some(v));
}

/// Read the eight-byte integer at `pos`, if the bytes reach that far.
fn read_u64(s: &Vec<u8>, pos: usize) -> (r: Option<(u64, usize)>)
    requires
        pos <= s@.len(),
    ensures
        match r {
            Some(p) => pos + 8 <= s@.len() && p.0 == dec_u64_at(s@, pos as int) && p.1 == pos + 8,
            None => pos + 8 > s@.len(),
        },
{
    if s.len() - pos < 8 {
        return None;
    }
    let x: u64 = (s[pos] as u64) | ((s[pos + 1] as u64) << 8) | ((s[pos + 2] as u64) << 16) | ((s[
        pos + 3] as u64) << 24) | ((s[pos + 4] as u64) << 32) | ((s[pos + 5] as u64) << 40) | ((s[
        pos + 6] as u64) << 48) | ((s[pos + 7] as u64) << 56);
    proof {
        let sub = s@.subrange(pos as int, pos as int + 8);
        assert(sub[0] == s@[pos as int] && sub[1] == s@[pos as int + 1] && sub[2] == s@[pos as int
            + 2] && sub[3] == s@[pos as int + 3] && sub[4] == s@[pos as int + 4] && sub[5] == s@[
        pos as int + 5] && sub[6] == s@[pos as int + 6] && sub[7] == s@[pos as int + 7]);
    }
    Some((x, pos + 8))
}

/// Read the length-prefixed byte string at `pos`, if the bytes reach
/// that far.
fn read_lp(s: &Vec<u8>, pos: usize) -> (r: Option<(Vec<u8>, usize)>)
    requires
        pos <= s@.len(),
    ensures
        match r {
            Some(p) => dec_lp_at(s@, pos as int) == Some((p.0@, p.1 as int)) && pos < p.1
                <= s@.len(),
            None => dec_lp_at(s@, pos as int) is None,
        },
{
    let (n, start) = match read_u64(s, pos) {
        Some(p) => p,
        None => {
            return None;
        },
    };
    let remaining: usize = s.len() - start;
    if n > remaining as u64 {
        return None;
    }
    let count: usize = n as usize;
    let mut out: Vec<u8> = Vec::new();
    let mut j: usize = 0;
    while j < count
        invariant
            start + count <= s.len(),
            j <= count,
            out@ == s@.subrange(start as int, start as int + j as int),
        decreases count - j,
    {
        out.push(s[start + j]);
        j += 1;
        proof {
            assert(out@ =~= s@.subrange(start as int, start as int + j as int));
        }
    }
    Some((out, start + count))
}

/// Parse a record from its canonical byte form. Returns `None` on any
/// bytes that are not exactly the encoding of some record.
pub fn decode_record(s: &Vec<u8>) -> (r: Option<OperationRecord>)
    ensures
        match r {
            Some(rec) => dec_record(s@) == Some(rec@),
            None => dec_record(s@) is None,
        },
{
    let (count, after_count) = match read_u64(s, 0) {
        Some(p) => p,
        None => {
            return None;
        },
    };
    let ghost base: int = after_count as int;
    let mut parent_ids: Vec<OperationId> = Vec::new();
    let mut k: u64 = 0;
    let mut pos: usize = after_count;
    proof {
        assert(ids_view(parent_ids@) + dec_ids_at(s@, base, count as nat)->Some_0.0 =~= dec_ids_at(
            s@,
            base,
            count as nat,
        )->Some_0.0);
    }
    while k < count
        invariant
            k <= count,
            pos <= s@.len(),
            parent_ids@.len() == k,
            base == 8,
            count == dec_u64_at(s@, 0),
            match dec_ids_at(s@, pos as int, (count - k) as nat) {
                Some(q) => dec_ids_at(s@, base, count as nat) == Some(
                    (ids_view(parent_ids@) + q.0, q.1),
                ),
                None => dec_ids_at(s@, base, count as nat) is None,
            },
        decreases count - k,
    {
        let (b, next) = match read_lp(s, pos) {
            Some(p) => p,
            None => {
                proof {
                    assert(dec_ids_at(s@, pos as int, (count - k) as nat) is None);
                }
                return None;
            },
        };
        proof {
            let rest = dec_ids_at(s@, next as int, (count - k - 1) as nat);
            if rest is Some {
                let q2 = rest->Some_0;
                assert(dec_ids_at(s@, pos as int, (count - k) as nat) == Some(
                    (seq![b@] + q2.0, q2.1),
                ));
                assert(ids_view(parent_ids@.push(OperationId { bytes: b })) =~= ids_view(
                    parent_ids@,
                ).push(b@));
                assert(ids_view(parent_ids@) + (seq![b@] + q2.0) =~= ids_view(
                    parent_ids@.push(OperationId { bytes: b }),
                ) + q2.0);
            } else {
                assert(dec_ids_at(s@, pos as int, (count - k) as nat) is None);
            }
        }
        parent_ids.push(OperationId::new(b));
        pos = next;
        k += 1;
    }
    proof {
        assert(dec_ids_at(s@, pos as int, 0) == Some((Seq::<Seq<u8>>::empty(), pos as int)));
        assert(ids_view(parent_ids@) + Seq::<Seq<u8>>::empty() =~= ids_view(parent_ids@));
        assert(dec_ids_at(s@, base, count as nat) == Some((ids_view(parent_ids@), pos as int)));
    }
    let (view_bytes, pos2) = match read_lp(s, pos) {
        Some(p) => p,
        None => {
            return None;
        },
    };
    let (author, pos3) = match read_lp(s, pos2) {
        Some(p) => p,
        None => {
            return None;
        },
    };
    let (hostname, pos4) = match read_lp(s, pos3) {
        Some(p) => p,
        None => {
            return None;
        },
    };
    let (description, pos5) = match read_lp(s, pos4) {
        Some(p) => p,
        None => {
            return None;
        },
    };
    let (start_raw, pos6) = match read_u64(s, pos5) {
        Some(p) => p,
        None => {
            return None;
        },
    };
    let (end_raw, pos7) = match read_u64(s, pos6) {
        Some(p) => p,
        None => {
            return None;
        },
    };
    if pos7 != s.len() {
        return None;
    }
    proof {
        assert(pos5 as int + 16 == s@.len());
    }
    let rec = OperationRecord {
        parent_ids,
        view_id: ViewId::new(view_bytes),
        metadata: OperationMetadata {
            author,
            hostname,
            description,
            start_time: start_raw as i64,
            end_time: end_raw as i64,
        },
    };
    proof {
        assert(dec_record(s@) == Some(rec@));
    }
    Some(rec)
}

} // verus!
