//! The ancestor filter over the operation graph.
//!
//! The graph is whatever the operation store holds: each decodable
//! record is a node, its parent ids its edges. Given a finite set of
//! candidate ids, the filter returns those candidates that are not
//! ancestors of any candidate — the true heads of the set.

use vstd::prelude::*;

use crate::codec::dec_record;
use crate::op_store::OpStore;
use crate::op_store::OpStoreError;
use crate::op_store::OperationId;
use crate::op_store::clone_ids;
use crate::op_store::contains_id;
use crate::op_store::distinct_ids;
use crate::op_store::ids_set;
use crate::op_store::ids_view;
use crate::op_store::lemma_distinct_ids_set_len;
use crate::op_store::lemma_ids_set_drop_last;
use crate::op_store::lemma_ids_set_member;
use crate::op_store::lemma_ids_set_push;
use crate::op_store::lemma_ids_set_take_step;

verus! {

/// The parent graph held in stored bytes: each id whose bytes decode
/// maps to the parent ids of its record.
pub open spec fn graph_of(ops: Map<Seq<u8>, Seq<u8>>) -> Map<Seq<u8>, Seq<Seq<u8>>> {
    Map::new(
        |id: Seq<u8>| ops.contains_key(id) && dec_record(ops[id]) is Some,
        |id: Seq<u8>| dec_record(ops[id])->Some_0.parent_ids,
    )
}

/// Starting from `b` and following parent edges, `a` can be reached in
/// at least one and at most `fuel` steps.
pub open spec fn reaches(g: Map<Seq<u8>, Seq<Seq<u8>>>, a: Seq<u8>, b: Seq<u8>, fuel: nat) -> bool
    decreases fuel,
{
    fuel > 0 && g.contains_key(b) && exists|k: int|
        0 <= k < g[b].len() && ((#[trigger] g[b][k]) == a || reaches(
            g,
            a,
            g[b][k],
            (fuel - 1) as nat,
        ))
}

/// `a` is a proper ancestor of `b`: reachable from `b` by one or more
/// parent steps.
pub open spec fn is_ancestor(g: Map<Seq<u8>, Seq<Seq<u8>>>, a: Seq<u8>, b: Seq<u8>) -> bool {
    exists|n: nat| reaches(g, a, b, n)
}

/// The members of `s` that are not proper ancestors of any member of
/// `s`: its true heads.
pub open spec fn heads_spec(g: Map<Seq<u8>, Seq<Seq<u8>>>, s: Set<Seq<u8>>) -> Set<Seq<u8>> {
    s.filter(|c: Seq<u8>| !exists|d: Seq<u8>| s.contains(d) && is_ancestor(g, c, d))
}

/// `x` is a member of `s` or a proper ancestor of one.
pub open spec fn in_closure(g: Map<Seq<u8>, Seq<Seq<u8>>>, s: Set<Seq<u8>>, x: Seq<u8>) -> bool {
    s.contains(x) || exists|d: Seq<u8>| s.contains(d) && is_ancestor(g, x, d)
}

/// Every member of `s`, and every proper ancestor of one, is a node of
/// the graph: the whole ancestor closure can be read and decoded.
pub open spec fn closure_resolvable(g: Map<Seq<u8>, Seq<Seq<u8>>>, s: Set<Seq<u8>>) -> bool {
    forall|x: Seq<u8>| in_closure(g, s, x) ==> g.contains_key(x)
}

pub proof fn lemma_reaches_mono(g: Map<Seq<u8>, Seq<Seq<u8>>>, a: Seq<u8>, b: Seq<u8>, n: nat, m: nat)
    requires
        reaches(g, a, b, n),
        n <= m,
    ensures
        reaches(g, a, b, m),
    decreases n,
{
    let k = choose|k: int|
        0 <= k < g[b].len() && ((#[trigger] g[b][k]) == a || reaches(g, a, g[b][k], (n - 1) as nat));
    if g[b][k] == a {
        assert(reaches(g, a, b, m));
    } else {
        lemma_reaches_mono(g, a, g[b][k], (n - 1) as nat, (m - 1) as nat);
        assert(reaches(g, a, b, m));
    }
}

pub proof fn lemma_reaches_trans(
    g: Map<Seq<u8>, Seq<Seq<u8>>>,
    a: Seq<u8>,
    b: Seq<u8>,
    c: Seq<u8>,
    m: nat,
    n: nat,
)
    requires
        reaches(g, a, b, m),
        reaches(g, b, c, n),
    ensures
        reaches(g, a, c, (m + n) as nat),
    decreases n,
{
    let k = choose|k: int|
        0 <= k < g[c].len() && ((#[trigger] g[c][k]) == b || reaches(g, b, g[c][k], (n - 1) as nat));
    if g[c][k] == b {
        lemma_reaches_mono(g, a, b, m, (m + n - 1) as nat);
        assert(reaches(g, a, c, (m + n) as nat));
    } else {
        lemma_reaches_trans(g, a, b, g[c][k], m, (n - 1) as nat);
        assert(reaches(g, a, c, (m + n) as nat));
    }
}

/// Ancestry is transitive.
pub proof fn lemma_ancestor_trans(g: Map<Seq<u8>, Seq<Seq<u8>>>, a: Seq<u8>, b: Seq<u8>, c: Seq<u8>)
    requires
        is_ancestor(g, a, b),
        is_ancestor(g, b, c),
    ensures
        is_ancestor(g, a, c),
{
    let m = choose|m: nat| reaches(g, a, b, m);
    let n = choose|n: nat| reaches(g, b, c, n);
    lemma_reaches_trans(g, a, b, c, m, n);
}

/// Each parent of a node is a proper ancestor of it.
pub proof fn lemma_parent_ancestor(g: Map<Seq<u8>, Seq<Seq<u8>>>, b: Seq<u8>, k: int)
    requires
        g.contains_key(b),
        0 <= k < g[b].len(),
    ensures
        is_ancestor(g, g[b][k], b),
{
    assert(reaches(g, g[b][k], b, 1));
}

/// If a set of nodes `v` contains `s`, contains every parent of its
/// members, and lists every such parent in `r`, then `r` holds every
/// proper ancestor of every member of `s`.
proof fn lemma_reaches_collected(
    g: Map<Seq<u8>, Seq<Seq<u8>>>,
    v: Set<Seq<u8>>,
    r: Set<Seq<u8>>,
    a: Seq<u8>,
    b: Seq<u8>,
    n: nat,
)
    requires
        forall|x: Seq<u8>, k: int|
            v.contains(x) && g.contains_key(x) && 0 <= k < g[x].len() ==> r.contains(
                #[trigger] g[x][k],
            ) && v.contains(g[x][k]),
        v.contains(b),
        reaches(g, a, b, n),
    ensures
        r.contains(a),
    decreases n,
{
    let k = choose|k: int|
        0 <= k < g[b].len() && ((#[trigger] g[b][k]) == a || reaches(g, a, g[b][k], (n - 1) as nat));
    if g[b][k] == a {
    } else {
        lemma_reaches_collected(g, v, r, a, g[b][k], (n - 1) as nat);
    }
}

/// As `lemma_reaches_collected`, for the ancestor relation.
pub proof fn lemma_ancestors_collected(
    g: Map<Seq<u8>, Seq<Seq<u8>>>,
    v: Set<Seq<u8>>,
    r: Set<Seq<u8>>,
    a: Seq<u8>,
    b: Seq<u8>,
)
    requires
        forall|x: Seq<u8>, k: int|
            v.contains(x) && g.contains_key(x) && 0 <= k < g[x].len() ==> r.contains(
                #[trigger] g[x][k],
            ) && v.contains(g[x][k]),
        v.contains(b),
        is_ancestor(g, a, b),
    ensures
        r.contains(a),
{
    let n = choose|n: nat| reaches(g, a, b, n);
    lemma_reaches_collected(g, v, r, a, b, n);
}

/// A parent of a node in the closure of `s` is a proper ancestor of
/// some member of `s`.
pub proof fn lemma_parent_reached(
    g: Map<Seq<u8>, Seq<Seq<u8>>>,
    s: Set<Seq<u8>>,
    b: Seq<u8>,
    k: int,
)
    requires
        in_closure(g, s, b),
        g.contains_key(b),
        0 <= k < g[b].len(),
    ensures
        exists|d: Seq<u8>| s.contains(d) && is_ancestor(g, #[trigger] g[b][k], d),
{
    lemma_parent_ancestor(g, b, k);
    if s.contains(b) {
        assert(s.contains(b) && is_ancestor(g, g[b][k], b));
    } else {
        let d = choose|d: Seq<u8>| s.contains(d) && is_ancestor(g, b, d);
        lemma_ancestor_trans(g, g[b][k], b, d);
        assert(s.contains(d) && is_ancestor(g, g[b][k], d));
    }
}

/// Pushing a fresh id keeps a sequence free of repeats.
proof fn lemma_distinct_push(v: Seq<OperationId>, e: OperationId)
    requires
        distinct_ids(v),
        !ids_set(v).contains(e@),
    ensures
        distinct_ids(v.push(e)),
{
    assert forall|i: int, j: int| 0 <= i < j < v.push(e).len() implies (#[trigger] v.push(e)[i])@
        != (#[trigger] v.push(e)[j])@ by {
        if j < v.len() {
            assert(v[i]@ != v[j]@);
        } else {
            lemma_ids_set_member(v, i);
            assert(v.push(e)[j] == e);
        }
    }
}

/// What the walker maintains of the visited, pending and reached ids:
/// visited ids are nodes of the closure, pending ids lie in the
/// closure, reached ids are proper ancestors of candidates, every
/// parent of a visited node is reached and either visited or pending,
/// and every reached id is either visited or pending.
pub open spec fn walk_inv(
    g: Map<Seq<u8>, Seq<Seq<u8>>>,
    s: Set<Seq<u8>>,
    visited: Seq<OperationId>,
    work: Seq<OperationId>,
    reached: Seq<OperationId>,
) -> bool {
    &&& forall|i: int|
        0 <= i < visited.len() ==> g.contains_key((#[trigger] visited[i])@) && in_closure(
            g,
            s,
            visited[i]@,
        )
    &&& forall|i: int| 0 <= i < work.len() ==> in_closure(g, s, (#[trigger] work[i])@)
    &&& forall|i: int|
        0 <= i < reached.len() ==> exists|d: Seq<u8>|
            s.contains(d) && is_ancestor(g, (#[trigger] reached[i])@, d)
    &&& forall|i: int, k: int|
        #![trigger g[visited[i]@][k]]
        0 <= i < visited.len() && 0 <= k < g[visited[i]@].len() ==> ids_set(reached).contains(
            g[visited[i]@][k],
        ) && (ids_set(visited).contains(g[visited[i]@][k]) || ids_set(work).contains(
            g[visited[i]@][k],
        ))
    &&& forall|i: int|
        0 <= i < reached.len() ==> ids_set(visited).contains((#[trigger] reached[i])@) || ids_set(
            work,
        ).contains(reached[i]@)
    &&& distinct_ids(visited)
}

/// The ancestor filter: of the candidate ids, those that are not
/// proper ancestors of any candidate. Walks the candidates' ancestor
/// closure with an explicit worklist; fails with the store's error if
/// any id in that closure cannot be read and decoded.
pub fn heads_ok<S: OpStore>(store: &S, candidates: &Vec<OperationId>) -> (r: Result<
    Vec<OperationId>,
    OpStoreError,
>)
    requires
        store.inv(),
    ensures
        match r {
            Ok(hs) => {
                &&& ids_set(hs@) == heads_spec(graph_of(store.ops()), ids_set(candidates@))
                &&& distinct_ids(hs@)
                &&& closure_resolvable(graph_of(store.ops()), ids_set(candidates@))
            },
            Err(e) => {
                &&& !closure_resolvable(graph_of(store.ops()), ids_set(candidates@))
                &&& match e {
                    OpStoreError::NotFound(m) => !store.ops().contains_key(m@) && in_closure(
                        graph_of(store.ops()),
                        ids_set(candidates@),
                        m@,
                    ),
                    OpStoreError::Corrupt(b) => store.ops().contains_key(b@) && dec_record(
                        store.ops()[b@],
                    ) is None && in_closure(graph_of(store.ops()), ids_set(candidates@), b@),
                }
            },
        },
{
    let ghost g = graph_of(store.ops());
    let ghost s = ids_set(candidates@);
    let mut visited: Vec<OperationId> = Vec::new();
    let mut work: Vec<OperationId> = clone_ids(candidates);
    let mut reached: Vec<OperationId> = Vec::new();
    proof {
        store.ops_finite();
        assert(g.dom().subset_of(store.ops().dom()));
        vstd::set_lib::lemma_set_subset_finite(store.ops().dom(), g.dom());
        assert forall|i: int| 0 <= i < work@.len() implies in_closure(
            g,
            s,
            (#[trigger] work@[i])@,
        ) by {
            lemma_ids_set_member(candidates@, i);
        }
        assert forall|i: int| 0 <= i < candidates@.len() implies ids_set(work@).contains(
            (#[trigger] candidates@[i])@,
        ) by {
            lemma_ids_set_member(work@, i);
        }
    }
    while work.len() > 0
        invariant
            store.inv(),
            g == graph_of(store.ops()),
            s == ids_set(candidates@),
            g.dom().finite(),
            walk_inv(g, s, visited@, work@, reached@),
            forall|i: int|
                0 <= i < candidates@.len() ==> ids_set(visited@).contains(
                    (#[trigger] candidates@[i])@,
                ) || ids_set(work@).contains(candidates@[i]@),
        decreases g.dom().len() - ids_set(visited@).len(), work@.len(),
    {
        let ghost work0 = work@;
        let ghost visited0 = visited@;
        let ghost reached0 = reached@;
        proof {
            lemma_distinct_ids_set_len(visited0);
        }
        let id = work.pop().unwrap();
        proof {
            lemma_ids_set_drop_last(work0);
            assert(work0[work0.len() - 1] == id);
            assert(in_closure(g, s, id@));
        }
        if contains_id(&visited, &id) {
            proof {
                assert forall|y: Seq<u8>|
                    ids_set(work0).contains(y) implies ids_set(visited@).contains(y) || ids_set(
                    work@,
                ).contains(y) by {
                    if y == id@ {
                    } else {
                        assert(ids_set(work0) == ids_set(work@).insert(id@));
                    }
                }
                assert forall|i: int| 0 <= i < work@.len() implies in_closure(
                    g,
                    s,
                    (#[trigger] work@[i])@,
                ) by {
                    assert(work0[i] == work@[i]);
                }
                assert(walk_inv(g, s, visited@, work@, reached@));
            }
            continue;
        }
        let ghost vset0 = ids_set(visited0);
        let rec = match store.read_operation(&id) {
            Ok(rec) => rec,
            Err(e) => {
                proof {
                    assert(!g.contains_key(id@));
                    assert(!closure_resolvable(g, s));
                }
                return Err(e);
            },
        };
        proof {
            assert(g.contains_key(id@));
            assert(g[id@] == ids_view(rec.parent_ids@));
        }
        proof {
            assert forall|y: Seq<u8>|
                ids_set(work0).contains(y) implies ids_set(work@).contains(y) || y == id@ by {
                assert(ids_set(work0) == ids_set(work@).insert(id@));
            }
            assert forall|i: int| 0 <= i < work@.len() implies in_closure(
                g,
                s,
                (#[trigger] work@[i])@,
            ) by {
                assert(work0[i] == work@[i]);
            }
        }
        let mut j: usize = 0;
        while j < rec.parent_ids.len()
            invariant
                store.inv(),
                g == graph_of(store.ops()),
                s == ids_set(candidates@),
                g.dom().finite(),
                g.contains_key(id@),
                g[id@] == ids_view(rec.parent_ids@),
                in_closure(g, s, id@),
                !ids_set(visited@).contains(id@),
                visited@ == visited0,
                j <= rec.parent_ids@.len(),
                forall|i: int|
                    0 <= i < visited@.len() ==> g.contains_key((#[trigger] visited@[i])@)
                        && in_closure(g, s, visited@[i]@),
                forall|i: int| 0 <= i < work@.len() ==> in_closure(g, s, (#[trigger] work@[i])@),
                forall|i: int|
                    0 <= i < reached@.len() ==> exists|d: Seq<u8>|
                        s.contains(d) && is_ancestor(g, (#[trigger] reached@[i])@, d),
                forall|i: int, k: int|
                    #![trigger g[visited@[i]@][k]]
                    0 <= i < visited@.len() && 0 <= k < g[visited@[i]@].len() ==> ids_set(
                        reached@,
                    ).contains(g[visited@[i]@][k]) && (ids_set(visited@).contains(
                        g[visited@[i]@][k],
                    ) || ids_set(work@).contains(g[visited@[i]@][k]) || g[visited@[i]@][k] == id@),
                forall|i: int|
                    0 <= i < reached@.len() ==> ids_set(visited@).contains(
                        (#[trigger] reached@[i])@,
                    ) || ids_set(work@).contains(reached@[i]@) || reached@[i]@ == id@,
                distinct_ids(visited@),
                forall|k: int|
                    0 <= k < j ==> ids_set(reached@).contains((#[trigger] rec.parent_ids@[k])@)
                        && (ids_set(visited@).contains(rec.parent_ids@[k]@) || ids_set(
                        work@,
                    ).contains(rec.parent_ids@[k]@)),
                forall|i: int|
                    0 <= i < candidates@.len() ==> ids_set(visited@).contains(
                        (#[trigger] candidates@[i])@,
                    ) || ids_set(work@).contains(candidates@[i]@) || candidates@[i]@ == id@,
            decreases rec.parent_ids@.len() - j,
        {
            let ghost workj = work@;
            let ghost reachedj = reached@;
            let p = rec.parent_ids[j].clone();
            proof {
                assert(g[id@][j as int] == rec.parent_ids@[j as int]@);
                lemma_parent_reached(g, s, id@, j as int);
            }
            reached.push(p.clone());
            proof {
                lemma_ids_set_push(reachedj, reached@.last());
            }
            let in_visited = contains_id(&visited, &p);
            if !in_visited {
                work.push(p);
                proof {
                    lemma_ids_set_push(workj, work@.last());
                }
            }
            j += 1;
            proof {
                let pv = rec.parent_ids@[j - 1]@;
                assert(ids_set(reached@) == ids_set(reachedj).insert(pv));
                if !in_visited {
                    assert(ids_set(work@) == ids_set(workj).insert(pv));
                }
                assert forall|i: int| 0 <= i < work@.len() implies in_closure(
                    g,
                    s,
                    (#[trigger] work@[i])@,
                ) by {
                    if i < workj.len() {
                        assert(workj[i] == work@[i]);
                    } else {
                        assert(work@[i]@ == pv);
                        lemma_parent_reached(g, s, id@, j - 1);
                        assert(in_closure(g, s, pv));
                    }
                }
                assert forall|i: int|
                    0 <= i < reached@.len() implies exists|d: Seq<u8>|
                        s.contains(d) && is_ancestor(g, (#[trigger] reached@[i])@, d) by {
                    if i < reachedj.len() {
                        assert(reachedj[i] == reached@[i]);
                    } else {
                        assert(reached@[i]@ == pv);
                        lemma_parent_reached(g, s, id@, j - 1);
                    }
                }
                assert forall|i: int|
                    0 <= i < reached@.len() implies ids_set(visited@).contains(
                        (#[trigger] reached@[i])@,
                    ) || ids_set(work@).contains(reached@[i]@) || reached@[i]@ == id@ by {
                    if i < reachedj.len() {
                        assert(reachedj[i] == reached@[i]);
                    } else {
                        assert(reached@[i]@ == pv);
                        if in_visited {
                            assert(ids_set(visited@).contains(pv));
                        } else {
                            assert(ids_set(work@).contains(pv));
                        }
                    }
                }
            }
        }
        proof {
            lemma_distinct_push(visited0, id);
            lemma_ids_set_push(visited0, id);
        }
        visited.push(id);
        proof {
            let vs = ids_set(visited@);
            assert(vs == vset0.insert(id@));
            assert forall|i: int| 0 <= i < visited@.len() implies g.contains_key(
                (#[trigger] visited@[i])@,
            ) && in_closure(g, s, visited@[i]@) by {
                if i < visited0.len() {
                    assert(visited0[i] == visited@[i]);
                }
            }
            assert forall|i: int, k: int|
                #![trigger g[visited@[i]@][k]]
                0 <= i < visited@.len() && 0 <= k < g[visited@[i]@].len() implies ids_set(
                reached@,
            ).contains(g[visited@[i]@][k]) && (ids_set(visited@).contains(g[visited@[i]@][k])
                || ids_set(work@).contains(g[visited@[i]@][k])) by {
                if i < visited0.len() {
                    assert(visited0[i] == visited@[i]);
                    assert(ids_set(reached@).contains(g[visited0[i]@][k]));
                    assert(ids_set(visited0).contains(g[visited0[i]@][k]) || ids_set(
                        work@,
                    ).contains(g[visited0[i]@][k]) || g[visited0[i]@][k] == id@);
                } else {
                    assert(visited@[i]@ == id@);
                    assert(g[id@][k] == (#[trigger] rec.parent_ids@[k])@);
                }
            }
            assert forall|i: int|
                0 <= i < reached@.len() implies ids_set(visited@).contains(
                    (#[trigger] reached@[i])@,
                ) || ids_set(work@).contains(reached@[i]@) by {
                assert(ids_set(visited0).contains(reached@[i]@) || ids_set(work@).contains(
                    reached@[i]@,
                ) || reached@[i]@ == id@);
            }
            assert(walk_inv(g, s, visited@, work@, reached@));
            // the measure shrinks: one more node of the graph is visited
            lemma_distinct_ids_set_len(visited0);
            vstd::set::axiom_set_insert_len(vset0, id@);
            assert forall|y: Seq<u8>| ids_set(visited@).contains(y) implies g.dom().contains(
                y,
            ) by {
                let i = choose|i: int|
                    0 <= i < ids_view(visited@).len() && ids_view(visited@)[i] == y;
                assert(g.contains_key(visited@[i]@));
            }
            assert(ids_set(visited@).subset_of(g.dom()));
            lemma_distinct_ids_set_len(visited@);
            vstd::set_lib::lemma_len_subset(ids_set(visited@), g.dom());
        }
    }
    // the worklist is drained: everything reachable has been visited,
    // and the reached ids are exactly the proper ancestors that matter
    proof {
        let vs = ids_set(visited@);
        let rs = ids_set(reached@);
        assert forall|y: Seq<u8>| s.contains(y) implies vs.contains(y) by {
            let i = choose|i: int|
                0 <= i < ids_view(candidates@).len() && ids_view(candidates@)[i] == y;
            assert(ids_set(visited@).contains(candidates@[i]@) || ids_set(work@).contains(
                candidates@[i]@,
            ));
            assert(ids_view(work@).len() == 0);
        }
        assert forall|y: Seq<u8>| vs.contains(y) implies g.contains_key(y) by {
            let i = choose|i: int| 0 <= i < ids_view(visited@).len() && ids_view(visited@)[i] == y;
            assert(g.contains_key(visited@[i]@));
        }
        assert forall|x: Seq<u8>, k: int|
            vs.contains(x) && g.contains_key(x) && 0 <= k < g[x].len() implies rs.contains(
            #[trigger] g[x][k],
        ) && vs.contains(g[x][k]) by {
            let i = choose|i: int| 0 <= i < ids_view(visited@).len() && ids_view(visited@)[i] == x;
            assert(ids_set(reached@).contains(g[visited@[i]@][k]));
            assert(ids_set(visited@).contains(g[visited@[i]@][k]) || ids_set(work@).contains(
                g[visited@[i]@][k],
            ));
            assert(ids_view(work@).len() == 0);
        }
        assert forall|y: Seq<u8>| rs.contains(y) implies vs.contains(y) by {
            let i = choose|i: int| 0 <= i < ids_view(reached@).len() && ids_view(reached@)[i] == y;
            assert(ids_set(visited@).contains(reached@[i]@) || ids_set(work@).contains(
                reached@[i]@,
            ));
            assert(ids_view(work@).len() == 0);
        }
        assert forall|x: Seq<u8>| in_closure(g, s, x) implies g.contains_key(x) by {
            if s.contains(x) {
                assert(vs.contains(x));
            } else {
                let d = choose|d: Seq<u8>| s.contains(d) && is_ancestor(g, x, d);
                lemma_ancestors_collected(g, vs, rs, x, d);
                assert(rs.contains(x));
                assert(vs.contains(x));
            }
        }
        assert(closure_resolvable(g, s));
        assert forall|c: Seq<u8>| heads_spec(g, s).contains(c) implies s.difference(rs).contains(
            c,
        ) by {
            if rs.contains(c) {
                let i = choose|i: int|
                    0 <= i < ids_view(reached@).len() && ids_view(reached@)[i] == c;
                assert(exists|d: Seq<u8>|
                    s.contains(d) && is_ancestor(g, (#[trigger] reached@[i])@, d));
                assert(false);
            }
        }
        assert forall|c: Seq<u8>| s.difference(rs).contains(c) implies heads_spec(g, s).contains(
            c,
        ) by {
            if exists|d: Seq<u8>| s.contains(d) && is_ancestor(g, c, d) {
                let d = choose|d: Seq<u8>| s.contains(d) && is_ancestor(g, c, d);
                assert(vs.contains(d));
                lemma_ancestors_collected(g, vs, rs, c, d);
                assert(false);
            }
        }
        assert(heads_spec(g, s) =~= s.difference(rs));
    }
    let mut out: Vec<OperationId> = Vec::new();
    let mut i: usize = 0;
    proof {
        assert(candidates@.take(0) =~= Seq::<OperationId>::empty());
        assert(ids_view(candidates@.take(0)) =~= Seq::<Seq<u8>>::empty());
        assert(ids_set(out@) =~= ids_set(candidates@.take(0)).difference(ids_set(reached@)));
    }
    while i < candidates.len()
        invariant
            i <= candidates@.len(),
            ids_set(out@) == ids_set(candidates@.take(i as int)).difference(ids_set(reached@)),
            distinct_ids(out@),
        decreases candidates@.len() - i,
    {
        let ghost out0 = out@;
        let c = &candidates[i];
        let in_reached = contains_id(&reached, c);
        let in_out = contains_id(&out, c);
        proof {
            lemma_ids_set_take_step(candidates@, i as int);
        }
        if !in_reached && !in_out {
            out.push(c.clone());
        }
        i += 1;
        proof {
            if !in_reached && !in_out {
                lemma_ids_set_push(out0, out@.last());
                lemma_distinct_push(out0, out@.last());
                assert(out@.last()@ == candidates@[i - 1]@);
                assert(ids_set(out@) =~= ids_set(candidates@.take(i as int)).difference(
                    ids_set(reached@),
                ));
                assert(distinct_ids(out@));
            } else {
                assert(ids_set(out@) =~= ids_set(candidates@.take(i as int)).difference(
                    ids_set(reached@),
                ));
            }
        }
    }
    proof {
        assert(candidates@.take(candidates@.len() as int) =~= candidates@);
        assert(ids_set(out@) == heads_spec(g, s));
    }
    Ok(out)
}

/// Idempotent staleness cleanup: when one candidate is a proper
/// ancestor of the other and the other is a true head, the filter
/// keeps only the descendant. With the resolution routine's contract,
/// a head set `{a, b}` where `a` is an ancestor of `b` resolves to
/// `b` alone, with no merge written.
pub proof fn lemma_stale_ancestor_filtered(g: Map<Seq<u8>, Seq<Seq<u8>>>, a: Seq<u8>, b: Seq<u8>)
    requires
        is_ancestor(g, a, b),
        !is_ancestor(g, b, a),
        !is_ancestor(g, b, b),
    ensures
        heads_spec(g, set![a, b]) == set![b],
{
    let s = set![a, b];
    assert(s.contains(b));
    assert(!heads_spec(g, s).contains(a));
    assert forall|d: Seq<u8>| s.contains(d) implies !is_ancestor(g, b, d) by {}
    assert(heads_spec(g, s).contains(b));
    assert(heads_spec(g, s) =~= set![b]);
}

/// Genuine divergence is kept whole: when neither candidate is an
/// ancestor of the other (a diamond over any common root), the filter
/// returns both.
pub proof fn lemma_independent_heads(g: Map<Seq<u8>, Seq<Seq<u8>>>, a: Seq<u8>, b: Seq<u8>)
    requires
        !is_ancestor(g, a, b),
        !is_ancestor(g, b, a),
        !is_ancestor(g, a, a),
        !is_ancestor(g, b, b),
    ensures
        heads_spec(g, set![a, b]) == set![a, b],
{
    let s = set![a, b];
    assert(heads_spec(g, s).contains(a));
    assert(heads_spec(g, s).contains(b));
    assert(heads_spec(g, s) =~= s);
}

} // verus!
