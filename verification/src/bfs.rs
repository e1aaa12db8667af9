//! Breadth-first path search over an arbitrary successor relation.

use vstd::prelude::*;

verus! {

/// The mathematical shape of a successor list.
pub type SuccList = Seq<u32>;

/// A client-supplied successor relation over `u32` nodes.
pub trait GraphSuccessors {
    /// The successors `successors` returns for `node`.
    spec fn succ_spec(&self, node: u32) -> SuccList;

    fn successors(&self, node: u32) -> (r: Vec<u32>)
        ensures
            r@ == self.succ_spec(node),
    ;
}

/// A non-empty walk: it starts at a root and follows successor edges.
pub open spec fn walk_ok<S: GraphSuccessors>(s: S, roots: Seq<u32>, p: Seq<u32>) -> bool {
    &&& p.len() > 0
    &&& roots.contains(p[0])
    &&& forall|q: int| 0 <= q < p.len() - 1 ==> (#[trigger] s.succ_spec(p[q])).contains(p[q + 1])
}

/// Whether some walk from the roots ends at `n`.
pub open spec fn reaches<S: GraphSuccessors>(s: S, roots: Seq<u32>, n: u32) -> bool {
    exists|p: Seq<u32>| walk_ok(s, roots, p) && p[p.len() - 1] == n
}

/// Whether the search queue holds an entry for `node` whose discovery
/// path has at most `bound` nodes.
spec fn entry_for(qseq: Seq<(u32, Vec<u32>)>, node: u32, bound: int) -> bool {
    exists|jj: int|
        0 <= jj < qseq.len() && (#[trigger] qseq[jj]).0 == node && qseq[jj].1@.len() <= bound
}

/// An entry survives appending to the queue.
proof fn lemma_entry_push(qseq: Seq<(u32, Vec<u32>)>, e: (u32, Vec<u32>), node: u32, bound: int)
    requires
        entry_for(qseq, node, bound),
    ensures
        entry_for(qseq.push(e), node, bound),
{
    let jj = choose|jj: int|
        0 <= jj < qseq.len() && (#[trigger] qseq[jj]).0 == node && qseq[jj].1@.len() <= bound;
    assert(qseq.push(e)[jj] == qseq[jj]);
}

/// Discovery-path lengths are nondecreasing along the queue.
spec fn lens_sorted(qseq: Seq<(u32, Vec<u32>)>) -> bool {
    forall|j: int|
        0 <= j < qseq.len() - 1 ==> (#[trigger] qseq[j]).1@.len() <= (
        #[trigger] qseq[j + 1]).1@.len()
}

/// Sortedness gives the comparison for any two positions.
proof fn lemma_len_mono(qseq: Seq<(u32, Vec<u32>)>, a: int, b: int)
    requires
        lens_sorted(qseq),
        0 <= a <= b < qseq.len(),
    ensures
        qseq[a].1@.len() <= qseq[b].1@.len(),
    decreases b - a,
{
    if a < b {
        lemma_len_mono(qseq, a, b - 1);
        let jx = b - 1;
        assert(qseq[jx].1@.len() <= qseq[jx + 1].1@.len());
    }
}

/// In a queue whose entries hold the roots at one node and are closed
/// under successors with paths one longer — up to paths of `plen`
/// nodes — every walk of fewer than `plen` nodes has each of its
/// positions entered with a path no longer than its distance.
proof fn lemma_walk_entry<S: GraphSuccessors>(
    s: S,
    roots: Seq<u32>,
    qseq: Seq<(u32, Vec<u32>)>,
    plen: int,
    w: Seq<u32>,
    i: int,
)
    requires
        walk_ok(s, roots, w),
        w.len() < plen,
        0 <= i < w.len(),
        forall|r: u32| roots.contains(r) ==> entry_for(qseq, r, 1),
        forall|j: int, q: int|
            0 <= j < qseq.len() && qseq[j].1@.len() < plen && 0 <= q < s.succ_spec(
                qseq[j].0,
            ).len() ==> entry_for(qseq, #[trigger] s.succ_spec((#[trigger] qseq[j]).0)[q], qseq[j].1@.len() as int + 1),
    ensures
        entry_for(qseq, w[i], i + 1),
    decreases i,
{
    if i == 0 {
        assert(roots.contains(w[0]));
    } else {
        lemma_walk_entry(s, roots, qseq, plen, w, i - 1);
        let j = choose|jj: int|
            0 <= jj < qseq.len() && (#[trigger] qseq[jj]).0 == w[i - 1] && qseq[jj].1@.len() <= i;
        assert(s.succ_spec(w[i - 1]).contains(w[i]));
        let q = choose|q: int|
            0 <= q < s.succ_spec(w[i - 1]).len() && (#[trigger] s.succ_spec(w[i - 1])[q]) == w[i];
        assert(qseq[j].1@.len() <= i < plen);
        assert(entry_for(qseq, s.succ_spec(qseq[j].0)[q], qseq[j].1@.len() as int + 1));
        let jj = choose|jj: int|
            0 <= jj < qseq.len() && (#[trigger] qseq[jj]).0 == w[i] && qseq[jj].1@.len() <= qseq[j].1@.len() as int + 1;
        assert(qseq[jj].1@.len() <= i + 1);
    }
}


/// At the moment the search pops an entry, every strictly shorter walk
/// from the roots ends at a node the target already rejected.
proof fn lemma_minimality<S: GraphSuccessors, F: Fn(u32) -> bool>(
    s: S,
    roots: Seq<u32>,
    target: F,
    qseq: Seq<(u32, Vec<u32>)>,
    head: int,
)
    requires
        0 <= head < qseq.len(),
        forall|j: int| 0 <= j < roots.len() ==> entry_for(qseq, #[trigger] roots[j], 1),
        lens_sorted(qseq),
        forall|j: int, q: int|
            0 <= j < head && 0 <= q < s.succ_spec(qseq[j].0).len() ==> entry_for(
                qseq,
                #[trigger] s.succ_spec((#[trigger] qseq[j]).0)[q],
                qseq[j].1@.len() as int + 1,
            ),
        forall|j: int| 0 <= j < head ==> call_ensures(target, ((#[trigger] qseq[j]).0,), false),
    ensures
        forall|w: Seq<u32>|
            walk_ok(s, roots, w) && w.len() < qseq[head].1@.len() ==> call_ensures(
                target,
                (w[w.len() - 1],),
                false,
            ),
{
    let plen = qseq[head].1@.len() as int;
    assert forall|w: Seq<u32>|
        walk_ok(s, roots, w) && w.len() < plen implies call_ensures(
        target,
        (w[w.len() - 1],),
        false,
    ) by {
        assert forall|r: u32| roots.contains(r) implies entry_for(qseq, r, 1) by {
            let rr = choose|rr: int| 0 <= rr < roots.len() && roots[rr] == r;
            assert(entry_for(qseq, roots[rr], 1));
        }
        assert forall|j: int, q: int|
            0 <= j < qseq.len() && qseq[j].1@.len() < plen && 0 <= q < s.succ_spec(
                qseq[j].0,
            ).len() implies entry_for(
            qseq,
            #[trigger] s.succ_spec((#[trigger] qseq[j]).0)[q],
            qseq[j].1@.len() as int + 1,
        ) by {
            if j >= head {
                lemma_len_mono(qseq, head, j);
                assert(false);
            }
        }
        lemma_walk_entry(s, roots, qseq, plen, w, w.len() - 1);
        let jj = choose|jj: int|
            0 <= jj < qseq.len() && (#[trigger] qseq[jj]).0 == w[w.len() - 1] && qseq[jj].1@.len()
                <= w.len();
        if jj >= head {
            lemma_len_mono(qseq, head, jj);
            assert(false);
        }
        assert(call_ensures(target, (qseq[jj].0,), false));
    }
}

/// After one node is processed: the processed-successor bound extends
/// to it, and the length cap moves to the next entry.
proof fn lemma_after_expand<S: GraphSuccessors>(
    s: S,
    qseq: Seq<(u32, Vec<u32>)>,
    head: int,
    node: u32,
    succs: Seq<u32>,
)
    requires
        0 <= head < qseq.len(),
        qseq[head].0 == node,
        succs == s.succ_spec(node),
        lens_sorted(qseq),
        forall|j: int| 0 <= j < qseq.len() ==> (#[trigger] qseq[j]).1@.len() <= qseq[head].1@.len() + 1,
        forall|q: int|
            0 <= q < succs.len() ==> entry_for(qseq, #[trigger] succs[q], qseq[head].1@.len() as int + 1),
        forall|j: int, q: int|
            0 <= j < head && 0 <= q < s.succ_spec(qseq[j].0).len() ==> entry_for(
                qseq,
                #[trigger] s.succ_spec((#[trigger] qseq[j]).0)[q],
                qseq[j].1@.len() as int + 1,
            ),
    ensures
        forall|j: int, q: int|
            0 <= j < head + 1 && 0 <= q < s.succ_spec(qseq[j].0).len() ==> entry_for(
                qseq,
                #[trigger] s.succ_spec((#[trigger] qseq[j]).0)[q],
                qseq[j].1@.len() as int + 1,
            ),
        head + 1 < qseq.len() ==> forall|j: int|
            0 <= j < qseq.len() ==> (#[trigger] qseq[j]).1@.len() <= qseq[head + 1].1@.len() + 1,
{
    assert forall|j: int, q: int|
        0 <= j < head + 1 && 0 <= q < s.succ_spec(qseq[j].0).len() implies entry_for(
        qseq,
        #[trigger] s.succ_spec((#[trigger] qseq[j]).0)[q],
        qseq[j].1@.len() as int + 1,
    ) by {
        if j == head {
            assert(qseq[j].0 == node);
            assert(entry_for(qseq, succs[q], qseq[j].1@.len() as int + 1));
        }
    }
    if head + 1 < qseq.len() {
        assert forall|j: int|
            0 <= j < qseq.len() implies (#[trigger] qseq[j]).1@.len() <= qseq[head + 1].1@.len()
            + 1 by {
            assert(qseq[j].1@.len() <= qseq[head].1@.len() + 1);
            assert(qseq[head].1@.len() <= qseq[head + 1].1@.len());
        }
    }
}

/// Pushing a freshly discovered successor keeps the ordering, the
/// length cap, and every queue-entry fact.
proof fn lemma_push_invariants<S: GraphSuccessors>(
    s: S,
    roots: Seq<u32>,
    qprev: Seq<(u32, Vec<u32>)>,
    e: (u32, Vec<u32>),
    head: int,
    succs: Seq<u32>,
    si: int,
)
    requires
        0 <= head < qprev.len(),
        succs == s.succ_spec(qprev[head].0),
        0 <= si < succs.len(),
        e.0 == succs[si],
        e.1@.len() == qprev[head].1@.len() + 1,
        lens_sorted(qprev),
        forall|j: int|
            0 <= j < qprev.len() ==> (#[trigger] qprev[j]).1@.len() <= qprev[head].1@.len() + 1,
        forall|j: int| 0 <= j < roots.len() ==> entry_for(qprev, #[trigger] roots[j], 1),
        forall|q: int|
            0 <= q < si ==> entry_for(qprev, #[trigger] succs[q], qprev[head].1@.len() as int + 1),
        forall|j: int, q: int|
            0 <= j < head && 0 <= q < s.succ_spec(qprev[j].0).len() ==> entry_for(
                qprev,
                #[trigger] s.succ_spec((#[trigger] qprev[j]).0)[q],
                qprev[j].1@.len() as int + 1,
            ),
    ensures
        ({
            let qn = qprev.push(e);
            &&& lens_sorted(qn)
            &&& forall|j: int|
                0 <= j < qn.len() ==> (#[trigger] qn[j]).1@.len() <= qn[head].1@.len() + 1
            &&& forall|j: int| 0 <= j < roots.len() ==> entry_for(qn, #[trigger] roots[j], 1)
            &&& forall|q: int|
                0 <= q < si + 1 ==> entry_for(qn, #[trigger] succs[q], qn[head].1@.len() as int + 1)
            &&& forall|j: int, q: int|
                0 <= j < head && 0 <= q < s.succ_spec(qn[j].0).len() ==> entry_for(
                    qn,
                    #[trigger] s.succ_spec((#[trigger] qn[j]).0)[q],
                    qn[j].1@.len() as int + 1,
                )
        }),
{
    let qn = qprev.push(e);
    let last = qprev.len() as int;
    assert(qn[last] == e);
    assert(qn[head] == qprev[head]);
    assert forall|j: int|
        0 <= j < qn.len() - 1 implies (#[trigger] qn[j]).1@.len() <= (
        #[trigger] qn[j + 1]).1@.len() by {
        if j + 1 == last {
            assert(qn[j] == qprev[j]);
            assert(qprev[j].1@.len() <= qprev[head].1@.len() + 1);
        } else {
            assert(qn[j] == qprev[j] && qn[j + 1] == qprev[j + 1]);
            let jx = j;
            assert(qprev[jx].1@.len() <= qprev[jx + 1].1@.len());
        }
    }
    assert forall|j: int| 0 <= j < qn.len() implies (#[trigger] qn[j]).1@.len() <= qn[head].1@.len()
        + 1 by {
        if j < last {
            assert(qn[j] == qprev[j]);
        }
    }
    assert forall|j: int| 0 <= j < roots.len() implies entry_for(qn, #[trigger] roots[j], 1) by {
        lemma_entry_push(qprev, e, roots[j], 1);
    }
    assert forall|q: int| 0 <= q < si + 1 implies entry_for(
        qn,
        #[trigger] succs[q],
        qn[head].1@.len() as int + 1,
    ) by {
        if q < si {
            lemma_entry_push(qprev, e, succs[q], qprev[head].1@.len() as int + 1);
        } else {
            assert((#[trigger] qn[last]).0 == succs[si]);
        }
    }
    assert forall|j: int, q: int|
        0 <= j < head && 0 <= q < s.succ_spec(qn[j].0).len() implies entry_for(
        qn,
        #[trigger] s.succ_spec((#[trigger] qn[j]).0)[q],
        qn[j].1@.len() as int + 1,
    ) by {
        assert(qn[j] == qprev[j]);
        lemma_entry_push(qprev, e, s.succ_spec(qprev[j].0)[q], qprev[j].1@.len() as int + 1);
    }
}

/// Whether `v` holds `k`.
fn vec32_has(v: &Vec<u32>, k: u32) -> (b: bool)
    ensures
        b == v@.contains(k),
{
    let mut i: usize = 0;
    while i < v.len()
        invariant
            i <= v.len(),
            forall|j: int| 0 <= j < i ==> v@[j] != k,
        decreases v.len() - i,
    {
        if v[i] == k {
            return true;
        }
        i = i + 1;
    }
    false
}

/// A copy of a node list.
fn copy_u32s(v: &Vec<u32>) -> (r: Vec<u32>)
    ensures
        r@ == v@,
{
    let mut out: Vec<u32> = Vec::new();
    let mut i: usize = 0;
    while i < v.len()
        invariant
            i <= v.len(),
            out@ == v@.subrange(0, i as int),
        decreases v.len() - i,
    {
        out.push(v[i]);
        i = i + 1;
    }
    proof {
        assert(out@ =~= v@);
    }
    out
}

/// A sequence of distinct `u32` values cannot outgrow the type.
proof fn lemma_distinct_u32_bound(s: Seq<u32>)
    requires
        s.no_duplicates(),
    ensures
        s.len() <= 0x1_0000_0000,
{
    let f = |x: u32| x as int;
    assert(vstd::relations::injective(f));
    s.lemma_no_duplicates_injective(f);
    let t = s.map_values(f);
    t.unique_seq_to_set();
    vstd::seq_lib::seq_to_set_is_finite(t);
    let full = vstd::set_lib::set_int_range(0, 0x1_0000_0000);
    assert forall|e: int| t.to_set().contains(e) implies full.contains(e) by {
        assert(t.contains(e));
        let i = choose|i: int| 0 <= i < t.len() && t[i] == e;
        assert(t[i] == s[i] as int);
    }
    vstd::set_lib::lemma_int_range(0, 0x1_0000_0000);
    vstd::set_lib::lemma_len_subset(t.to_set(), full);
}

/// Process one popped node: push each not-yet-visited successor with
/// its discovery path, keeping every search invariant and extending
/// the processed region by one.
#[verifier::rlimit(100)]
#[verifier::spinoff_prover]
fn expand_node<S: GraphSuccessors, F: Fn(u32) -> bool>(
    successors: &S,
    target: &F,
    roots: &Vec<u32>,
    queue: &mut Vec<(u32, Vec<u32>)>,
    visited: &mut Vec<u32>,
    head: usize,
)
    requires
        head < old(queue)@.len(),
        old(visited)@.no_duplicates(),
        old(queue)@.len() == old(visited)@.len(),
        call_ensures(*target, (old(queue)@[head as int].0,), false),
        forall|j: int|
            0 <= j < old(queue)@.len() ==> (#[trigger] old(queue)@[j]).0 == old(visited)@[j],
        forall|j: int| 0 <= j < roots@.len() ==> entry_for(old(queue)@, #[trigger] roots@[j], 1),
        lens_sorted(old(queue)@),
        forall|j: int|
            0 <= j < old(queue)@.len() ==> (#[trigger] old(queue)@[j]).1@.len() <= old(
                queue,
            )@[head as int].1@.len() + 1,
        forall|j: int, q: int|
            0 <= j < head && 0 <= q < successors.succ_spec(old(queue)@[j].0).len() ==> entry_for(
                old(queue)@,
                #[trigger] successors.succ_spec((#[trigger] old(queue)@[j]).0)[q],
                old(queue)@[j].1@.len() as int + 1,
            ),
        forall|j: int|
            0 <= j < head ==> call_ensures(*target, ((#[trigger] old(queue)@[j]).0,), false),
        forall|j: int|
            0 <= j < old(queue)@.len() ==> {
                let p = (#[trigger] old(queue)@[j]).1@;
                &&& walk_ok(*successors, roots@, p)
                &&& p[p.len() - 1] == old(queue)@[j].0
                &&& forall|q: int| 0 <= q < p.len() - 1 ==> call_ensures(*target, (p[q],), false)
            },
    ensures
        final(visited)@.no_duplicates(),
        final(queue)@.len() == final(visited)@.len(),
        final(queue)@.len() >= old(queue)@.len(),
        final(queue)@.len() - old(queue)@.len() == final(visited)@.len() - old(visited)@.len(),
        forall|j: int|
            0 <= j < final(queue)@.len() ==> (#[trigger] final(queue)@[j]).0 == final(visited)@[j],
        forall|j: int| 0 <= j < roots@.len() ==> entry_for(final(queue)@, #[trigger] roots@[j], 1),
        lens_sorted(final(queue)@),
        head + 1 < final(queue)@.len() ==> forall|j: int|
            0 <= j < final(queue)@.len() ==> (#[trigger] final(queue)@[j]).1@.len()
                <= final(queue)@[head as int + 1].1@.len() + 1,
        forall|j: int, q: int|
            0 <= j < head + 1 && 0 <= q < successors.succ_spec(final(queue)@[j].0).len()
                ==> entry_for(
                final(queue)@,
                #[trigger] successors.succ_spec((#[trigger] final(queue)@[j]).0)[q],
                final(queue)@[j].1@.len() as int + 1,
            ),
        forall|j: int|
            0 <= j < head + 1 ==> call_ensures(*target, ((#[trigger] final(queue)@[j]).0,), false),
        forall|j: int|
            0 <= j < final(queue)@.len() ==> {
                let p = (#[trigger] final(queue)@[j]).1@;
                &&& walk_ok(*successors, roots@, p)
                &&& p[p.len() - 1] == final(queue)@[j].0
                &&& forall|q: int| 0 <= q < p.len() - 1 ==> call_ensures(*target, (p[q],), false)
            },
{
    let node: u32 = queue[head].0;
    let succs = successors.successors(node);
    let ghost entered = visited@.len();
    let mut si: usize = 0;
    while si < succs.len()
        invariant
            si <= succs.len(),
            head < queue@.len(),
            visited@.no_duplicates(),
            queue@.len() == visited@.len(),
            visited@.len() >= entered,
            visited@.len() <= entered + si,
            succs@ == successors.succ_spec(node),
            queue@[head as int].0 == node,
            call_ensures(*target, (node,), false),
            forall|j: int| 0 <= j < queue@.len() ==> (#[trigger] queue@[j]).0 == visited@[j],
            forall|j: int| 0 <= j < roots@.len() ==> entry_for(queue@, #[trigger] roots@[j], 1),
            lens_sorted(queue@),
            forall|j: int|
                0 <= j < queue@.len() ==> (#[trigger] queue@[j]).1@.len()
                    <= queue@[head as int].1@.len() as int + 1,
            forall|q: int|
                0 <= q < si ==> entry_for(
                    queue@,
                    #[trigger] succs@[q],
                    queue@[head as int].1@.len() as int + 1,
                ),
            forall|j: int, q: int|
                0 <= j < head && 0 <= q < successors.succ_spec(queue@[j].0).len() ==> entry_for(
                    queue@,
                    #[trigger] successors.succ_spec((#[trigger] queue@[j]).0)[q],
                    queue@[j].1@.len() as int + 1,
                ),
            forall|j: int|
                0 <= j < head ==> call_ensures(*target, ((#[trigger] queue@[j]).0,), false),
            forall|j: int|
                0 <= j < queue@.len() ==> {
                    let p = (#[trigger] queue@[j]).1@;
                    &&& walk_ok(*successors, roots@, p)
                    &&& p[p.len() - 1] == queue@[j].0
                    &&& forall|q: int|
                        0 <= q < p.len() - 1 ==> call_ensures(*target, (p[q],), false)
                },
        decreases succs.len() - si,
    {
        let sc: u32 = succs[si];
        let ghost seen = visited@;
        let ghost qprev = queue@;
        if !vec32_has(&visited, sc) {
            let mut p2 = copy_u32s(&queue[head].1);
            p2.push(sc);
            proof {
                let p = queue@[head as int].1@;
                assert(p2@ == p.push(sc));
                assert(p2@[p2@.len() - 1] == sc);
                assert(walk_ok(*successors, roots@, p2@)) by {
                    assert(p2@[0] == p[0]);
                    assert forall|q: int|
                        0 <= q < p2@.len() - 1 implies (#[trigger] successors.succ_spec(
                        p2@[q],
                    )).contains(p2@[q + 1]) by {
                        if q < p.len() - 1 {
                            assert(p2@[q] == p[q] && p2@[q + 1] == p[q + 1]);
                        } else {
                            assert(p2@[q] == node);
                            assert(succs@[si as int] == sc);
                            assert(successors.succ_spec(node).contains(sc));
                        }
                    }
                }
            }
            proof {
                lemma_push_invariants(
                    *successors,
                    roots@,
                    queue@,
                    (sc, p2),
                    head as int,
                    succs@,
                    si as int,
                );
            }
            queue.push((sc, p2));
            visited.push(sc);
            proof {
                assert(visited@.no_duplicates()) by {
                    assert(forall|j: int|
                        0 <= j < visited@.len() - 1 ==> visited@[j] != sc);
                }
            }
        } else {
            proof {
                let w = choose|w: int| 0 <= w < seen.len() && seen[w] == sc;
                assert forall|q: int| 0 <= q < si + 1 implies entry_for(
                    queue@,
                    #[trigger] succs@[q],
                    queue@[head as int].1@.len() as int + 1,
                ) by {
                    if q == si as int {
                        assert((#[trigger] queue@[w]).0 == sc);
                    }
                }
            }
        }
        si = si + 1;
    }
    proof {
        lemma_after_expand(*successors, queue@, head as int, node, succs@);
    }
}

/// Find a shortest path from one of the roots to a node the target
/// predicate accepts, searching breadth first.
///
/// A returned path starts at a root, follows successor edges, ends at
/// an accepted node, visits no accepted node before its end, and no
/// strictly shorter walk from the roots ends at an accepted node: the
/// target rejected the end of every shorter walk. When nothing is
/// returned, the search exhausted every node reachable from the roots
/// and the target rejected each of them.
#[verifier::rlimit(100)]
#[verifier::spinoff_prover]
pub fn bfs_find_path<S: GraphSuccessors, F: Fn(u32) -> bool>(
    roots: &Vec<u32>,
    successors: &S,
    target: F,
) -> (r: Option<Vec<u32>>)
    requires
        forall|n: u32| #[trigger] call_requires(target, (n,)),
    ensures
        match r {
            Option::Some(path) => {
                &&& walk_ok(*successors, roots@, path@)
                &&& call_ensures(target, (path@[path@.len() - 1],), true)
                &&& forall|q: int|
                    0 <= q < path@.len() - 1 ==> call_ensures(target, (path@[q],), false)
                &&& forall|w: Seq<u32>|
                    walk_ok(*successors, roots@, w) && w.len() < path@.len() ==> call_ensures(
                        target,
                        (w[w.len() - 1],),
                        false,
                    )
            },
            Option::None => forall|n: u32|
                #[trigger] reaches(*successors, roots@, n) ==> call_ensures(target, (n,), false),
        },
{
    let mut queue: Vec<(u32, Vec<u32>)> = Vec::new();
    let mut visited: Vec<u32> = Vec::new();

    let mut i: usize = 0;
    while i < roots.len()
        invariant
            i <= roots.len(),
            visited@.no_duplicates(),
            queue@.len() == visited@.len(),
            forall|j: int| 0 <= j < queue@.len() ==> (#[trigger] queue@[j]).0 == visited@[j],
            forall|j: int| 0 <= j < i ==> entry_for(queue@, #[trigger] roots@[j], 1),
            forall|j: int| 0 <= j < queue@.len() ==> (#[trigger] queue@[j]).1@.len() == 1,
            forall|j: int|
                0 <= j < queue@.len() ==> {
                    let p = (#[trigger] queue@[j]).1@;
                    &&& walk_ok(*successors, roots@, p)
                    &&& p[p.len() - 1] == queue@[j].0
                    &&& forall|q: int| 0 <= q < p.len() - 1 ==> call_ensures(target, (p[q],), false)
                },
        decreases roots.len() - i,
    {
        let root = roots[i];
        let ghost seen = visited@;
        let ghost qprev = queue@;
        if !vec32_has(&visited, root) {
            let mut p: Vec<u32> = Vec::new();
            p.push(root);
            queue.push((root, p));
            visited.push(root);
            proof {
                assert(queue@[qprev.len() as int].0 == root);
                assert forall|j: int| 0 <= j < i + 1 implies entry_for(
                    queue@,
                    #[trigger] roots@[j],
                    1,
                ) by {
                    if j < i {
                        lemma_entry_push(qprev, queue@[qprev.len() as int], roots@[j], 1);
                    } else {
                        assert((#[trigger] queue@[qprev.len() as int]).0 == root);
                    }
                }
            }
        } else {
            proof {
                let w = choose|w: int| 0 <= w < seen.len() && seen[w] == root;
                assert((#[trigger] queue@[w]).0 == root);
            }
        }
        i = i + 1;
    }

    proof {
        lemma_distinct_u32_bound(visited@);
    }
    let mut head: usize = 0;
    while head < queue.len()
        invariant
            forall|n: u32| #[trigger] call_requires(target, (n,)),
            head <= queue@.len(),
            visited@.no_duplicates(),
            visited@.len() <= 0x1_0000_0000,
            queue@.len() == visited@.len(),
            forall|j: int| 0 <= j < queue@.len() ==> (#[trigger] queue@[j]).0 == visited@[j],
            forall|j: int| 0 <= j < roots@.len() ==> entry_for(queue@, #[trigger] roots@[j], 1),
            lens_sorted(queue@),
            head < queue@.len() ==> forall|j: int|
                0 <= j < queue@.len() ==> (#[trigger] queue@[j]).1@.len() <= queue@[head as int].1@.len()
                    + 1,
            forall|j: int, q: int|
                0 <= j < head && 0 <= q < successors.succ_spec(queue@[j].0).len() ==> entry_for(
                    queue@,
                    #[trigger] successors.succ_spec((#[trigger] queue@[j]).0)[q],
                    queue@[j].1@.len() as int + 1,
                ),
            forall|j: int| 0 <= j < head ==> call_ensures(target, ((#[trigger] queue@[j]).0,), false),
            forall|j: int|
                0 <= j < queue@.len() ==> {
                    let p = (#[trigger] queue@[j]).1@;
                    &&& walk_ok(*successors, roots@, p)
                    &&& p[p.len() - 1] == queue@[j].0
                    &&& forall|q: int| 0 <= q < p.len() - 1 ==> call_ensures(target, (p[q],), false)
                },
        decreases 2 * (0x1_0000_0000 - visited@.len()) + queue@.len() - head,
    {
        let node: u32 = queue[head].0;
        let hit = target(node);
        if hit {
            let path = copy_u32s(&queue[head].1);
            proof {
                lemma_minimality(*successors, roots@, target, queue@, head as int);
            }
            return Option::Some(path);
        }
        expand_node(successors, &target, roots, &mut queue, &mut visited, head);
        head = head + 1;
        proof {
            lemma_distinct_u32_bound(visited@);
        }
    }
    proof {
        assert forall|n: u32| #[trigger] reaches(*successors, roots@, n) implies call_ensures(
            target,
            (n,),
            false,
        ) by {
            assert forall|m: u32, q: int|
                visited@.contains(m) && 0 <= q < successors.succ_spec(m).len()
                    implies visited@.contains(#[trigger] successors.succ_spec(m)[q]) by {
                let w = choose|w: int| 0 <= w < visited@.len() && visited@[w] == m;
                assert(queue@[w].0 == m);
                assert(w < head);
                assert(entry_for(queue@, successors.succ_spec(queue@[w].0)[q], queue@[w].1@.len() as int + 1));
                let jj = choose|jj: int|
                    0 <= jj < queue@.len() && (#[trigger] queue@[jj]).0 == successors.succ_spec(
                        queue@[w].0,
                    )[q] && queue@[jj].1@.len() <= queue@[w].1@.len() as int + 1;
                assert(visited@[jj] == successors.succ_spec(m)[q]);
            }
            assert forall|r: u32| roots@.contains(r) implies visited@.contains(r) by {
                let rr = choose|rr: int| 0 <= rr < roots@.len() && roots@[rr] == r;
                assert(entry_for(queue@, roots@[rr], 1));
                let jj = choose|jj: int|
                    0 <= jj < queue@.len() && (#[trigger] queue@[jj]).0 == roots@[rr]
                        && queue@[jj].1@.len() <= 1;
                assert(visited@[jj] == r);
            }
            let p = choose|p: Seq<u32>| walk_ok(*successors, roots@, p) && p[p.len() - 1] == n;
            lemma_walk_stays(*successors, roots@, visited@, p, p.len() - 1);
            let w = choose|w: int| 0 <= w < visited@.len() && visited@[w] == n;
            assert(queue@[w].0 == n);
            assert(w < head);
        }
    }
    Option::None
}

/// Every node on a walk stays inside a set of nodes that holds the
/// roots and is closed under successors.
proof fn lemma_walk_stays<S: GraphSuccessors>(
    s: S,
    roots: Seq<u32>,
    visited: Seq<u32>,
    p: Seq<u32>,
    i: int,
)
    requires
        walk_ok(s, roots, p),
        0 <= i < p.len(),
        forall|r: u32| roots.contains(r) ==> visited.contains(r),
        forall|n: u32, q: int|
            visited.contains(n) && 0 <= q < s.succ_spec(n).len() ==> visited.contains(
                #[trigger] s.succ_spec(n)[q],
            ),
    ensures
        visited.contains(p[i]),
    decreases i,
{
    if i == 0 {
    } else {
        lemma_walk_stays(s, roots, visited, p, i - 1);
        assert(s.succ_spec(p[i - 1]).contains(p[i]));
        let q = choose|q: int|
            0 <= q < s.succ_spec(p[i - 1]).len() && (#[trigger] s.succ_spec(p[i - 1])[q]) == p[i];
        assert(visited.contains(s.succ_spec(p[i - 1])[q]));
    }
}

} // verus!
