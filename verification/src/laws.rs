//! The laws the engine obeys, proved over the transition model.
//! `Engine::read` and `Engine::commit` are pinned to `read_m` and
//! `commit_m`, so each statement here carries over to the executable
//! engine verbatim.

use vstd::prelude::*;

use crate::base::ErrSt;
use crate::base::Logic;
use crate::base::StepSt;
use crate::engine::lemma_idx_is;
use crate::engine::lemma_set_node_ok;
use crate::model::EngineSt;
use crate::model::NodeSt;
use crate::model::Outcome;
use crate::model::UpdSt;
use crate::model::apply_entry;
use crate::model::apply_existing;
use crate::model::apply_sets;
use crate::model::commit_m;
use crate::model::dep_hits;
use crate::model::dirty_m;
use crate::model::eval_m;
use crate::model::grow_k;
use crate::model::grow_pass;
use crate::model::has_leaf;
use crate::model::has_node;
use crate::model::idx_of;
use crate::model::keys_into;
use crate::model::leaf_at;
use crate::model::lemma_apply_sets;
use crate::model::lemma_commit_stable_leaves;
use crate::model::marks_into;
use crate::model::node_of;
use crate::model::push_new;
use crate::model::read_m;
use crate::model::recheck_m;
use crate::model::roots_m;
use crate::model::run_m;
use crate::model::sat_inc;
use crate::model::set_node;
use crate::model::sets_has;
use crate::model::sets_val;
use crate::model::state_ok;
use crate::model::upd_ok;
use crate::model::valid_at;

verus! {

/// Evaluation leaves the state well formed and never changes the
/// version, the cycle flag, the budget, the leaf histories, or drops a
/// record.
pub proof fn lemma_eval_wf<L: Logic>(
    l: L,
    st: EngineSt,
    key: u64,
    v: u64,
    chain: Seq<u64>,
    fuel: nat,
)
    requires
        state_ok(st),
    ensures
        ({
            let (st2, out) = eval_m(l, st, key, v, chain, fuel);
            &&& state_ok(st2)
            &&& st2.version == st.version
            &&& st2.cycle == st.cycle
            &&& st2.budget == st.budget
            &&& st2.leaves == st.leaves
            &&& forall|k: u64| has_node(st.nodes, k) ==> #[trigger] has_node(st2.nodes, k)
        }),
    decreases fuel, 1nat, 0nat,
{
    if fuel == 0 {
    } else if st.cycle && chain.contains(key) {
    } else if l.injected_spec(key) {
    } else if has_node(st.nodes, key) && valid_at(node_of(st.nodes, key), v) {
    } else {
        let chain2 = chain.push(key);
        if v == st.version && has_node(st.nodes, key) && !node_of(st.nodes, key).force {
            let deps = node_of(st.nodes, key).deps;
            lemma_recheck_wf(l, st, deps, 0, v, chain2, fuel);
            let (st1, unchanged) = recheck_m(l, st, deps, 0, v, chain2, fuel);
            if unchanged && has_node(st1.nodes, key) {
                let n1 = node_of(st1.nodes, key);
                let n2 = NodeSt { since: v, until: Option::None, ..n1 };
                lemma_set_node_ok(st1, key, n2);
            } else {
                lemma_run_wf(l, st1, key, Seq::empty(), v, chain2, fuel, fuel);
            }
        } else {
            lemma_run_wf(l, st, key, Seq::empty(), v, chain2, fuel, fuel);
        }
    }
}

/// The dependency re-check preserves what `lemma_eval_wf` preserves.
pub proof fn lemma_recheck_wf<L: Logic>(
    l: L,
    st: EngineSt,
    deps: Seq<(u64, Seq<u8>)>,
    i: int,
    v: u64,
    chain: Seq<u64>,
    fuel: nat,
)
    requires
        state_ok(st),
    ensures
        ({
            let (st1, unchanged) = recheck_m(l, st, deps, i, v, chain, fuel);
            &&& state_ok(st1)
            &&& st1.version == st.version
            &&& st1.cycle == st.cycle
            &&& st1.budget == st.budget
            &&& st1.leaves == st.leaves
            &&& forall|k: u64| has_node(st.nodes, k) ==> #[trigger] has_node(st1.nodes, k)
        }),
    decreases fuel, 0nat, deps.len() - i,
{
    if fuel == 0 {
    } else if i < 0 || i >= deps.len() {
    } else {
        lemma_eval_wf(l, st, deps[i].0, v, chain, (fuel - 1) as nat);
        let (stx, out) = eval_m(l, st, deps[i].0, v, chain, (fuel - 1) as nat);
        match out {
            Outcome::Val(fv) => {
                if l.eq_spec(deps[i].0, fv, deps[i].1) {
                    lemma_recheck_wf(l, stx, deps, i + 1, v, chain, fuel);
                }
            },
            Outcome::Fail(_) => {},
        }
    }
}

/// A compute run preserves what `lemma_eval_wf` preserves.
pub proof fn lemma_run_wf<L: Logic>(
    l: L,
    st: EngineSt,
    key: u64,
    reads: Seq<(u64, Seq<u8>)>,
    v: u64,
    chain: Seq<u64>,
    steps: nat,
    fuel: nat,
)
    requires
        state_ok(st),
    ensures
        ({
            let (st2, out) = run_m(l, st, key, reads, v, chain, steps, fuel);
            &&& state_ok(st2)
            &&& st2.version == st.version
            &&& st2.cycle == st.cycle
            &&& st2.budget == st.budget
            &&& st2.leaves == st.leaves
            &&& forall|k: u64| has_node(st.nodes, k) ==> #[trigger] has_node(st2.nodes, k)
        }),
    decreases fuel, 0nat, steps,
{
    if steps == 0 || fuel == 0 {
    } else {
        match l.step_spec(key, reads) {
            StepSt::Done(val) => {
                if v == st.version {
                    let prev = if has_node(st.nodes, key) {
                        node_of(st.nodes, key).computes
                    } else {
                        0
                    };
                    let n = NodeSt {
                        value: val,
                        since: v,
                        until: Option::None,
                        deps: reads,
                        force: false,
                        computes: sat_inc(prev),
                    };
                    lemma_set_node_ok(st, key, n);
                }
            },
            StepSt::Fail => {},
            StepSt::Need(k) => {
                lemma_eval_wf(l, st, k, v, chain, (fuel - 1) as nat);
                let (stx, out) = eval_m(l, st, k, v, chain, (fuel - 1) as nat);
                match out {
                    Outcome::Val(val) => {
                        lemma_run_wf(
                            l,
                            stx,
                            key,
                            reads.push((k, val)),
                            v,
                            chain,
                            (steps - 1) as nat,
                            fuel,
                        );
                    },
                    Outcome::Fail(_) => {},
                }
            },
        }
    }
}

/// An evaluation at a version other than the current one changes the
/// engine's state in no way at all: it computes from the histories and
/// caches nothing.
pub proof fn lemma_eval_old_pure<L: Logic>(
    l: L,
    st: EngineSt,
    key: u64,
    v: u64,
    chain: Seq<u64>,
    fuel: nat,
)
    requires
        v != st.version,
    ensures
        eval_m(l, st, key, v, chain, fuel).0 == st,
    decreases fuel, 1nat, 0nat,
{
    if fuel == 0 {
    } else if st.cycle && chain.contains(key) {
    } else if l.injected_spec(key) {
    } else if has_node(st.nodes, key) && valid_at(node_of(st.nodes, key), v) {
    } else {
        lemma_run_old_pure(l, st, key, Seq::empty(), v, chain.push(key), fuel, fuel);
    }
}

/// A compute run at a version other than the current one stores
/// nothing.
pub proof fn lemma_run_old_pure<L: Logic>(
    l: L,
    st: EngineSt,
    key: u64,
    reads: Seq<(u64, Seq<u8>)>,
    v: u64,
    chain: Seq<u64>,
    steps: nat,
    fuel: nat,
)
    requires
        v != st.version,
    ensures
        run_m(l, st, key, reads, v, chain, steps, fuel).0 == st,
    decreases fuel, 0nat, steps,
{
    if steps == 0 || fuel == 0 {
    } else {
        match l.step_spec(key, reads) {
            StepSt::Done(_) => {},
            StepSt::Fail => {},
            StepSt::Need(k) => {
                lemma_eval_old_pure(l, st, k, v, chain, (fuel - 1) as nat);
                let (stx, out) = eval_m(l, st, k, v, chain, (fuel - 1) as nat);
                match out {
                    Outcome::Val(val) => {
                        lemma_run_old_pure(
                            l,
                            stx,
                            key,
                            reads.push((k, val)),
                            v,
                            chain,
                            (steps - 1) as nat,
                            fuel,
                        );
                    },
                    Outcome::Fail(_) => {},
                }
            },
        }
    }
}

/// Reading an injected key at any version returns exactly what its
/// history gives at that version — the latest assignment at or before
/// it, or the unset-leaf error — and changes nothing.
pub proof fn law_stable_leaf_read<L: Logic>(l: L, st: EngineSt, key: u64, v: u64)
    requires
        l.injected_spec(key),
        st.budget >= 1,
    ensures
        read_m(l, st, key, v) == (
            st,
            match leaf_at(st.leaves, key, v) {
                Option::Some(val) => Outcome::Val(val),
                Option::None => Outcome::Fail(ErrSt::Unset(key)),
            },
        ),
{
    assert(!Seq::<u64>::empty().contains(key));
}

/// A commit never disturbs a read pinned to an already-published
/// version: the same injected key read at the same version gives the
/// identical outcome before and after, whatever the transaction
/// staged. This is the stable-read guarantee for leaves.
pub proof fn law_pinned_leaf_read_stable<L: Logic>(
    l: L,
    st: EngineSt,
    upd: UpdSt,
    key: u64,
    v: u64,
)
    requires
        state_ok(st),
        upd_ok(upd),
        st.version < u64::MAX,
        v <= st.version,
        l.injected_spec(key),
        st.budget >= 1,
    ensures
        read_m(l, commit_m(st, upd), key, v).1 == read_m(l, st, key, v).1,
        read_m(l, commit_m(st, upd), key, v).0 == commit_m(st, upd),
{
    lemma_commit_stable_leaves(st, upd, key, v);
    law_stable_leaf_read(l, st, key, v);
    law_stable_leaf_read(l, commit_m(st, upd), key, v);
}

/// Reading an injected key that no transaction has ever set fails with
/// the unset-leaf error and changes nothing.
pub proof fn law_unset_leaf_read<L: Logic>(l: L, st: EngineSt, key: u64, v: u64)
    requires
        l.injected_spec(key),
        !has_leaf(st.leaves, key),
        st.budget >= 1,
    ensures
        read_m(l, st, key, v) == (st, Outcome::Fail(ErrSt::Unset(key))),
{
    assert(!Seq::<u64>::empty().contains(key));
}

/// After `set(key, v)` is staged and committed, reading `key` at the
/// new version returns `v` exactly and changes nothing.
pub proof fn law_set_commit_read<L: Logic>(l: L, st: EngineSt, upd: UpdSt, key: u64)
    requires
        state_ok(st),
        upd_ok(upd),
        st.version < u64::MAX,
        sets_has(upd.sets, key),
        l.injected_spec(key),
        st.budget >= 1,
    ensures
        ({
            let st2 = commit_m(st, upd);
            read_m(l, st2, key, st2.version) == (st2, Outcome::Val(sets_val(upd.sets, key)))
        }),
{
    let nv = (st.version + 1) as u64;
    let st2 = commit_m(st, upd);
    lemma_apply_sets(st.leaves, upd.sets, 0, nv);
    let j = choose|j: int| 0 <= j < upd.sets.len() && upd.sets[j].0 == key;
    assert(leaf_at(st2.leaves, upd.sets[j].0, nv) == Option::Some(upd.sets[j].1));
    assert(sets_val(upd.sets, key) == upd.sets[j].1);
    law_stable_leaf_read(l, st2, key, nv);
}

/// Staging the same dirty-mark a second time changes nothing about
/// what the commit publishes.
pub proof fn law_mark_twice(st: EngineSt, upd: UpdSt, key: u64)
    ensures
        commit_m(st, UpdSt { marks: upd.marks.push(key).push(key), ..upd }) == commit_m(
            st,
            UpdSt { marks: upd.marks.push(key), ..upd },
        ),
{
    let u1 = UpdSt { marks: upd.marks.push(key), ..upd };
    let u2 = UpdSt { marks: upd.marks.push(key).push(key), ..upd };
    let acc0 = keys_into(Seq::empty(), upd.sets, 0);
    lemma_marks_push(acc0, upd.marks.push(key), key, 0);
    let m1 = marks_into(acc0, upd.marks.push(key), 0);
    assert(marks_into(acc0, upd.marks.push(key).push(key), 0) == push_new(m1, key));
    assert(upd.marks.push(key)[upd.marks.len() as int] == key);
    assert(upd.marks.push(key).contains(key));
    lemma_marks_contains(acc0, upd.marks.push(key), 0, key);
    assert(push_new(m1, key) == m1);
    assert(roots_m(u2) == roots_m(u1));
    let nv = (st.version + 1) as u64;
    let dirty = dirty_m(st.nodes, roots_m(u1));
    assert forall|k: u64| #[trigger]
        u2.marks.contains(k) == u1.marks.contains(k) by {
        lemma_push_contains(upd.marks.push(key), key, k);
    }
    assert(apply_existing(st.nodes, u2, dirty, nv) =~= apply_existing(st.nodes, u1, dirty, nv))
        by {
        assert forall|j: int|
            0 <= j < st.nodes.len() implies apply_entry(st.nodes[j].0, st.nodes[j].1, u2, dirty, nv)
            == apply_entry(st.nodes[j].0, st.nodes[j].1, u1, dirty, nv) by {
            lemma_push_contains(upd.marks.push(key), key, st.nodes[j].0);
        }
    }
    assert(commit_m(st, u2) =~~= commit_m(st, u1));
}

/// A commit is lazy: it recomputes nothing. Every record keeps its
/// value, recorded reads, run counter and starting version — at most
/// its validity is closed and its recompute flag raised.
pub proof fn law_commit_lazy(st: EngineSt, upd: UpdSt, i: int)
    requires
        0 <= i < st.nodes.len(),
    ensures
        ({
            let st2 = commit_m(st, upd);
            let k = st.nodes[i].0;
            let n = st.nodes[i].1;
            &&& st2.nodes.len() == st.nodes.len()
            &&& st2.nodes[i].0 == k
            &&& st2.nodes[i].1.value == n.value
            &&& st2.nodes[i].1.deps == n.deps
            &&& st2.nodes[i].1.computes == n.computes
            &&& st2.nodes[i].1.since == n.since
        }),
{
    let nv = (st.version + 1) as u64;
    let dirty = dirty_m(st.nodes, roots_m(upd));
    let st2 = commit_m(st, upd);
    assert(st2.nodes[i] == (
        st.nodes[i].0,
        apply_entry(st.nodes[i].0, st.nodes[i].1, upd, dirty, nv),
    ));
}

/// Two tables with the same keys and recorded reads, record for record.
spec fn same_shape(a: Seq<(u64, NodeSt)>, b: Seq<(u64, NodeSt)>) -> bool {
    &&& a.len() == b.len()
    &&& forall|i: int|
        0 <= i < a.len() ==> (#[trigger] a[i]).0 == b[i].0 && a[i].1.deps == b[i].1.deps
}

/// Reverse-edge propagation only looks at keys and recorded reads.
proof fn lemma_grow_pass_shape(
    a: Seq<(u64, NodeSt)>,
    b: Seq<(u64, NodeSt)>,
    cur: Seq<u64>,
    acc: Seq<u64>,
    i: int,
)
    requires
        same_shape(a, b),
    ensures
        grow_pass(a, cur, acc, i) == grow_pass(b, cur, acc, i),
    decreases a.len() - i,
{
    if i < 0 || i >= a.len() {
    } else {
        let acc2 = if dep_hits(a[i].1.deps, cur) {
            push_new(acc, a[i].0)
        } else {
            acc
        };
        lemma_grow_pass_shape(a, b, cur, acc2, i + 1);
    }
}

/// So does its iteration.
proof fn lemma_grow_k_shape(
    a: Seq<(u64, NodeSt)>,
    b: Seq<(u64, NodeSt)>,
    cur: Seq<u64>,
    rounds: nat,
)
    requires
        same_shape(a, b),
    ensures
        grow_k(a, cur, rounds) == grow_k(b, cur, rounds),
    decreases rounds,
{
    if rounds == 0 {
    } else {
        lemma_grow_pass_shape(a, b, cur, cur, 0);
        lemma_grow_k_shape(a, b, grow_pass(a, cur, cur, 0), (rounds - 1) as nat);
    }
}

/// Committing the same dirty-marks a second time, before any read,
/// publishes the identical table and histories again: dirtying is
/// idempotent. Only the version moves on.
pub proof fn law_mark_commit_twice(st: EngineSt, upd: UpdSt)
    requires
        upd.sets == Seq::<(u64, Seq<u8>)>::empty(),
    ensures
        commit_m(commit_m(st, upd), upd).nodes == commit_m(st, upd).nodes,
        commit_m(commit_m(st, upd), upd).leaves == commit_m(st, upd).leaves,
{
    let st1 = commit_m(st, upd);
    let st2 = commit_m(st1, upd);
    let roots = roots_m(upd);
    assert(keys_into(Seq::empty(), upd.sets, 0) == Seq::<u64>::empty());
    let nv1 = (st.version + 1) as u64;
    let nv2 = (st1.version + 1) as u64;
    let dirty1 = dirty_m(st.nodes, roots);
    assert(apply_sets(st.leaves, upd.sets, 0, nv1) == st.leaves);
    assert(apply_sets(st1.leaves, upd.sets, 0, nv2) == st1.leaves);
    let left1 = apply_existing(st.nodes, upd, dirty1, nv1);
    assert(st1.nodes == left1);
    assert(same_shape(st1.nodes, st.nodes));
    lemma_grow_k_shape(st1.nodes, st.nodes, roots, st.nodes.len());
    assert(st1.nodes.len() == st.nodes.len());
    let dirty2 = dirty_m(st1.nodes, roots);
    assert(dirty2 == dirty1);
    let left2 = apply_existing(st1.nodes, upd, dirty2, nv2);
    assert(st2.nodes == left2);
    assert forall|i: int| 0 <= i < st.nodes.len() implies left2[i] == st1.nodes[i] by {
        let k = st.nodes[i].0;
        let n = st.nodes[i].1;
        let n1 = apply_entry(k, n, upd, dirty1, nv1);
        assert(st1.nodes[i] == (k, n1));
        assert(left2[i] == (k, apply_entry(k, n1, upd, dirty2, nv2)));
        if dirty1.contains(k) {
            assert(n1.until is Some);
        }
        assert(apply_entry(k, n1, upd, dirty2, nv2) == n1);
    }
    assert(st2.nodes =~= st1.nodes);
}

/// Membership in a pushed sequence.
proof fn lemma_push_contains(s: Seq<u64>, v: u64, x: u64)
    ensures
        s.push(v).contains(x) <==> (s.contains(x) || x == v),
{
    if s.contains(x) {
        let i = choose|i: int| 0 <= i < s.len() && s[i] == x;
        assert(s.push(v)[i] == x);
    }
    if x == v {
        assert(s.push(v)[s.len() as int] == x);
    }
    if s.push(v).contains(x) && x != v {
        let i = choose|i: int| 0 <= i < s.push(v).len() && s.push(v)[i] == x;
        assert(s[i] == x);
    }
}

/// Folding a pushed mark list equals folding, then pushing the mark.
proof fn lemma_marks_push(acc: Seq<u64>, m: Seq<u64>, x: u64, i: int)
    requires
        0 <= i <= m.len(),
    ensures
        marks_into(acc, m.push(x), i) == push_new(marks_into(acc, m, i), x),
    decreases m.len() - i,
{
    if i == m.len() {
        assert(m.push(x)[i] == x);
        assert(marks_into(push_new(acc, x), m.push(x), i + 1) == push_new(acc, x));
        assert(marks_into(acc, m, i) == acc);
    } else {
        assert(m.push(x)[i] == m[i]);
        lemma_marks_push(push_new(acc, m[i]), m, x, i + 1);
    }
}

/// Folding marks only ever adds the marks themselves.
proof fn lemma_marks_contains(acc: Seq<u64>, m: Seq<u64>, i: int, x: u64)
    requires
        0 <= i <= m.len(),
        acc.contains(x) || exists|j: int| i <= j < m.len() && m[j] == x,
    ensures
        marks_into(acc, m, i).contains(x),
    decreases m.len() - i,
{
    if i == m.len() {
    } else {
        let acc2 = push_new(acc, m[i]);
        lemma_push_contains(acc, m[i], x);
        if acc.contains(x) || m[i] == x {
            assert(acc2.contains(x));
            lemma_marks_contains(acc2, m, i + 1, x);
        } else {
            let j = choose|j: int| i <= j < m.len() && m[j] == x;
            assert(i + 1 <= j < m.len() && m[j] == x);
            lemma_marks_contains(acc2, m, i + 1, x);
        }
    }
}

/// With cycle detection enabled, requesting a key that already stands
/// on the active evaluation chain fails at once with the full chain,
/// and nothing is cached.
pub proof fn law_cycle_guard<L: Logic>(
    l: L,
    st: EngineSt,
    key: u64,
    v: u64,
    chain: Seq<u64>,
    fuel: nat,
)
    requires
        st.cycle,
        chain.contains(key),
        fuel > 0,
    ensures
        eval_m(l, st, key, v, chain, fuel) == (st, Outcome::Fail(ErrSt::Cycle(chain.push(key)))),
{
}

/// After replacing or appending a record, looking the key up gives
/// exactly that record.
proof fn lemma_set_node_get(st: EngineSt, key: u64, n: NodeSt)
    requires
        state_ok(st),
        n.since <= st.version,
    ensures
        ({
            let nodes2 = set_node(st.nodes, key, n);
            has_node(nodes2, key) && node_of(nodes2, key) == n
        }),
{
    lemma_set_node_ok(st, key, n);
    let nodes2 = set_node(st.nodes, key, n);
    if has_node(st.nodes, key) {
        let i = idx_of(st.nodes, key);
        assert(nodes2[i] == (key, n));
        lemma_idx_is(nodes2, key, i);
    } else {
        assert(nodes2[st.nodes.len() as int] == (key, n));
        lemma_idx_is(nodes2, key, st.nodes.len() as int);
    }
}

/// A successful evaluation at the current version either read a leaf
/// history — changing nothing — or leaves the derived key's record
/// holding the value it returned, valid at that version.
pub proof fn lemma_eval_caches<L: Logic>(
    l: L,
    st: EngineSt,
    key: u64,
    v: u64,
    chain: Seq<u64>,
    fuel: nat,
)
    requires
        state_ok(st),
        v == st.version,
    ensures
        ({
            let (st2, out) = eval_m(l, st, key, v, chain, fuel);
            match out {
                Outcome::Val(val) => if l.injected_spec(key) {
                    st2 == st
                } else {
                    has_node(st2.nodes, key) && node_of(st2.nodes, key).value == val && valid_at(
                        node_of(st2.nodes, key),
                        v,
                    )
                },
                Outcome::Fail(_) => true,
            }
        }),
    decreases fuel, 1nat, 0nat,
{
    if fuel == 0 {
    } else if st.cycle && chain.contains(key) {
    } else if l.injected_spec(key) {
    } else if has_node(st.nodes, key) && valid_at(node_of(st.nodes, key), v) {
    } else {
        let chain2 = chain.push(key);
        if v == st.version && has_node(st.nodes, key) && !node_of(st.nodes, key).force {
            let deps = node_of(st.nodes, key).deps;
            lemma_recheck_wf(l, st, deps, 0, v, chain2, fuel);
            let (st1, unchanged) = recheck_m(l, st, deps, 0, v, chain2, fuel);
            if unchanged && has_node(st1.nodes, key) {
                let n1 = node_of(st1.nodes, key);
                let n2 = NodeSt { since: v, until: Option::None, ..n1 };
                lemma_set_node_get(st1, key, n2);
            } else {
                lemma_run_caches(l, st1, key, Seq::empty(), v, chain2, fuel, fuel);
            }
        } else {
            lemma_run_caches(l, st, key, Seq::empty(), v, chain2, fuel, fuel);
        }
    }
}

/// A successful compute run at the current version leaves the key's
/// record holding the value it returned, valid at that version.
pub proof fn lemma_run_caches<L: Logic>(
    l: L,
    st: EngineSt,
    key: u64,
    reads: Seq<(u64, Seq<u8>)>,
    v: u64,
    chain: Seq<u64>,
    steps: nat,
    fuel: nat,
)
    requires
        state_ok(st),
        v == st.version,
    ensures
        ({
            let (st2, out) = run_m(l, st, key, reads, v, chain, steps, fuel);
            match out {
                Outcome::Val(val) => has_node(st2.nodes, key) && node_of(st2.nodes, key).value
                    == val && valid_at(node_of(st2.nodes, key), v),
                Outcome::Fail(_) => true,
            }
        }),
    decreases fuel, 0nat, steps,
{
    if steps == 0 || fuel == 0 {
    } else {
        match l.step_spec(key, reads) {
            StepSt::Done(val) => {
                let prev = if has_node(st.nodes, key) {
                    node_of(st.nodes, key).computes
                } else {
                    0
                };
                let n = NodeSt {
                    value: val,
                    since: v,
                    until: Option::None,
                    deps: reads,
                    force: false,
                    computes: sat_inc(prev),
                };
                lemma_set_node_get(st, key, n);
            },
            StepSt::Fail => {},
            StepSt::Need(k) => {
                lemma_eval_wf(l, st, k, v, chain, (fuel - 1) as nat);
                let (stx, out) = eval_m(l, st, k, v, chain, (fuel - 1) as nat);
                match out {
                    Outcome::Val(val) => {
                        lemma_run_caches(
                            l,
                            stx,
                            key,
                            reads.push((k, val)),
                            v,
                            chain,
                            (steps - 1) as nat,
                            fuel,
                        );
                    },
                    Outcome::Fail(_) => {},
                }
            },
        }
    }
}

/// A repeated read of a key at the same version is pure: it returns
/// the identical value and changes nothing — in particular, it runs no
/// compute function. This is the sequential face of in-flight
/// deduplication: one resolution per (key, version) serves every later
/// request.
pub proof fn law_read_memoized<L: Logic>(l: L, st: EngineSt, key: u64, v: u64)
    requires
        state_ok(st),
        v <= st.version,
    ensures
        ({
            let (st2, out) = read_m(l, st, key, v);
            match out {
                Outcome::Val(val) => read_m(l, st2, key, v) == (st2, Outcome::Val(val)),
                Outcome::Fail(_) => true,
            }
        }),
{
    if v == st.version {
        lemma_eval_caches(l, st, key, v, Seq::empty(), st.budget as nat);
        lemma_eval_wf(l, st, key, v, Seq::empty(), st.budget as nat);
        let (st2, out) = read_m(l, st, key, v);
        match out {
            Outcome::Val(val) => {
                assert(!Seq::<u64>::empty().contains(key));
                if !l.injected_spec(key) {
                    assert(valid_at(node_of(st2.nodes, key), v));
                }
            },
            Outcome::Fail(_) => {},
        }
    } else {
        lemma_eval_old_pure(l, st, key, v, Seq::empty(), st.budget as nat);
    }
}

/// Early cutoff, in general: when the dependency re-check of a dirtied
/// derived key finds every recorded read unchanged, the read returns
/// the cached value and runs no compute function; the record keeps its
/// value, reads and run counter, and its validity is re-opened from
/// the current version on — versions the re-check never covered are
/// not claimed.
pub proof fn law_early_cutoff<L: Logic>(l: L, st: EngineSt, key: u64)
    requires
        state_ok(st),
        !l.injected_spec(key),
        has_node(st.nodes, key),
        !valid_at(node_of(st.nodes, key), st.version),
        !node_of(st.nodes, key).force,
        st.budget >= 1,
        ({
            let (st1, unchanged) = recheck_m(
                l,
                st,
                node_of(st.nodes, key).deps,
                0,
                st.version,
                Seq::<u64>::empty().push(key),
                st.budget as nat,
            );
            unchanged
        }),
    ensures
        ({
            let (st1, unchanged) = recheck_m(
                l,
                st,
                node_of(st.nodes, key).deps,
                0,
                st.version,
                Seq::<u64>::empty().push(key),
                st.budget as nat,
            );
            let n1 = node_of(st1.nodes, key);
            let n2 = NodeSt { since: st.version, until: Option::None, ..n1 };
            &&& read_m(l, st, key, st.version) == (
                EngineSt { nodes: set_node(st1.nodes, key, n2), ..st1 },
                Outcome::Val(n1.value),
            )
            &&& node_of(set_node(st1.nodes, key, n2), key) == n2
            &&& n2.computes == n1.computes
            &&& valid_at(n2, st.version)
        }),
{
    assert(!Seq::<u64>::empty().contains(key));
    let chain2 = Seq::<u64>::empty().push(key);
    let deps = node_of(st.nodes, key).deps;
    lemma_recheck_wf(l, st, deps, 0, st.version, chain2, st.budget as nat);
    let (st1, unchanged) = recheck_m(l, st, deps, 0, st.version, chain2, st.budget as nat);
    let n1 = node_of(st1.nodes, key);
    lemma_set_node_get(st1, key, NodeSt { since: st.version, until: Option::None, ..n1 });
}

/// Early cutoff for a derived key whose one recorded read is an
/// injected leaf: when the leaf's value at the current version is
/// unchanged per its equality, the read returns the cached value and
/// keeps the run counter — no compute function runs — and the record
/// is valid again from the current version on.
pub proof fn law_early_cutoff_leaf<L: Logic>(
    l: L,
    st: EngineSt,
    key: u64,
    lk: u64,
    lv: Seq<u8>,
    lv2: Seq<u8>,
)
    requires
        state_ok(st),
        !l.injected_spec(key),
        has_node(st.nodes, key),
        !valid_at(node_of(st.nodes, key), st.version),
        !node_of(st.nodes, key).force,
        node_of(st.nodes, key).deps == Seq::<(u64, Seq<u8>)>::empty().push((lk, lv)),
        l.injected_spec(lk),
        leaf_at(st.leaves, lk, st.version) == Option::Some(lv2),
        l.eq_spec(lk, lv2, lv),
        st.budget >= 2,
    ensures
        ({
            let n = node_of(st.nodes, key);
            let n2 = NodeSt { since: st.version, until: Option::None, ..n };
            &&& read_m(l, st, key, st.version) == (
                EngineSt { nodes: set_node(st.nodes, key, n2), ..st },
                Outcome::Val(n.value),
            )
            &&& node_of(set_node(st.nodes, key, n2), key) == n2
            &&& n2.computes == n.computes
            &&& valid_at(n2, st.version)
        }),
{
    assert(!Seq::<u64>::empty().contains(key));
    let chain2 = Seq::<u64>::empty().push(key);
    assert(lk != key);
    if chain2.contains(lk) {
        let i = choose|i: int| 0 <= i < chain2.len() && chain2[i] == lk;
        assert(chain2[i] == key);
        assert(false);
    }
    let f = st.budget as nat;
    let n = node_of(st.nodes, key);
    let deps = n.deps;
    assert(eval_m(l, st, lk, st.version, chain2, (f - 1) as nat) == (st, Outcome::Val(lv2)));
    assert(deps[0] == (lk, lv));
    assert(recheck_m(l, st, deps, 1, st.version, chain2, f) == (st, true));
    assert(recheck_m(l, st, deps, 0, st.version, chain2, f) == (st, true));
    lemma_set_node_get(st, key, NodeSt { since: st.version, until: Option::None, ..n });
}

/// Propagation for the same shape: when the leaf's value at the
/// current version *is* changed per its equality, the next read runs
/// the compute function exactly once — the run counter rises by one —
/// and the new result reflects the leaf's current value.
pub proof fn law_propagation_leaf<L: Logic>(
    l: L,
    st: EngineSt,
    key: u64,
    lk: u64,
    lv: Seq<u8>,
    lv2: Seq<u8>,
    nv2: Seq<u8>,
)
    requires
        state_ok(st),
        !l.injected_spec(key),
        has_node(st.nodes, key),
        !valid_at(node_of(st.nodes, key), st.version),
        !node_of(st.nodes, key).force,
        node_of(st.nodes, key).deps == Seq::<(u64, Seq<u8>)>::empty().push((lk, lv)),
        l.injected_spec(lk),
        leaf_at(st.leaves, lk, st.version) == Option::Some(lv2),
        !l.eq_spec(lk, lv2, lv),
        l.step_spec(key, Seq::empty()) == StepSt::Need(lk),
        l.step_spec(key, Seq::<(u64, Seq<u8>)>::empty().push((lk, lv2))) == StepSt::Done(nv2),
        st.budget >= 3,
    ensures
        ({
            let n = node_of(st.nodes, key);
            let n2 = NodeSt {
                value: nv2,
                since: st.version,
                until: Option::None,
                deps: Seq::<(u64, Seq<u8>)>::empty().push((lk, lv2)),
                force: false,
                computes: sat_inc(n.computes),
            };
            &&& read_m(l, st, key, st.version) == (
                EngineSt { nodes: set_node(st.nodes, key, n2), ..st },
                Outcome::Val(nv2),
            )
            &&& node_of(set_node(st.nodes, key, n2), key) == n2
            &&& valid_at(n2, st.version)
        }),
{
    assert(!Seq::<u64>::empty().contains(key));
    let chain2 = Seq::<u64>::empty().push(key);
    assert(lk != key);
    if chain2.contains(lk) {
        let i = choose|i: int| 0 <= i < chain2.len() && chain2[i] == lk;
        assert(chain2[i] == key);
        assert(false);
    }
    let n = node_of(st.nodes, key);
    let deps = n.deps;
    let f = st.budget as nat;
    assert(eval_m(l, st, lk, st.version, chain2, (f - 1) as nat) == (st, Outcome::Val(lv2)));
    assert(deps[0] == (lk, lv));
    assert(recheck_m(l, st, deps, 0, st.version, chain2, f) == (st, false));
    let reads1 = Seq::<(u64, Seq<u8>)>::empty().push((lk, lv2));
    assert(run_m(l, st, key, reads1, st.version, chain2, (f - 1) as nat, f) == (
        EngineSt {
            nodes: set_node(
                st.nodes,
                key,
                NodeSt {
                    value: nv2,
                    since: st.version,
                    until: Option::None,
                    deps: reads1,
                    force: false,
                    computes: sat_inc(n.computes),
                },
            ),
            ..st
        },
        Outcome::Val(nv2),
    ));
    assert(run_m(l, st, key, Seq::empty(), st.version, chain2, f, f) == run_m(
        l,
        st,
        key,
        reads1,
        st.version,
        chain2,
        (f - 1) as nat,
        f,
    ));
    let j = idx_of(st.nodes, key);
    assert(st.nodes[j].1.since <= st.version);
    lemma_set_node_get(
        st,
        key,
        NodeSt {
            value: nv2,
            since: st.version,
            until: Option::None,
            deps: reads1,
            force: false,
            computes: sat_inc(n.computes),
        },
    );
}

/// With cycle detection enabled, two derived keys whose compute
/// functions read each other fail with the cycle error carrying the
/// full chain, and no value is cached for either.
pub proof fn law_cycle_pair<L: Logic>(l: L, st: EngineSt, a: u64, b: u64, v: u64)
    requires
        st.cycle,
        a != b,
        !has_node(st.nodes, a),
        !has_node(st.nodes, b),
        !l.injected_spec(a),
        !l.injected_spec(b),
        l.step_spec(a, Seq::empty()) == StepSt::Need(b),
        l.step_spec(b, Seq::empty()) == StepSt::Need(a),
        st.budget >= 3,
    ensures
        read_m(l, st, a, v) == (
            st,
            Outcome::Fail(ErrSt::Cycle(Seq::<u64>::empty().push(a).push(b).push(a))),
        ),
{
    let f = st.budget as nat;
    let chain0 = Seq::<u64>::empty();
    let chain1 = chain0.push(a);
    let chain2 = chain1.push(b);
    assert(!chain0.contains(a));
    if chain1.contains(b) {
        let i = choose|i: int| 0 <= i < chain1.len() && chain1[i] == b;
        assert(chain1[i] == a);
        assert(false);
    }
    assert(chain2[0] == a);
    assert(chain2.contains(a));
    let e = Outcome::Fail(ErrSt::Cycle(chain2.push(a)));
    assert(eval_m(l, st, a, v, chain2, (f - 2) as nat) == (st, e));
    assert(run_m(l, st, b, Seq::empty(), v, chain2, (f - 1) as nat, (f - 1) as nat) == (st, e));
    assert(eval_m(l, st, b, v, chain1, (f - 1) as nat) == (st, e));
    assert(run_m(l, st, a, Seq::empty(), v, chain1, f, f) == (st, e));
    assert(eval_m(l, st, a, v, chain0, f) == (st, e));
}

} // verus!
