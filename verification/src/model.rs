//! The mathematical model of the engine: node records, the versioned
//! node table, and the transition functions that define what a read and
//! a commit do. Every executable operation of `engine` is proved equal
//! to the corresponding function here.

use vstd::prelude::*;

use crate::base::ErrSt;
use crate::base::Logic;
use crate::base::StepSt;

verus! {

/// The evaluation budget an engine is built with unless the caller
/// picks another: the bound both on the depth of the dependency chain
/// and on the number of steps of one compute run.
pub const DEFAULT_BUDGET: u64 = 4096;

/// The engine's record for one key: the last stored value, the validity
/// range `[since, until)` of versions over which it is known correct
/// (`until` of `None` meaning "as far as currently known"), the reads
/// recorded by the last compute run (dependency key and the value it
/// returned), whether the key was explicitly marked changed and must
/// recompute rather than re-check, and how many compute runs have
/// completed for it.
#[verifier::ext_equal]
pub struct NodeSt {
    pub value: Seq<u8>,
    pub since: u64,
    pub until: Option<u64>,
    pub deps: Seq<(u64, Seq<u8>)>,
    pub force: bool,
    pub computes: u64,
}

/// The engine's state: the current version, whether cycle detection is
/// enabled, the evaluation budget, the per-leaf value history, and the
/// node table for derived keys.
///
/// An injected key keeps every value it was ever assigned, each tagged
/// with the version that published it, so a read pinned to an earlier
/// version still observes that version's value after later commits.
#[verifier::ext_equal]
pub struct EngineSt {
    pub version: u64,
    pub cycle: bool,
    pub budget: u64,
    pub leaves: Seq<(u64, Seq<(u64, Seq<u8>)>)>,
    pub nodes: Seq<(u64, NodeSt)>,
}

/// A staged transaction: leaf assignments and explicit dirty-marks.
#[verifier::ext_equal]
pub struct UpdSt {
    pub sets: Seq<(u64, Seq<u8>)>,
    pub marks: Seq<u64>,
}

/// What one evaluation returns.
pub enum Outcome {
    Val(Seq<u8>),
    Fail(ErrSt),
}

// ---------------------------------------------------------------------
// The node table.

/// Whether the table holds a record for `key`.
pub open spec fn has_node(nodes: Seq<(u64, NodeSt)>, key: u64) -> bool {
    exists|i: int| 0 <= i < nodes.len() && nodes[i].0 == key
}

/// The index of `key`'s record; meaningful under `unique_keys` when
/// `has_node` holds.
pub open spec fn idx_of(nodes: Seq<(u64, NodeSt)>, key: u64) -> int {
    choose|i: int| 0 <= i < nodes.len() && nodes[i].0 == key
}

/// `key`'s record; meaningful under `unique_keys` when `has_node` holds.
pub open spec fn node_of(nodes: Seq<(u64, NodeSt)>, key: u64) -> NodeSt {
    nodes[idx_of(nodes, key)].1
}

/// No key owns two records.
pub open spec fn unique_keys(nodes: Seq<(u64, NodeSt)>) -> bool {
    forall|i: int, j: int| 0 <= i < j < nodes.len() ==> nodes[i].0 != nodes[j].0
}

/// The table with `key`'s record replaced, or appended if absent.
pub open spec fn set_node(nodes: Seq<(u64, NodeSt)>, key: u64, n: NodeSt) -> Seq<(u64, NodeSt)> {
    if has_node(nodes, key) {
        nodes.update(idx_of(nodes, key), (key, n))
    } else {
        nodes.push((key, n))
    }
}

/// Whether a record's value is known correct at version `v`.
pub open spec fn valid_at(n: NodeSt, v: u64) -> bool {
    n.since <= v && match n.until {
        Option::None => true,
        Option::Some(u) => v < u,
    }
}

// ---------------------------------------------------------------------
// The leaf store: one value history per injected key.

/// Whether the store holds a history for `key`.
pub open spec fn has_leaf(leaves: Seq<(u64, Seq<(u64, Seq<u8>)>)>, key: u64) -> bool {
    exists|i: int| 0 <= i < leaves.len() && leaves[i].0 == key
}

/// The index of `key`'s history; meaningful under `leaf_keys_unique`
/// when `has_leaf` holds.
pub open spec fn leaf_idx(leaves: Seq<(u64, Seq<(u64, Seq<u8>)>)>, key: u64) -> int {
    choose|i: int| 0 <= i < leaves.len() && leaves[i].0 == key
}

/// No key owns two histories.
pub open spec fn leaf_keys_unique(leaves: Seq<(u64, Seq<(u64, Seq<u8>)>)>) -> bool {
    forall|i: int, j: int| 0 <= i < j < leaves.len() ==> leaves[i].0 != leaves[j].0
}

/// The value a history gives at version `v`: the latest assignment
/// published at or before `v`, if any.
pub open spec fn hist_at(h: Seq<(u64, Seq<u8>)>, v: u64) -> Option<Seq<u8>>
    decreases h.len(),
{
    if h.len() == 0 {
        Option::None
    } else if h.last().0 <= v {
        Option::Some(h.last().1)
    } else {
        hist_at(h.drop_last(), v)
    }
}

/// The value of injected `key` at version `v`, if it was ever set at
/// or before `v`.
pub open spec fn leaf_at(
    leaves: Seq<(u64, Seq<(u64, Seq<u8>)>)>,
    key: u64,
    v: u64,
) -> Option<Seq<u8>> {
    if has_leaf(leaves, key) {
        hist_at(leaves[leaf_idx(leaves, key)].1, v)
    } else {
        Option::None
    }
}

/// The store with an assignment of `val` to `key` appended at version
/// `nv`.
pub open spec fn set_leaf(
    leaves: Seq<(u64, Seq<(u64, Seq<u8>)>)>,
    key: u64,
    nv: u64,
    val: Seq<u8>,
) -> Seq<(u64, Seq<(u64, Seq<u8>)>)> {
    if has_leaf(leaves, key) {
        let i = leaf_idx(leaves, key);
        leaves.update(i, (key, leaves[i].1.push((nv, val))))
    } else {
        leaves.push((key, Seq::empty().push((nv, val))))
    }
}

/// The staged assignments from `i` on, applied to the leaf store at
/// version `nv`.
pub open spec fn apply_sets(
    leaves: Seq<(u64, Seq<(u64, Seq<u8>)>)>,
    sets: Seq<(u64, Seq<u8>)>,
    i: int,
    nv: u64,
) -> Seq<(u64, Seq<(u64, Seq<u8>)>)>
    decreases sets.len() - i,
{
    if i < 0 || i >= sets.len() {
        leaves
    } else {
        apply_sets(set_leaf(leaves, sets[i].0, nv, sets[i].1), sets, i + 1, nv)
    }
}

/// A well-formed engine state: node and leaf keys unique, and no
/// record from the future.
pub open spec fn state_ok(st: EngineSt) -> bool {
    &&& unique_keys(st.nodes)
    &&& leaf_keys_unique(st.leaves)
    &&& forall|i: int| 0 <= i < st.nodes.len() ==> (#[trigger] st.nodes[i]).1.since <= st.version
}

/// A compute-run counter that sticks at its ceiling rather than wrap.
pub open spec fn sat_inc(c: u64) -> u64 {
    if c == u64::MAX {
        c
    } else {
        (c + 1) as u64
    }
}

// ---------------------------------------------------------------------
// Evaluation: what a read does.
//
// `eval_m` resolves one key at version `v`, which may lie at or before
// the engine's current version. An injected key reads its history at
// `v` — pinned reads are inherently stable, later commits only append
// newer entries. A derived key whose record is valid at `v` is a hit.
// A miss at the current version runs the dependency re-check — the
// record is revalidated without recompute when every recorded read is
// unchanged per the client's equality (early cutoff), its validity
// re-opened from the re-checked version on (versions the re-check
// never covered are not claimed) — or the compute function runs, step
// by step (`run_m`), each requested key resolved recursively at `v`
// and recorded as a read; the result is stored. A
// miss at an earlier version recomputes from scratch at `v` over the
// leaf histories and stores nothing: the engine's state is unchanged.
// `chain` is the stack of keys being computed, for cycle detection;
// `fuel` bounds depth and steps.

pub open spec fn eval_m<L: Logic>(
    l: L,
    st: EngineSt,
    key: u64,
    v: u64,
    chain: Seq<u64>,
    fuel: nat,
) -> (EngineSt, Outcome)
    decreases fuel, 1nat, 0nat,
{
    if fuel == 0 {
        (st, Outcome::Fail(ErrSt::Fuel))
    } else if st.cycle && chain.contains(key) {
        (st, Outcome::Fail(ErrSt::Cycle(chain.push(key))))
    } else if l.injected_spec(key) {
        match leaf_at(st.leaves, key, v) {
            Option::Some(val) => (st, Outcome::Val(val)),
            Option::None => (st, Outcome::Fail(ErrSt::Unset(key))),
        }
    } else if has_node(st.nodes, key) && valid_at(node_of(st.nodes, key), v) {
        (st, Outcome::Val(node_of(st.nodes, key).value))
    } else {
        let chain2 = chain.push(key);
        if v == st.version && has_node(st.nodes, key) && !node_of(st.nodes, key).force {
            let deps = node_of(st.nodes, key).deps;
            let (st1, unchanged) = recheck_m(l, st, deps, 0, v, chain2, fuel);
            if unchanged && has_node(st1.nodes, key) {
                let n1 = node_of(st1.nodes, key);
                let n2 = NodeSt { since: v, until: Option::None, ..n1 };
                (EngineSt { nodes: set_node(st1.nodes, key, n2), ..st1 }, Outcome::Val(n1.value))
            } else {
                run_m(l, st1, key, Seq::empty(), v, chain2, fuel, fuel)
            }
        } else {
            run_m(l, st, key, Seq::empty(), v, chain2, fuel, fuel)
        }
    }
}

/// The dependency re-check: evaluate each recorded read from `i` on and
/// compare the fresh value with the recorded one per the client's
/// equality. Returns whether every one was unchanged; a failed or
/// out-of-fuel dependency counts as changed.
pub open spec fn recheck_m<L: Logic>(
    l: L,
    st: EngineSt,
    deps: Seq<(u64, Seq<u8>)>,
    i: int,
    v: u64,
    chain: Seq<u64>,
    fuel: nat,
) -> (EngineSt, bool)
    decreases fuel, 0nat, deps.len() - i,
{
    if fuel == 0 {
        (st, false)
    } else if i < 0 || i >= deps.len() {
        (st, true)
    } else {
        let (st1, out) = eval_m(l, st, deps[i].0, v, chain, (fuel - 1) as nat);
        match out {
            Outcome::Val(fv) => if l.eq_spec(deps[i].0, fv, deps[i].1) {
                recheck_m(l, st1, deps, i + 1, v, chain, fuel)
            } else {
                (st1, false)
            },
            Outcome::Fail(_) => (st1, false),
        }
    }
}

/// One compute run of `key` at version `v`, resumed with the reads
/// recorded so far. On `Done` at the current version the record is
/// stored with the run's reads as its dependency set, valid from `v`
/// on; a run at an earlier version stores nothing. On `Fail` nothing
/// is cached and the failure is reported; on `Need` the requested key
/// is resolved recursively at `v` and appended to the reads.
pub open spec fn run_m<L: Logic>(
    l: L,
    st: EngineSt,
    key: u64,
    reads: Seq<(u64, Seq<u8>)>,
    v: u64,
    chain: Seq<u64>,
    steps: nat,
    fuel: nat,
) -> (EngineSt, Outcome)
    decreases fuel, 0nat, steps,
{
    if steps == 0 || fuel == 0 {
        (st, Outcome::Fail(ErrSt::Fuel))
    } else {
        match l.step_spec(key, reads) {
            StepSt::Done(val) => {
                if v == st.version {
                    let prev = if has_node(st.nodes, key) {
                        node_of(st.nodes, key).computes
                    } else {
                        0
                    };
                    let n = NodeSt {
                        value: val,
                        since: v,
                        until: Option::None,
                        deps: reads,
                        force: false,
                        computes: sat_inc(prev),
                    };
                    (EngineSt { nodes: set_node(st.nodes, key, n), ..st }, Outcome::Val(val))
                } else {
                    (st, Outcome::Val(val))
                }
            },
            StepSt::Fail => (st, Outcome::Fail(ErrSt::Failed(key))),
            StepSt::Need(k) => {
                let (st1, out) = eval_m(l, st, k, v, chain, (fuel - 1) as nat);
                match out {
                    Outcome::Val(val) => run_m(
                        l,
                        st1,
                        key,
                        reads.push((k, val)),
                        v,
                        chain,
                        (steps - 1) as nat,
                        fuel,
                    ),
                    Outcome::Fail(e) => (st1, Outcome::Fail(e)),
                }
            },
        }
    }
}

/// What one top-level read of `key` at version `v` does: an evaluation
/// from an empty chain with the engine's budget.
pub open spec fn read_m<L: Logic>(l: L, st: EngineSt, key: u64, v: u64) -> (EngineSt, Outcome) {
    eval_m(l, st, key, v, Seq::empty(), st.budget as nat)
}

// ---------------------------------------------------------------------
// Commit: what publishing a transaction does.

/// `acc` with `k` appended unless already present.
pub open spec fn push_new(acc: Seq<u64>, k: u64) -> Seq<u64> {
    if acc.contains(k) {
        acc
    } else {
        acc.push(k)
    }
}

/// The keys of the staged assignments from `i` on, folded into `acc`.
pub open spec fn keys_into(acc: Seq<u64>, sets: Seq<(u64, Seq<u8>)>, i: int) -> Seq<u64>
    decreases sets.len() - i,
{
    if i < 0 || i >= sets.len() {
        acc
    } else {
        keys_into(push_new(acc, sets[i].0), sets, i + 1)
    }
}

/// The staged marks from `i` on, folded into `acc`.
pub open spec fn marks_into(acc: Seq<u64>, marks: Seq<u64>, i: int) -> Seq<u64>
    decreases marks.len() - i,
{
    if i < 0 || i >= marks.len() {
        acc
    } else {
        marks_into(push_new(acc, marks[i]), marks, i + 1)
    }
}

/// The dirty roots of a transaction: every re-set leaf and every
/// explicitly marked key, each once.
pub open spec fn roots_m(upd: UpdSt) -> Seq<u64> {
    marks_into(keys_into(Seq::empty(), upd.sets, 0), upd.marks, 0)
}

/// Whether any recorded read of `deps` names a key of `cur`.
pub open spec fn dep_hits(deps: Seq<(u64, Seq<u8>)>, cur: Seq<u64>) -> bool {
    exists|j: int| 0 <= j < deps.len() && cur.contains(deps[j].0)
}

/// One pass of reverse-edge propagation: every record from `i` on with
/// a read in `cur` joins `acc`.
pub open spec fn grow_pass(
    nodes: Seq<(u64, NodeSt)>,
    cur: Seq<u64>,
    acc: Seq<u64>,
    i: int,
) -> Seq<u64>
    decreases nodes.len() - i,
{
    if i < 0 || i >= nodes.len() {
        acc
    } else {
        let acc2 = if dep_hits(nodes[i].1.deps, cur) {
            push_new(acc, nodes[i].0)
        } else {
            acc
        };
        grow_pass(nodes, cur, acc2, i + 1)
    }
}

/// `rounds` passes of reverse-edge propagation.
pub open spec fn grow_k(nodes: Seq<(u64, NodeSt)>, cur: Seq<u64>, rounds: nat) -> Seq<u64>
    decreases rounds,
{
    if rounds == 0 {
        cur
    } else {
        grow_k(nodes, grow_pass(nodes, cur, cur, 0), (rounds - 1) as nat)
    }
}

/// The transitively dirty keys: the roots closed under reverse
/// dependency edges. One pass per record reaches the closure.
pub open spec fn dirty_m(nodes: Seq<(u64, NodeSt)>, roots: Seq<u64>) -> Seq<u64> {
    grow_k(nodes, roots, nodes.len())
}

/// Whether the staged assignments name `key`.
pub open spec fn sets_has(sets: Seq<(u64, Seq<u8>)>, key: u64) -> bool {
    exists|i: int| 0 <= i < sets.len() && sets[i].0 == key
}

/// The value staged for `key`; meaningful when the staged keys are
/// unique and `sets_has` holds.
pub open spec fn sets_val(sets: Seq<(u64, Seq<u8>)>, key: u64) -> Seq<u8> {
    sets[choose|i: int| 0 <= i < sets.len() && sets[i].0 == key].1
}

/// How a commit at new version `nv` rewrites one record: a dirty
/// record has its validity closed at `nv` unless already closed
/// earlier; an explicitly marked record must recompute on its next
/// read. Value, reads, run counter and starting version are kept —
/// a commit recomputes nothing.
pub open spec fn apply_entry(k: u64, n: NodeSt, upd: UpdSt, dirty: Seq<u64>, nv: u64) -> NodeSt {
    NodeSt {
        until: if dirty.contains(k) {
            match n.until {
                Option::None => Option::Some(nv),
                Option::Some(u) => Option::Some(u),
            }
        } else {
            n.until
        },
        force: n.force || upd.marks.contains(k),
        ..n
    }
}

/// Every existing record rewritten for the commit.
pub open spec fn apply_existing(
    nodes: Seq<(u64, NodeSt)>,
    upd: UpdSt,
    dirty: Seq<u64>,
    nv: u64,
) -> Seq<(u64, NodeSt)> {
    nodes.map_values(|p: (u64, NodeSt)| (p.0, apply_entry(p.0, p.1, upd, dirty, nv)))
}

/// What a commit does: allocate the next version, append the staged
/// leaf assignments to their histories as of that version, and close
/// the validity of every transitively dirty record — without
/// recomputing anything.
pub open spec fn commit_m(st: EngineSt, upd: UpdSt) -> EngineSt {
    let nv = (st.version + 1) as u64;
    let dirty = dirty_m(st.nodes, roots_m(upd));
    EngineSt {
        version: nv,
        leaves: apply_sets(st.leaves, upd.sets, 0, nv),
        nodes: apply_existing(st.nodes, upd, dirty, nv),
        ..st
    }
}

/// What staging an assignment does: replace the staged value for the
/// key, or append it.
pub open spec fn stage_set_m(sets: Seq<(u64, Seq<u8>)>, key: u64, v: Seq<u8>) -> Seq<
    (u64, Seq<u8>),
> {
    if sets_has(sets, key) {
        sets.update(choose|i: int| 0 <= i < sets.len() && sets[i].0 == key, (key, v))
    } else {
        sets.push((key, v))
    }
}

/// A staged transaction is well formed when no key is assigned twice.
pub open spec fn upd_ok(upd: UpdSt) -> bool {
    forall|i: int, j: int| 0 <= i < j < upd.sets.len() ==> upd.sets[i].0 != upd.sets[j].0
}

/// An appended assignment: the key now reads the new value at `nv` and
/// on, keeps its old readings strictly before `nv`, and no other key
/// or its history changes.
pub proof fn lemma_set_leaf(leaves: Seq<(u64, Seq<(u64, Seq<u8>)>)>, key: u64, nv: u64, val: Seq<u8>)
    requires
        leaf_keys_unique(leaves),
    ensures
        ({
            let out = set_leaf(leaves, key, nv, val);
            &&& leaf_keys_unique(out)
            &&& forall|w: u64| nv <= w ==> leaf_at(out, key, w) == Option::Some(val)
            &&& forall|w: u64| w < nv ==> leaf_at(out, key, w) == leaf_at(leaves, key, w)
            &&& forall|k: u64, w: u64|
                k != key ==> #[trigger] leaf_at(out, k, w) == leaf_at(leaves, k, w)
        }),
{
    let out = set_leaf(leaves, key, nv, val);
    if has_leaf(leaves, key) {
        let i = leaf_idx(leaves, key);
        assert(0 <= i < leaves.len() && leaves[i].0 == key);
        assert forall|a: int, b: int| 0 <= a < b < out.len() implies out[a].0 != out[b].0 by {
            assert(leaves[a].0 != leaves[b].0);
        }
        assert(out[i].0 == key);
        assert(has_leaf(out, key));
        let c = leaf_idx(out, key);
        if c != i {
            if c < i {
                assert(out[c].0 != out[i].0);
            } else {
                assert(out[i].0 != out[c].0);
            }
            assert(false);
        }
        let h2 = leaves[i].1.push((nv, val));
        assert(h2.last() == (nv, val));
        assert(h2.drop_last() =~= leaves[i].1);
        assert forall|w: u64| nv <= w implies leaf_at(out, key, w) == Option::Some(val) by {
            assert(out[i] == (key, h2));
            assert(hist_at(h2, w) == Option::Some(val));
        }
        assert forall|w: u64| w < nv implies leaf_at(out, key, w) == leaf_at(leaves, key, w) by {
            assert(out[i] == (key, h2));
            assert(hist_at(h2, w) == hist_at(leaves[i].1, w));
        }
        assert forall|k: u64, w: u64|
            k != key implies #[trigger] leaf_at(out, k, w) == leaf_at(leaves, k, w) by {
            if has_leaf(leaves, k) {
                let j = leaf_idx(leaves, k);
                assert(out[j].0 == k);
                assert(has_leaf(out, k));
                let c2 = leaf_idx(out, k);
                assert(out[c2].0 == k);
                if c2 != j {
                    if c2 < j {
                        assert(out[c2].0 != out[j].0);
                    } else {
                        assert(out[j].0 != out[c2].0);
                    }
                    assert(false);
                }
                assert(out[j].1 == leaves[j].1);
            } else {
                if has_leaf(out, k) {
                    let c2 = leaf_idx(out, k);
                    assert(leaves[c2].0 == k);
                }
            }
        }
    } else {
        assert forall|a: int, b: int| 0 <= a < b < out.len() implies out[a].0 != out[b].0 by {
            if b < leaves.len() as int {
                assert(leaves[a].0 != leaves[b].0);
            } else {
                if leaves[a].0 == key {
                    assert(has_leaf(leaves, key));
                }
            }
        }
        let n = leaves.len() as int;
        assert(out[n].0 == key);
        assert(has_leaf(out, key));
        let c = leaf_idx(out, key);
        if c != n {
            assert(leaves[c].0 == key);
            assert(false);
        }
        let h2 = Seq::<(u64, Seq<u8>)>::empty().push((nv, val));
        assert(h2.last() == (nv, val));
        assert(h2.drop_last() =~= Seq::<(u64, Seq<u8>)>::empty());
        assert forall|w: u64| nv <= w implies leaf_at(out, key, w) == Option::Some(val) by {
            assert(out[n] == (key, h2));
            assert(hist_at(h2, w) == Option::Some(val));
        }
        assert forall|w: u64| w < nv implies leaf_at(out, key, w) == leaf_at(leaves, key, w) by {
            assert(out[n] == (key, h2));
            assert(hist_at(h2, w) == hist_at(Seq::<(u64, Seq<u8>)>::empty(), w));
        }
        assert forall|k: u64, w: u64|
            k != key implies #[trigger] leaf_at(out, k, w) == leaf_at(leaves, k, w) by {
            if has_leaf(leaves, k) {
                let j = leaf_idx(leaves, k);
                assert(out[j].0 == k);
                assert(has_leaf(out, k));
                let c2 = leaf_idx(out, k);
                assert(out[c2].0 == k);
                if c2 != j {
                    if c2 < n && j < n {
                        if c2 < j {
                            assert(out[c2].0 != out[j].0);
                        } else {
                            assert(out[j].0 != out[c2].0);
                        }
                    }
                    assert(false);
                }
            } else {
                if has_leaf(out, k) {
                    let c2 = leaf_idx(out, k);
                    assert(c2 == n);
                }
            }
        }
    }
}

/// Applying the staged assignments keeps leaf keys unique, gives each
/// assigned key its staged value at `nv`, leaves other keys alone, and
/// leaves every reading strictly before `nv` alone.
pub proof fn lemma_apply_sets(
    leaves: Seq<(u64, Seq<(u64, Seq<u8>)>)>,
    sets: Seq<(u64, Seq<u8>)>,
    i: int,
    nv: u64,
)
    requires
        0 <= i,
        leaf_keys_unique(leaves),
        forall|a: int, b: int| 0 <= a < b < sets.len() ==> sets[a].0 != sets[b].0,
    ensures
        ({
            let out = apply_sets(leaves, sets, i, nv);
            &&& leaf_keys_unique(out)
            &&& forall|j: int, w: u64|
                i <= j < sets.len() && nv <= w ==> #[trigger] leaf_at(out, sets[j].0, w)
                    == Option::Some(sets[j].1)
            &&& forall|k: u64, w: u64|
                (forall|j: int| i <= j < sets.len() ==> (#[trigger] sets[j]).0 != k)
                    ==> #[trigger] leaf_at(out, k, w) == leaf_at(leaves, k, w)
            &&& forall|k: u64, w: u64|
                w < nv ==> #[trigger] leaf_at(out, k, w) == leaf_at(leaves, k, w)
        }),
    decreases sets.len() - i,
{
    if i >= sets.len() {
    } else {
        let mid = set_leaf(leaves, sets[i].0, nv, sets[i].1);
        lemma_set_leaf(leaves, sets[i].0, nv, sets[i].1);
        lemma_apply_sets(mid, sets, i + 1, nv);
        let out = apply_sets(leaves, sets, i, nv);
        assert forall|j: int, w: u64|
            i <= j < sets.len() && nv <= w implies #[trigger] leaf_at(out, sets[j].0, w)
            == Option::Some(sets[j].1) by {
            if j == i {
                assert(forall|q: int| i + 1 <= q < sets.len() ==> (#[trigger] sets[q]).0 != sets[i].0);
                assert(leaf_at(out, sets[i].0, w) == leaf_at(mid, sets[i].0, w));
            }
        }
    }
}

/// A commit keeps the state well formed.
pub proof fn lemma_commit_wf(st: EngineSt, upd: UpdSt)
    requires
        state_ok(st),
        upd_ok(upd),
        st.version < u64::MAX,
    ensures
        state_ok(commit_m(st, upd)),
{
    let nv = (st.version + 1) as u64;
    let dirty = dirty_m(st.nodes, roots_m(upd));
    let out = commit_m(st, upd);
    lemma_apply_sets(st.leaves, upd.sets, 0, nv);
    assert forall|a: int, b: int| 0 <= a < b < out.nodes.len() implies out.nodes[a].0
        != out.nodes[b].0 by {
        assert(st.nodes[a].0 != st.nodes[b].0);
    }
    assert forall|p: int| 0 <= p < out.nodes.len() implies (#[trigger] out.nodes[p]).1.since
        <= out.version by {
        assert(st.nodes[p].1.since <= st.version);
        assert(out.nodes[p].1 == apply_entry(st.nodes[p].0, st.nodes[p].1, upd, dirty, nv));
    }
}

/// A commit never disturbs what any key read at any already-published
/// version: pinned reads of injected keys are stable.
pub proof fn lemma_commit_stable_leaves(st: EngineSt, upd: UpdSt, key: u64, w: u64)
    requires
        state_ok(st),
        upd_ok(upd),
        st.version < u64::MAX,
        w <= st.version,
    ensures
        leaf_at(commit_m(st, upd).leaves, key, w) == leaf_at(st.leaves, key, w),
{
    lemma_apply_sets(st.leaves, upd.sets, 0, (st.version + 1) as u64);
}

} // verus!
