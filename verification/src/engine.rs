//! The executable engine: the node table, transactions, and reads.
//! Every operation's contract pins its behaviour to the transition
//! functions of `model`.

use vstd::prelude::*;

use crate::base::EngineError;
use crate::base::ErrSt;
use crate::base::Logic;
use crate::base::Step;
use crate::base::Value;
use crate::base::reads_of;
use crate::model::EngineSt;
use crate::model::DEFAULT_BUDGET;
use crate::model::NodeSt;
use crate::model::Outcome;
use crate::model::UpdSt;
use crate::model::apply_entry;
use crate::model::apply_existing;
use crate::model::commit_m;
use crate::model::dep_hits;
use crate::model::dirty_m;
use crate::model::eval_m;
use crate::model::grow_k;
use crate::model::grow_pass;
use crate::model::has_leaf;
use crate::model::has_node;
use crate::model::hist_at;
use crate::model::idx_of;
use crate::model::leaf_at;
use crate::model::leaf_idx;
use crate::model::leaf_keys_unique;
use crate::model::keys_into;
use crate::model::lemma_commit_wf;
use crate::model::marks_into;
use crate::model::node_of;
use crate::model::state_ok;
use crate::model::push_new;
use crate::model::read_m;
use crate::model::recheck_m;
use crate::model::roots_m;
use crate::model::run_m;
use crate::model::sat_inc;
use crate::model::set_leaf;
use crate::model::set_node;
use crate::model::apply_sets;
use crate::model::lemma_apply_sets;
use crate::model::lemma_set_leaf;
use crate::model::sets_has;
use crate::model::sets_val;
use crate::model::stage_set_m;
use crate::model::unique_keys;
use crate::model::upd_ok;
use crate::model::valid_at;

verus! {

/// The stored record for one key.
pub struct Node {
    pub value: Value,
    pub since: u64,
    pub until: Option<u64>,
    pub deps: Vec<(u64, Value)>,
    pub force: bool,
    pub computes: u64,
}

impl View for Node {
    type V = NodeSt;

    closed spec fn view(&self) -> NodeSt {
        NodeSt {
            value: self.value@,
            since: self.since,
            until: self.until,
            deps: reads_of(self.deps@),
            force: self.force,
            computes: self.computes,
        }
    }
}

/// The view of the node table.
pub open spec fn table_view(s: Seq<(u64, Node)>) -> Seq<(u64, NodeSt)> {
    s.map_values(|p: (u64, Node)| (p.0, p.1@))
}

/// The view of the leaf store.
pub open spec fn store_view(s: Seq<(u64, Vec<(u64, Value)>)>) -> Seq<(u64, Seq<(u64, Seq<u8>)>)> {
    s.map_values(|p: (u64, Vec<(u64, Value)>)| (p.0, reads_of(p.1@)))
}

/// The incremental computation engine over a client's key logic.
pub struct Engine<L> {
    logic: L,
    version: u64,
    cycle: bool,
    budget: u64,
    leaves: Vec<(u64, Vec<(u64, Value)>)>,
    nodes: Vec<(u64, Node)>,
}

impl<L> View for Engine<L> {
    type V = EngineSt;

    closed spec fn view(&self) -> EngineSt {
        EngineSt {
            version: self.version,
            cycle: self.cycle,
            budget: self.budget,
            leaves: store_view(self.leaves@),
            nodes: table_view(self.nodes@),
        }
    }
}

impl<L> Engine<L> {
    /// The client logic the engine was built with.
    pub closed spec fn logic_spec(&self) -> L {
        self.logic
    }

    /// The engine's invariant: a well-formed node table.
    pub open spec fn wf(&self) -> bool {
        state_ok(self@)
    }
}

/// A staged transaction: leaf assignments and explicit dirty-marks,
/// published atomically by `Engine::commit`.
pub struct Updater {
    sets: Vec<(u64, Value)>,
    marks: Vec<u64>,
}

impl View for Updater {
    type V = UpdSt;

    closed spec fn view(&self) -> UpdSt {
        UpdSt { sets: reads_of(self.sets@), marks: self.marks@ }
    }
}

impl Updater {
    /// The staging invariant: no key assigned twice.
    pub open spec fn wf(&self) -> bool {
        upd_ok(self@)
    }
}

/// A read-only handle pinned to the version a commit published.
pub struct Snapshot {
    version: u64,
}

impl View for Snapshot {
    type V = u64;

    closed spec fn view(&self) -> u64 {
        self.version
    }
}

impl Snapshot {
    /// The version this snapshot observes.
    pub fn version(&self) -> (v: u64)
        ensures
            v == self@,
    {
        self.version
    }
}

// ---------------------------------------------------------------------
// Small verified helpers.

/// Whether `v` holds `k`.
fn vec_has(v: &Vec<u64>, k: u64) -> (b: bool)
    ensures
        b == v@.contains(k),
{
    let mut i: usize = 0;
    while i < v.len()
        invariant
            i <= v.len(),
            forall|j: int| 0 <= j < i ==> v@[j] != k,
        decreases v.len() - i,
    {
        if v[i] == k {
            return true;
        }
        i = i + 1;
    }
    false
}

/// A copy of a key list.
fn copy_keys(v: &Vec<u64>) -> (r: Vec<u64>)
    ensures
        r@ == v@,
{
    let mut out: Vec<u64> = Vec::new();
    let mut i: usize = 0;
    while i < v.len()
        invariant
            i <= v.len(),
            out@ == v@.subrange(0, i as int),
        decreases v.len() - i,
    {
        out.push(v[i]);
        i = i + 1;
    }
    proof {
        assert(out@ =~= v@);
    }
    out
}

/// A copy of a recorded read list.
fn copy_reads(v: &Vec<(u64, Value)>) -> (r: Vec<(u64, Value)>)
    ensures
        reads_of(r@) == reads_of(v@),
        r@.len() == v@.len(),
{
    let mut out: Vec<(u64, Value)> = Vec::new();
    let mut i: usize = 0;
    while i < v.len()
        invariant
            i <= v.len(),
            out@.len() == i,
            forall|j: int| 0 <= j < i ==> #[trigger] out@[j].0 == v@[j].0 && out@[j].1@ == v@[j].1@,
        decreases v.len() - i,
    {
        let k: u64 = v[i].0;
        let val = v[i].1.clone();
        out.push((k, val));
        i = i + 1;
    }
    proof {
        assert(reads_of(out@) =~= reads_of(v@));
    }
    out
}

/// The first index holding `key`, if any.
fn find_idx(nodes: &Vec<(u64, Node)>, key: u64) -> (r: Option<usize>)
    ensures
        match r {
            Option::Some(i) => i < nodes@.len() && nodes@[i as int].0 == key,
            Option::None => !has_node(table_view(nodes@), key),
        },
{
    let mut i: usize = 0;
    while i < nodes.len()
        invariant
            i <= nodes.len(),
            forall|j: int| 0 <= j < i ==> nodes@[j].0 != key,
        decreases nodes.len() - i,
    {
        if nodes[i].0 == key {
            return Option::Some(i);
        }
        i = i + 1;
    }
    proof {
        assert(forall|j: int|
            0 <= j < table_view(nodes@).len() ==> #[trigger] table_view(nodes@)[j].0 == nodes@[j].0);
    }
    Option::None
}

/// Under unique keys, an index holding `key` is the table's index for it.
pub proof fn lemma_idx_is(nodes: Seq<(u64, NodeSt)>, key: u64, i: int)
    requires
        unique_keys(nodes),
        0 <= i < nodes.len(),
        nodes[i].0 == key,
    ensures
        has_node(nodes, key),
        idx_of(nodes, key) == i,
        node_of(nodes, key) == nodes[i].1,
{
    assert(has_node(nodes, key));
    let c = idx_of(nodes, key);
    assert(0 <= c < nodes.len() && nodes[c].0 == key);
    if c != i {
        if c < i {
            assert(nodes[c].0 != nodes[i].0);
        } else {
            assert(nodes[i].0 != nodes[c].0);
        }
        assert(false);
    }
}

/// Replacing or appending a record keeps the table well formed.
pub proof fn lemma_set_node_ok(st: EngineSt, key: u64, n: NodeSt)
    requires
        state_ok(st),
        n.since <= st.version,
    ensures
        state_ok(EngineSt { nodes: set_node(st.nodes, key, n), ..st }),
        forall|k: u64|
            has_node(st.nodes, k) ==> #[trigger] has_node(set_node(st.nodes, key, n), k),
        has_node(set_node(st.nodes, key, n), key),
{
    let out = set_node(st.nodes, key, n);
    if has_node(st.nodes, key) {
        let i = idx_of(st.nodes, key);
        assert(0 <= i < st.nodes.len() && st.nodes[i].0 == key);
        assert forall|a: int, b: int| 0 <= a < b < out.len() implies out[a].0 != out[b].0 by {
            assert(st.nodes[a].0 != st.nodes[b].0);
        }
        assert forall|k: u64| has_node(st.nodes, k) implies #[trigger] has_node(out, k) by {
            let j = idx_of(st.nodes, k);
            if j == i {
                assert(out[i].0 == key);
                assert(st.nodes[j].0 == key);
                assert(out[j].0 == k);
            } else {
                assert(out[j].0 == k);
            }
        }
        assert(out[i].0 == key);
    } else {
        assert forall|a: int, b: int| 0 <= a < b < out.len() implies out[a].0 != out[b].0 by {
            if b < st.nodes.len() as int {
                assert(st.nodes[a].0 != st.nodes[b].0);
            } else {
                assert(out[b].0 == key);
                assert(out[a].0 == st.nodes[a].0);
                assert(!has_node(st.nodes, key));
                if st.nodes[a].0 == key {
                    assert(has_node(st.nodes, key));
                }
            }
        }
        assert forall|k: u64| has_node(st.nodes, k) implies #[trigger] has_node(out, k) by {
            let j = idx_of(st.nodes, k);
            assert(out[j].0 == k);
        }
        assert(out[st.nodes.len() as int].0 == key);
    }
}

/// The first index of `key`'s history, if any.
fn find_leaf(leaves: &Vec<(u64, Vec<(u64, Value)>)>, key: u64) -> (r: Option<usize>)
    ensures
        match r {
            Option::Some(i) => i < leaves@.len() && leaves@[i as int].0 == key,
            Option::None => !has_leaf(store_view(leaves@), key),
        },
{
    let mut i: usize = 0;
    while i < leaves.len()
        invariant
            i <= leaves.len(),
            forall|j: int| 0 <= j < i ==> leaves@[j].0 != key,
        decreases leaves.len() - i,
    {
        if leaves[i].0 == key {
            return Option::Some(i);
        }
        i = i + 1;
    }
    proof {
        assert(forall|j: int|
            0 <= j < store_view(leaves@).len() ==> #[trigger] store_view(leaves@)[j].0
                == leaves@[j].0);
    }
    Option::None
}

/// Under unique leaf keys, an index holding `key` is the store's index
/// for it.
proof fn lemma_lidx_is(leaves: Seq<(u64, Seq<(u64, Seq<u8>)>)>, key: u64, i: int)
    requires
        leaf_keys_unique(leaves),
        0 <= i < leaves.len(),
        leaves[i].0 == key,
    ensures
        has_leaf(leaves, key),
        leaf_idx(leaves, key) == i,
{
    assert(has_leaf(leaves, key));
    let c = leaf_idx(leaves, key);
    assert(0 <= c < leaves.len() && leaves[c].0 == key);
    if c != i {
        if c < i {
            assert(leaves[c].0 != leaves[i].0);
        } else {
            assert(leaves[i].0 != leaves[c].0);
        }
        assert(false);
    }
}

/// The latest assignment of the first `j` entries published at or
/// before `v`, if any.
fn hist_find(h: &Vec<(u64, Value)>, v: u64, j: usize) -> (r: Option<Value>)
    requires
        j <= h@.len(),
    ensures
        match r {
            Option::Some(val) => hist_at(reads_of(h@).subrange(0, j as int), v) == Option::Some(
                val@,
            ),
            Option::None => hist_at(reads_of(h@).subrange(0, j as int), v) is None,
        },
    decreases j,
{
    if j == 0 {
        proof {
            assert(reads_of(h@).subrange(0, 0) =~= Seq::<(u64, Seq<u8>)>::empty());
        }
        Option::None
    } else {
        proof {
            let pre = reads_of(h@).subrange(0, j as int);
            assert(pre.last() == reads_of(h@)[j - 1]);
            assert(pre.drop_last() =~= reads_of(h@).subrange(0, j - 1));
        }
        if h[j - 1].0 <= v {
            Option::Some(h[j - 1].1.clone())
        } else {
            hist_find(h, v, j - 1)
        }
    }
}

/// Whether an executable result carries the model's outcome.
pub open spec fn out_matches(r: Result<Value, EngineError>, out: Outcome) -> bool {
    match (r, out) {
        (Result::Ok(v), Outcome::Val(s)) => v@ == s,
        (Result::Err(e), Outcome::Fail(es)) => e@ == es,
        _ => false,
    }
}

// ---------------------------------------------------------------------
// Construction and staging.

impl<L: Logic> Engine<L> {
    /// A fresh engine over `logic`, at version 0, empty, with the
    /// default evaluation budget.
    pub fn build(logic: L, cycle_detection: bool) -> (e: Engine<L>)
        ensures
            e@.version == 0,
            e@.cycle == cycle_detection,
            e@.budget == DEFAULT_BUDGET,
            e@.leaves == Seq::<(u64, Seq<(u64, Seq<u8>)>)>::empty(),
            e@.nodes == Seq::<(u64, NodeSt)>::empty(),
            e.logic_spec() == logic,
            e.wf(),
    {
        Engine::build_with_budget(logic, cycle_detection, DEFAULT_BUDGET)
    }

    /// A fresh engine with a chosen evaluation budget: the bound on
    /// the depth of one dependency chain and on the reads of one
    /// compute run.
    pub fn build_with_budget(logic: L, cycle_detection: bool, budget: u64) -> (e: Engine<L>)
        ensures
            e@.version == 0,
            e@.cycle == cycle_detection,
            e@.budget == budget,
            e@.leaves == Seq::<(u64, Seq<(u64, Seq<u8>)>)>::empty(),
            e@.nodes == Seq::<(u64, NodeSt)>::empty(),
            e.logic_spec() == logic,
            e.wf(),
    {
        let e = Engine {
            logic,
            version: 0,
            cycle: cycle_detection,
            budget,
            leaves: Vec::new(),
            nodes: Vec::new(),
        };
        proof {
            assert(e@.nodes =~= Seq::<(u64, NodeSt)>::empty());
            assert(e@.leaves =~= Seq::<(u64, Seq<(u64, Seq<u8>)>)>::empty());
        }
        e
    }

    /// The engine's current version.
    pub fn current_version(&self) -> (v: u64)
        ensures
            v == self@.version,
    {
        self.version
    }

    /// A new, empty staging transaction.
    pub fn updater(&self) -> (u: Updater)
        ensures
            u@.sets == Seq::<(u64, Seq<u8>)>::empty(),
            u@.marks == Seq::<u64>::empty(),
            u.wf(),
    {
        let u = Updater { sets: Vec::new(), marks: Vec::new() };
        proof {
            assert(u@.sets =~= Seq::<(u64, Seq<u8>)>::empty());
            assert(u@.marks =~= Seq::<u64>::empty());
        }
        u
    }

    /// How many compute runs have completed for `key`.
    pub fn compute_count(&self, key: u64) -> (c: u64)
        requires
            self.wf(),
        ensures
            c == if has_node(self@.nodes, key) {
                node_of(self@.nodes, key).computes
            } else {
                0u64
            },
    {
        match find_idx(&self.nodes, key) {
            Option::Some(i) => {
                proof {
                    lemma_idx_is(self@.nodes, key, i as int);
                }
                self.nodes[i].1.computes
            },
            Option::None => 0,
        }
    }

    /// Whether `key` holds a value known correct at the current version.
    pub fn valid_now(&self, key: u64) -> (b: bool)
        requires
            self.wf(),
        ensures
            b == (has_node(self@.nodes, key) && valid_at(node_of(self@.nodes, key), self@.version)),
    {
        match find_idx(&self.nodes, key) {
            Option::Some(i) => {
                proof {
                    lemma_idx_is(self@.nodes, key, i as int);
                }
                let nd = &self.nodes[i].1;
                nd.since <= self.version && match nd.until {
                    Option::None => true,
                    Option::Some(u) => self.version < u,
                }
            },
            Option::None => false,
        }
    }
}

impl Updater {
    /// Stage an explicit dirty-mark for `key`.
    pub fn mark_changed(&mut self, key: u64)
        requires
            old(self).wf(),
        ensures
            final(self)@.sets == old(self)@.sets,
            final(self)@.marks == old(self)@.marks.push(key),
            final(self).wf(),
    {
        self.marks.push(key);
    }

    /// Stage a leaf assignment. Fails, staging nothing, when `key` is
    /// not an injected key of the engine's logic.
    pub fn set<L: Logic>(&mut self, eng: &Engine<L>, key: u64, value: Value) -> (r: Result<
        (),
        EngineError,
    >)
        requires
            old(self).wf(),
        ensures
            final(self).wf(),
            match r {
                Result::Ok(_) => eng.logic_spec().injected_spec(key) && final(self)@.sets
                    == stage_set_m(old(self)@.sets, key, value@) && final(self)@.marks == old(
                    self,
                )@.marks,
                Result::Err(e) => !eng.logic_spec().injected_spec(key) && e@
                    == ErrSt::NotInjected(key) && final(self)@ == old(self)@,
            },
    {
        if !eng.logic.injected(key) {
            return Result::Err(EngineError::NotInjected { key });
        }
        let mut i: usize = 0;
        while i < self.sets.len()
            invariant
                i <= self.sets.len(),
                forall|j: int| 0 <= j < i ==> self.sets@[j].0 != key,
                old(self).wf(),
                self.sets@ == old(self).sets@,
                self.marks@ == old(self).marks@,
                eng.logic_spec().injected_spec(key),
            decreases self.sets.len() - i,
        {
            if self.sets[i].0 == key {
                proof {
                    let sv = old(self)@.sets;
                    assert(sv[i as int].0 == key);
                    assert(sets_has(sv, key));
                    let c = choose|q: int| 0 <= q < sv.len() && sv[q].0 == key;
                    if c != i as int {
                        if c < i as int {
                            assert(sv[c].0 != sv[i as int].0);
                        } else {
                            assert(sv[i as int].0 != sv[c].0);
                        }
                        assert(false);
                    }
                }
                self.sets.set(i, (key, value));
                proof {
                    assert(self@.sets =~= stage_set_m(old(self)@.sets, key, value@));
                    assert(forall|j: int|
                        0 <= j < self@.sets.len() ==> #[trigger] self@.sets[j].0 == old(
                            self,
                        )@.sets[j].0);
                }
                return Result::Ok(());
            }
            i = i + 1;
        }
        proof {
            assert(forall|j: int|
                0 <= j < old(self)@.sets.len() ==> #[trigger] old(self)@.sets[j].0 == old(
                    self,
                ).sets@[j].0);
            assert(!sets_has(old(self)@.sets, key));
        }
        self.sets.push((key, value));
        proof {
            assert(self@.sets =~= stage_set_m(old(self)@.sets, key, value@));
            assert(forall|j: int|
                0 <= j < old(self)@.sets.len() ==> #[trigger] self@.sets[j].0 == old(
                    self,
                )@.sets[j].0);
        }
        Result::Ok(())
    }
}

// ---------------------------------------------------------------------
// Commit.

/// The first staged index holding `key`, if any.
fn sets_find(sets: &Vec<(u64, Value)>, key: u64) -> (r: Option<usize>)
    ensures
        match r {
            Option::Some(i) => i < sets@.len() && sets@[i as int].0 == key,
            Option::None => !sets_has(reads_of(sets@), key),
        },
{
    let mut i: usize = 0;
    while i < sets.len()
        invariant
            i <= sets.len(),
            forall|j: int| 0 <= j < i ==> sets@[j].0 != key,
        decreases sets.len() - i,
    {
        if sets[i].0 == key {
            return Option::Some(i);
        }
        i = i + 1;
    }
    proof {
        assert(forall|j: int|
            0 <= j < reads_of(sets@).len() ==> #[trigger] reads_of(sets@)[j].0 == sets@[j].0);
    }
    Option::None
}

/// Under unique staged keys, an index holding `key` pins the staged value.
proof fn lemma_sets_idx(sets: Seq<(u64, Seq<u8>)>, key: u64, i: int)
    requires
        forall|a: int, b: int| 0 <= a < b < sets.len() ==> sets[a].0 != sets[b].0,
        0 <= i < sets.len(),
        sets[i].0 == key,
    ensures
        sets_has(sets, key),
        sets_val(sets, key) == sets[i].1,
{
    assert(sets_has(sets, key));
    let c = choose|q: int| 0 <= q < sets.len() && sets[q].0 == key;
    if c != i {
        if c < i {
            assert(sets[c].0 != sets[i].0);
        } else {
            assert(sets[i].0 != sets[c].0);
        }
        assert(false);
    }
}

/// The keys of the staged assignments folded into `acc`.
fn keys_into_x(acc: Vec<u64>, sets: &Vec<(u64, Value)>, i: usize) -> (r: Vec<u64>)
    ensures
        r@ == keys_into(acc@, reads_of(sets@), i as int),
    decreases sets@.len() - i,
{
    if i >= sets.len() {
        acc
    } else {
        let k: u64 = sets[i].0;
        let acc2 = if vec_has(&acc, k) {
            acc
        } else {
            let mut a = acc;
            a.push(k);
            a
        };
        proof {
            assert(reads_of(sets@)[i as int].0 == k);
            assert(acc2@ == push_new(acc@, k));
        }
        keys_into_x(acc2, sets, i + 1)
    }
}

/// The staged marks folded into `acc`.
fn marks_into_x(acc: Vec<u64>, marks: &Vec<u64>, i: usize) -> (r: Vec<u64>)
    ensures
        r@ == marks_into(acc@, marks@, i as int),
    decreases marks@.len() - i,
{
    if i >= marks.len() {
        acc
    } else {
        let k: u64 = marks[i];
        let acc2 = if vec_has(&acc, k) {
            acc
        } else {
            let mut a = acc;
            a.push(k);
            a
        };
        proof {
            assert(acc2@ == push_new(acc@, k));
        }
        marks_into_x(acc2, marks, i + 1)
    }
}

/// Whether any recorded read names a key of `cur`.
fn dep_hits_x(deps: &Vec<(u64, Value)>, cur: &Vec<u64>) -> (b: bool)
    ensures
        b == dep_hits(reads_of(deps@), cur@),
{
    let mut j: usize = 0;
    while j < deps.len()
        invariant
            j <= deps.len(),
            forall|q: int| 0 <= q < j ==> !cur@.contains((#[trigger] deps@[q]).0),
        decreases deps.len() - j,
    {
        if vec_has(cur, deps[j].0) {
            proof {
                assert(reads_of(deps@)[j as int].0 == deps@[j as int].0);
            }
            return true;
        }
        j = j + 1;
    }
    proof {
        assert(forall|q: int|
            0 <= q < reads_of(deps@).len() ==> #[trigger] reads_of(deps@)[q].0 == deps@[q].0);
    }
    false
}

/// One pass of reverse-edge propagation over the table.
fn grow_pass_x(nodes: &Vec<(u64, Node)>, cur: &Vec<u64>, acc: Vec<u64>, i: usize) -> (r: Vec<u64>)
    ensures
        r@ == grow_pass(table_view(nodes@), cur@, acc@, i as int),
    decreases nodes@.len() - i,
{
    if i >= nodes.len() {
        acc
    } else {
        let hit = dep_hits_x(&nodes[i].1.deps, cur);
        proof {
            assert(table_view(nodes@)[i as int].1.deps == reads_of(nodes@[i as int].1.deps@));
            assert(table_view(nodes@)[i as int].0 == nodes@[i as int].0);
        }
        let acc2 = if hit {
            if vec_has(&acc, nodes[i].0) {
                acc
            } else {
                let mut a = acc;
                a.push(nodes[i].0);
                a
            }
        } else {
            acc
        };
        grow_pass_x(nodes, cur, acc2, i + 1)
    }
}

impl<L: Logic> Engine<L> {
    /// Publish a staged transaction: allocate the next version, apply
    /// the staged leaf assignments as immediately valid records, close
    /// the validity of every transitively dirty record without
    /// recomputing anything, and return a snapshot pinned to the new
    /// version. The new state is exactly the model's `commit_m`.
    #[verifier::loop_isolation(false)]
    pub fn commit(&mut self, upd: Updater) -> (s: Snapshot)
        requires
            old(self).wf(),
            upd.wf(),
            old(self)@.version < u64::MAX,
        ensures
            final(self)@ == commit_m(old(self)@, upd@),
            final(self).logic_spec() == old(self).logic_spec(),
            final(self).wf(),
            s@ == final(self)@.version,
    {
        let nv: u64 = self.version + 1;
        let ghost tv = table_view(self.nodes@);

        // The dirty roots: re-set leaves and explicit marks, each once.
        let empty_roots: Vec<u64> = Vec::new();
        proof {
            assert(empty_roots@ =~= Seq::<u64>::empty());
        }
        let roots0 = keys_into_x(empty_roots, &upd.sets, 0);
        let roots = marks_into_x(roots0, &upd.marks, 0);
        proof {
            assert(roots@ == roots_m(upd@));
        }

        // The transitive closure over reverse dependency edges.
        let rounds: usize = self.nodes.len();
        let mut cur = roots;
        let mut r: usize = 0;
        while r < rounds
            invariant
                r <= rounds,
                grow_k(tv, cur@, (rounds - r) as nat) == dirty_m(tv, roots_m(upd@)),
            decreases rounds - r,
        {
            let acc = copy_keys(&cur);
            let next = grow_pass_x(&self.nodes, &cur, acc, 0);
            cur = next;
            r = r + 1;
        }
        let dirty = cur;
        proof {
            assert(dirty@ == dirty_m(tv, roots_m(upd@)));
        }

        // Rewrite every record: close dirty validity, raise marked
        // recompute flags; values, reads and counters are kept.
        let ghost target = apply_existing(tv, upd@, dirty@, nv);
        let mut new_nodes: Vec<(u64, Node)> = Vec::new();
        let mut i: usize = 0;
        while i < self.nodes.len()
            invariant
                i <= self.nodes.len(),
                new_nodes@.len() == i,
                forall|j: int|
                    0 <= j < i ==> #[trigger] table_view(new_nodes@)[j] == target[j],
            decreases self.nodes.len() - i,
        {
            let k: u64 = self.nodes[i].0;
            let nd = &self.nodes[i].1;
            let until2: Option<u64> = if vec_has(&dirty, k) {
                match nd.until {
                    Option::None => Option::Some(nv),
                    Option::Some(u) => Option::Some(u),
                }
            } else {
                nd.until
            };
            let force2: bool = nd.force || vec_has(&upd.marks, k);
            let n2 = Node {
                value: nd.value.clone(),
                since: nd.since,
                until: until2,
                deps: copy_reads(&nd.deps),
                force: force2,
                computes: nd.computes,
            };
            proof {
                assert(n2@ == apply_entry(k, tv[i as int].1, upd@, dirty@, nv));
                assert(target[i as int] == (k, apply_entry(k, tv[i as int].1, upd@, dirty@, nv)));
            }
            let ghost prev = new_nodes@;
            new_nodes.push((k, n2));
            proof {
                assert forall|j: int|
                    0 <= j < i as int + 1 implies #[trigger] table_view(new_nodes@)[j]
                    == target[j] by {
                    if j < i as int {
                        assert(new_nodes@[j] == prev[j]);
                        assert(table_view(prev)[j] == target[j]);
                    } else {
                        assert(new_nodes@[j] == (k, n2));
                    }
                }
            }
            i = i + 1;
        }
        proof {
            assert(table_view(new_nodes@) =~= target);
        }

        // Append the staged assignments to the leaf histories.
        let ghost lv0 = store_view(self.leaves@);
        let mut fi: usize = 0;
        while fi < upd.sets.len()
            invariant
                fi <= upd.sets.len(),
                leaf_keys_unique(store_view(self.leaves@)),
                apply_sets(store_view(self.leaves@), upd@.sets, fi as int, nv) == apply_sets(
                    lv0,
                    upd@.sets,
                    0,
                    nv,
                ),
                self.nodes@ == old(self).nodes@,
                self.version == old(self).version,
                self.cycle == old(self).cycle,
                self.budget == old(self).budget,
                self.logic_spec() == old(self).logic_spec(),
            decreases upd.sets.len() - fi,
        {
            let k: u64 = upd.sets[fi].0;
            let val = upd.sets[fi].1.clone();
            let ghost before = store_view(self.leaves@);
            proof {
                lemma_set_leaf(before, k, nv, upd@.sets[fi as int].1);
            }
            match find_leaf(&self.leaves, k) {
                Option::Some(li) => {
                    proof {
                        lemma_lidx_is(before, k, li as int);
                    }
                    let mut h = copy_reads(&self.leaves[li].1);
                    h.push((nv, val));
                    proof {
                        assert(reads_of(h@) =~= before[li as int].1.push(
                            (nv, upd@.sets[fi as int].1),
                        ));
                    }
                    self.leaves.set(li, (k, h));
                    proof {
                        assert(store_view(self.leaves@) =~= set_leaf(
                            before,
                            k,
                            nv,
                            upd@.sets[fi as int].1,
                        ));
                    }
                },
                Option::None => {
                    let mut h: Vec<(u64, Value)> = Vec::new();
                    h.push((nv, val));
                    proof {
                        assert(reads_of(h@) =~= Seq::empty().push((nv, upd@.sets[fi as int].1)));
                    }
                    self.leaves.push((k, h));
                    proof {
                        assert(store_view(self.leaves@) =~= set_leaf(
                            before,
                            k,
                            nv,
                            upd@.sets[fi as int].1,
                        ));
                    }
                },
            }
            fi = fi + 1;
        }
        proof {
            lemma_commit_wf(old(self)@, upd@);
        }
        self.nodes = new_nodes;
        self.version = nv;
        Snapshot { version: nv }
    }
}

// ---------------------------------------------------------------------
// Evaluation.

impl<L: Logic> Engine<L> {
    /// Replace or append `key`'s record.
    fn set_node_x(&mut self, key: u64, n: Node)
        requires
            old(self).wf(),
            n@.since <= old(self)@.version,
        ensures
            final(self)@ == (EngineSt { nodes: set_node(old(self)@.nodes, key, n@), ..old(self)@ }),
            final(self).logic_spec() == old(self).logic_spec(),
            final(self).wf(),
    {
        proof {
            lemma_set_node_ok(old(self)@, key, n@);
        }
        match find_idx(&self.nodes, key) {
            Option::Some(i) => {
                proof {
                    lemma_idx_is(old(self)@.nodes, key, i as int);
                }
                self.nodes.set(i, (key, n));
                proof {
                    assert(self@.nodes =~= set_node(old(self)@.nodes, key, n@));
                }
            },
            Option::None => {
                self.nodes.push((key, n));
                proof {
                    assert(self@.nodes =~= set_node(old(self)@.nodes, key, n@));
                }
            },
        }
    }

    /// Resolve `key` at version `v`: leaf history lookup, cache hit,
    /// dependency re-check with early cutoff, or a compute run.
    fn eval(&mut self, key: u64, v: u64, chain: &Vec<u64>, fuel: u64) -> (r: Result<
        Value,
        EngineError,
    >)
        requires
            old(self).wf(),
        ensures
            ({
                let (st2, out) = eval_m(
                    old(self).logic_spec(),
                    old(self)@,
                    key,
                    v,
                    chain@,
                    fuel as nat,
                );
                final(self)@ == st2 && out_matches(r, out)
            }),
            final(self)@.version == old(self)@.version,
            final(self).logic_spec() == old(self).logic_spec(),
            final(self).wf(),
        decreases fuel as nat, 1nat, 0nat,
    {
        if fuel == 0 {
            return Result::Err(EngineError::FuelExhausted);
        }
        if self.cycle && vec_has(chain, key) {
            let mut c = copy_keys(chain);
            c.push(key);
            return Result::Err(EngineError::CycleDetected { chain: c });
        }
        if self.logic.injected(key) {
            match find_leaf(&self.leaves, key) {
                Option::Some(i) => {
                    proof {
                        lemma_lidx_is(self@.leaves, key, i as int);
                    }
                    let h = &self.leaves[i].1;
                    let found = hist_find(h, v, h.len());
                    proof {
                        assert(reads_of(h@).subrange(0, h@.len() as int) =~= reads_of(h@));
                    }
                    match found {
                        Option::Some(val) => {
                            return Result::Ok(val);
                        },
                        Option::None => {
                            return Result::Err(EngineError::UnsetLeaf { key });
                        },
                    }
                },
                Option::None => {
                    return Result::Err(EngineError::UnsetLeaf { key });
                },
            }
        }
        let idx_opt = find_idx(&self.nodes, key);
        if let Option::Some(i) = idx_opt {
            proof {
                lemma_idx_is(self@.nodes, key, i as int);
            }
            let nd = &self.nodes[i].1;
            let valid = nd.since <= v && match nd.until {
                Option::None => true,
                Option::Some(u) => v < u,
            };
            if valid {
                return Result::Ok(self.nodes[i].1.value.clone());
            }
        }
        let mut chain2 = copy_keys(chain);
        chain2.push(key);
        proof {
            assert(reads_of(Seq::<(u64, Value)>::empty()) =~= Seq::<(u64, Seq<u8>)>::empty());
            if let Option::Some(i) = idx_opt {
                lemma_idx_is(self@.nodes, key, i as int);
            }
        }
        let recheckable = v == self.version && match idx_opt {
            Option::Some(i) => !self.nodes[i].1.force,
            Option::None => false,
        };
        if recheckable {
            let i = idx_opt.unwrap();
            proof {
                lemma_idx_is(self@.nodes, key, i as int);
            }
            let deps = copy_reads(&self.nodes[i].1.deps);
            let unchanged = self.recheck(&deps, 0, v, &chain2, fuel);
            if unchanged {
                match find_idx(&self.nodes, key) {
                    Option::Some(j) => {
                        proof {
                            lemma_idx_is(self@.nodes, key, j as int);
                        }
                        let nd = &self.nodes[j].1;
                        let out_val = nd.value.clone();
                        let n2 = Node {
                            value: nd.value.clone(),
                            since: v,
                            until: Option::None,
                            deps: copy_reads(&nd.deps),
                            force: nd.force,
                            computes: nd.computes,
                        };
                        proof {
                            assert(n2@ == (NodeSt {
                                since: v,
                                until: Option::None,
                                ..node_of(self@.nodes, key)
                            }));
                        }
                        self.set_node_x(key, n2);
                        Result::Ok(out_val)
                    },
                    Option::None => self.run(key, Vec::new(), v, &chain2, fuel, fuel),
                }
            } else {
                self.run(key, Vec::new(), v, &chain2, fuel, fuel)
            }
        } else {
            self.run(key, Vec::new(), v, &chain2, fuel, fuel)
        }
    }

    /// Re-evaluate the recorded reads from `i` on and compare each
    /// fresh value with the recorded one; true when all are unchanged.
    fn recheck(
        &mut self,
        deps: &Vec<(u64, Value)>,
        i: usize,
        v: u64,
        chain: &Vec<u64>,
        fuel: u64,
    ) -> (b: bool)
        requires
            old(self).wf(),
        ensures
            ({
                let (st1, unchanged) = recheck_m(
                    old(self).logic_spec(),
                    old(self)@,
                    reads_of(deps@),
                    i as int,
                    v,
                    chain@,
                    fuel as nat,
                );
                final(self)@ == st1 && b == unchanged
            }),
            final(self)@.version == old(self)@.version,
            final(self).logic_spec() == old(self).logic_spec(),
            final(self).wf(),
        decreases fuel as nat, 0nat, deps@.len() - i,
    {
        if fuel == 0 {
            return false;
        }
        if i >= deps.len() {
            return true;
        }
        let dk: u64 = deps[i].0;
        let r = self.eval(dk, v, chain, fuel - 1);
        match r {
            Result::Ok(fv) => {
                if self.logic.val_eq(dk, &fv, &deps[i].1) {
                    self.recheck(deps, i + 1, v, chain, fuel)
                } else {
                    false
                }
            },
            Result::Err(_) => false,
        }
    }

    /// One compute run of `key`, resumed with the reads so far.
    fn run(
        &mut self,
        key: u64,
        reads: Vec<(u64, Value)>,
        v: u64,
        chain: &Vec<u64>,
        steps: u64,
        fuel: u64,
    ) -> (r: Result<Value, EngineError>)
        requires
            old(self).wf(),
        ensures
            ({
                let (st2, out) = run_m(
                    old(self).logic_spec(),
                    old(self)@,
                    key,
                    reads_of(reads@),
                    v,
                    chain@,
                    steps as nat,
                    fuel as nat,
                );
                final(self)@ == st2 && out_matches(r, out)
            }),
            final(self)@.version == old(self)@.version,
            final(self).logic_spec() == old(self).logic_spec(),
            final(self).wf(),
        decreases fuel as nat, 0nat, steps as nat,
    {
        if steps == 0 || fuel == 0 {
            return Result::Err(EngineError::FuelExhausted);
        }
        let s = self.logic.step(key, &reads);
        match s {
            Step::Done(val) => {
                if v == self.version {
                    let prev: u64 = match find_idx(&self.nodes, key) {
                        Option::Some(i) => {
                            proof {
                                lemma_idx_is(self@.nodes, key, i as int);
                            }
                            self.nodes[i].1.computes
                        },
                        Option::None => 0,
                    };
                    let c: u64 = if prev == u64::MAX {
                        prev
                    } else {
                        prev + 1
                    };
                    let n = Node {
                        value: val.clone(),
                        since: self.version,
                        until: Option::None,
                        deps: reads,
                        force: false,
                        computes: c,
                    };
                    self.set_node_x(key, n);
                    Result::Ok(val)
                } else {
                    Result::Ok(val)
                }
            },
            Step::Fail => Result::Err(EngineError::ComputeFailed { key }),
            Step::Need(k) => {
                let rv = self.eval(k, v, chain, fuel - 1);
                match rv {
                    Result::Ok(val) => {
                        let mut reads2 = reads;
                        reads2.push((k, val));
                        proof {
                            assert(reads_of(reads2@) =~= reads_of(reads@).push(
                                (k, reads2@[reads2@.len() - 1].1@),
                            ));
                        }
                        self.run(key, reads2, v, chain, steps - 1, fuel)
                    },
                    Result::Err(e) => Result::Err(e),
                }
            },
        }
    }

    /// Read `key` through a snapshot: the sole entry point of the
    /// cache and invalidation machinery. The snapshot may be pinned to
    /// any already-published version; a read against an older snapshot
    /// is answered at that version — an injected key from its history,
    /// a derived key from a record whose validity covers the version
    /// or by a transient recompute at it — and changes nothing. The result
    /// and the engine's next state are exactly those of the model's
    /// `read_m` at the snapshot's version. One read's work is bounded
    /// by the engine's evaluation budget: a dependency chain deeper
    /// than the budget, or a compute run with more reads, fails with
    /// `FuelExhausted`.
    pub fn read(&mut self, snap: &Snapshot, key: u64) -> (r: Result<Value, EngineError>)
        requires
            old(self).wf(),
            snap@ <= old(self)@.version,
        ensures
            ({
                let (st2, out) = read_m(old(self).logic_spec(), old(self)@, key, snap@);
                final(self)@ == st2 && out_matches(r, out)
            }),
            final(self).logic_spec() == old(self).logic_spec(),
            final(self).wf(),
    {
        let chain: Vec<u64> = Vec::new();
        proof {
            assert(chain@ =~= Seq::<u64>::empty());
        }
        let b = self.budget;
        self.eval(key, snap.version, &chain, b)
    }
}

} // verus!
