//! Values, compute steps, errors, and the trait a client implements to
//! describe its keys.

use vstd::prelude::*;

verus! {

/// A computed or injected value: an opaque sequence of bytes.
#[derive(Debug)]
pub struct Value {
    pub bytes: Vec<u8>,
}

impl View for Value {
    type V = Seq<u8>;

    open spec fn view(&self) -> Seq<u8> {
        self.bytes@
    }
}

impl Value {
    pub fn new(bytes: Vec<u8>) -> (r: Value)
        ensures
            r@ == bytes@,
    {
        Value { bytes }
    }
}

impl Clone for Value {
    fn clone(&self) -> (r: Self)
        ensures
            r@ == self@,
    {
        let mut out: Vec<u8> = Vec::new();
        let mut i: usize = 0;
        while i < self.bytes.len()
            invariant
                i <= self.bytes.len(),
                out@ == self.bytes@.subrange(0, i as int),
            decreases self.bytes.len() - i,
        {
            out.push(self.bytes[i]);
            i = i + 1;
        }
        proof {
            assert(out@ =~= self.bytes@);
        }
        Value { bytes: out }
    }
}

/// One move of a derived key's compute function: ask for another key,
/// finish with a value, or fail.
#[derive(Debug)]
pub enum Step {
    /// The computation needs the value of this key before it can go on.
    Need(u64),
    /// The computation is finished with this value.
    Done(Value),
    /// The computation failed.
    Fail,
}

/// The mathematical shape of a `Step`.
pub enum StepSt {
    Need(u64),
    Done(Seq<u8>),
    Fail,
}

impl View for Step {
    type V = StepSt;

    open spec fn view(&self) -> StepSt {
        match self {
            Step::Need(k) => StepSt::Need(*k),
            Step::Done(v) => StepSt::Done(v@),
            Step::Fail => StepSt::Fail,
        }
    }
}

/// Why a read or a staging action failed.
#[derive(Debug)]
pub enum EngineError {
    /// An injected key was read before any transaction set it.
    UnsetLeaf { key: u64 },
    /// The key's compute function reported a failure.
    ComputeFailed { key: u64 },
    /// The key was read while already being computed on the same
    /// evaluation chain; the chain runs from the requesting root to the
    /// repeated key.
    CycleDetected { chain: Vec<u64> },
    /// The evaluation exceeded the engine's depth and step budget.
    /// With cycle detection disabled this is how a circular dependency
    /// surfaces.
    FuelExhausted,
    /// `set` was called on a key that is not injected.
    NotInjected { key: u64 },
}

/// The mathematical shape of an `EngineError`.
pub enum ErrSt {
    Unset(u64),
    Failed(u64),
    Cycle(Seq<u64>),
    Fuel,
    NotInjected(u64),
}

impl View for EngineError {
    type V = ErrSt;

    open spec fn view(&self) -> ErrSt {
        match self {
            EngineError::UnsetLeaf { key } => ErrSt::Unset(*key),
            EngineError::ComputeFailed { key } => ErrSt::Failed(*key),
            EngineError::CycleDetected { chain } => ErrSt::Cycle(chain@),
            EngineError::FuelExhausted => ErrSt::Fuel,
            EngineError::NotInjected { key } => ErrSt::NotInjected(*key),
        }
    }
}

/// The mathematical shape of a `Value`: a sequence of bytes.
pub type Bytes = Seq<u8>;

/// The mathematical shape of a list of recorded reads: each entry is
/// the key read and the value it returned.
pub type ReadList = Seq<(u64, Bytes)>;

/// The view of a list of recorded reads.
pub open spec fn reads_of(s: Seq<(u64, Value)>) -> ReadList {
    s.map_values(|p: (u64, Value)| (p.0, p.1@))
}

/// What a client supplies about its key space.
///
/// A key is either *injected* (a leaf whose value only a transaction
/// sets) or *derived* (computed by `step`, which is resumed with the
/// values of all the keys it has read so far and either requests one
/// more, finishes, or fails). `val_eq` decides whether a freshly
/// obtained value counts as changed for propagation purposes.
///
/// Each executable method is pinned to its spec companion, so the
/// engine's contracts can speak about what a client's logic returns.
/// The contract of `step` thereby asserts that a compute result is a
/// function of the key and the recorded reads alone. An unverified
/// impl whose `step` also consults outside state — a file, a clock —
/// cannot actually meet that promise; the engine still behaves
/// sensibly for it, because it invokes `step` only while (re)computing
/// a missing or invalidated record: the outside state is sampled at
/// compute time and the stored value then stands until the key is
/// dirtied. But everything the engine's contracts and laws say about
/// such an impl holds only up to that unchecked assumption.
pub trait Logic {
    /// Whether `key` is an injected leaf.
    spec fn injected_spec(&self, key: u64) -> bool;

    /// What `step` returns for `key` given the reads so far.
    spec fn step_spec(&self, key: u64, reads: ReadList) -> StepSt;

    /// Whether two values of `key` count as equal for propagation.
    spec fn eq_spec(&self, key: u64, a: Bytes, b: Bytes) -> bool;

    fn injected(&self, key: u64) -> (r: bool)
        ensures
            r == self.injected_spec(key),
    ;

    fn step(&self, key: u64, reads: &Vec<(u64, Value)>) -> (r: Step)
        ensures
            r@ == self.step_spec(key, reads_of(reads@)),
    ;

    fn val_eq(&self, key: u64, a: &Value, b: &Value) -> (r: bool)
        ensures
            r == self.eq_spec(key, a@, b@),
    ;
}

} // verus!
