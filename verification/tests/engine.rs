use std::cell::RefCell;
use std::rc::Rc;

use incr::base::EngineError;
use incr::base::StepSt;
use incr::base::Logic;
use incr::base::Step;
use incr::base::Value;
use incr::base::Bytes;
use incr::base::ReadList;
use incr::engine::Engine;
use incr::text::render;
use incr::text::TextLogic;
use incr::text::CONTENT_KEY;
use incr::text::ENCODING_KEY;
use incr::text::RENDERED_KEY;

const LEAF: u64 = 1;
const DERIVED: u64 = 2;
const KEY_A: u64 = 10;
const KEY_B: u64 = 11;
const FAILING: u64 = 20;

fn val(bytes: &[u8]) -> Value {
    Value::new(bytes.to_vec())
}

/// One injected leaf and one derived key that reads the leaf and
/// appends a marker byte. Leaf equality compares the first byte only,
/// so a value can change without counting as changed.
struct PairLogic;

impl Logic for PairLogic {
    fn injected_spec(&self, _key: u64) -> bool {
        unreachable!()
    }

    fn step_spec(&self, _key: u64, _reads: ReadList) -> StepSt {
        unreachable!()
    }

    fn eq_spec(&self, _key: u64, _a: Bytes, _b: Bytes) -> bool {
        unreachable!()
    }

    fn injected(&self, key: u64) -> bool {
        key == LEAF
    }

    fn step(&self, _key: u64, reads: &Vec<(u64, Value)>) -> Step {
        if reads.is_empty() {
            Step::Need(LEAF)
        } else {
            let mut out = reads[0].1.bytes.clone();
            out.push(0x2A);
            Step::Done(Value::new(out))
        }
    }

    fn val_eq(&self, key: u64, a: &Value, b: &Value) -> bool {
        if key == LEAF {
            a.bytes.first() == b.bytes.first()
        } else {
            a.bytes == b.bytes
        }
    }
}

/// Two derived keys whose compute functions read each other, plus one
/// derived key that always fails.
struct CycleLogic;

impl Logic for CycleLogic {
    fn injected_spec(&self, _key: u64) -> bool {
        unreachable!()
    }

    fn step_spec(&self, _key: u64, _reads: ReadList) -> StepSt {
        unreachable!()
    }

    fn eq_spec(&self, _key: u64, _a: Bytes, _b: Bytes) -> bool {
        unreachable!()
    }

    fn injected(&self, _key: u64) -> bool {
        false
    }

    fn step(&self, key: u64, _reads: &Vec<(u64, Value)>) -> Step {
        if key == KEY_A {
            Step::Need(KEY_B)
        } else if key == KEY_B {
            Step::Need(KEY_A)
        } else {
            Step::Fail
        }
    }

    fn val_eq(&self, _key: u64, a: &Value, b: &Value) -> bool {
        a.bytes == b.bytes
    }
}

#[test]
fn unset_leaf_read_fails() {
    let mut eng = Engine::build(PairLogic, true);
    let upd = eng.updater();
    let snap = eng.commit(upd);
    let r = eng.read(&snap, LEAF);
    assert!(matches!(r, Err(EngineError::UnsetLeaf { key: LEAF })));
}

#[test]
fn set_commit_read_returns_value() {
    let mut eng = Engine::build(PairLogic, true);
    let mut upd = eng.updater();
    upd.set(&eng, LEAF, val(&[7, 8, 9])).unwrap();
    let snap = eng.commit(upd);
    let r = eng.read(&snap, LEAF).unwrap();
    assert_eq!(r.bytes, vec![7, 8, 9]);
}

#[test]
fn set_on_derived_fails() {
    let eng = Engine::build(PairLogic, true);
    let mut upd = eng.updater();
    let r = upd.set(&eng, DERIVED, val(&[1]));
    assert!(matches!(r, Err(EngineError::NotInjected { key: DERIVED })));
}

#[test]
fn mark_changed_twice_is_idempotent() {
    // The same scenario three ways: one mark, the same mark staged
    // twice in one transaction, and the mark committed twice. All
    // observable outcomes agree with marking once.
    let mut outcomes: Vec<(Vec<u8>, u64, bool)> = Vec::new();
    for mode in 0..3 {
        let mut eng = Engine::build(PairLogic, true);
        let mut upd = eng.updater();
        upd.set(&eng, LEAF, val(&[5])).unwrap();
        let snap = eng.commit(upd);
        eng.read(&snap, DERIVED).unwrap();
        assert_eq!(eng.compute_count(DERIVED), 1);

        let mut upd = eng.updater();
        upd.mark_changed(DERIVED);
        if mode == 1 {
            upd.mark_changed(DERIVED);
        }
        let mut snap = eng.commit(upd);
        if mode == 2 {
            let mut upd = eng.updater();
            upd.mark_changed(DERIVED);
            snap = eng.commit(upd);
        }
        let r = eng.read(&snap, DERIVED).unwrap();
        outcomes.push((r.bytes, eng.compute_count(DERIVED), eng.valid_now(DERIVED)));
    }
    assert_eq!(outcomes[0], outcomes[1]);
    assert_eq!(outcomes[0], outcomes[2]);
    // The explicit mark forces exactly one recompute.
    assert_eq!(outcomes[0].1, 2);
}

#[test]
fn early_cutoff_skips_recompute() {
    let mut eng = Engine::build(PairLogic, true);
    let mut upd = eng.updater();
    upd.set(&eng, LEAF, val(&[1, 10])).unwrap();
    let snap = eng.commit(upd);
    let first = eng.read(&snap, DERIVED).unwrap();
    assert_eq!(first.bytes, vec![1, 10, 0x2A]);
    assert_eq!(eng.compute_count(DERIVED), 1);

    // Re-set the leaf to a value equal per its equality function
    // (same first byte): the derived key is dirtied, but the re-check
    // revalidates it without running its compute function.
    let mut upd = eng.updater();
    upd.set(&eng, LEAF, val(&[1, 99])).unwrap();
    let snap = eng.commit(upd);
    assert!(!eng.valid_now(DERIVED));
    let second = eng.read(&snap, DERIVED).unwrap();
    assert_eq!(second.bytes, first.bytes);
    assert_eq!(eng.compute_count(DERIVED), 1);
    // The validity range extends to the new version.
    assert!(eng.valid_now(DERIVED));
}

#[test]
fn propagation_recomputes_once() {
    let mut eng = Engine::build(PairLogic, true);
    let mut upd = eng.updater();
    upd.set(&eng, LEAF, val(&[1, 10])).unwrap();
    let snap = eng.commit(upd);
    eng.read(&snap, DERIVED).unwrap();
    assert_eq!(eng.compute_count(DERIVED), 1);

    // Re-set the leaf to a value that is changed per its equality
    // function: the next read recomputes exactly once and reflects
    // the new leaf value.
    let mut upd = eng.updater();
    upd.set(&eng, LEAF, val(&[2, 0])).unwrap();
    let snap = eng.commit(upd);
    let r = eng.read(&snap, DERIVED).unwrap();
    assert_eq!(r.bytes, vec![2, 0, 0x2A]);
    assert_eq!(eng.compute_count(DERIVED), 2);
}

#[test]
fn repeated_reads_compute_once() {
    let mut eng = Engine::build(PairLogic, true);
    let mut upd = eng.updater();
    upd.set(&eng, LEAF, val(&[3])).unwrap();
    let snap = eng.commit(upd);
    assert_eq!(eng.compute_count(DERIVED), 0);
    let first = eng.read(&snap, DERIVED).unwrap();
    for _ in 0..5 {
        let again = eng.read(&snap, DERIVED).unwrap();
        assert_eq!(again.bytes, first.bytes);
    }
    assert_eq!(eng.compute_count(DERIVED), 1);
}

#[test]
fn pinned_reads_are_stable() {
    let mut eng = Engine::build(PairLogic, true);
    let mut upd = eng.updater();
    upd.set(&eng, LEAF, val(&[1, 10])).unwrap();
    let snap1 = eng.commit(upd);
    let d1 = eng.read(&snap1, DERIVED).unwrap();
    assert_eq!(d1.bytes, vec![1, 10, 0x2A]);
    assert_eq!(eng.compute_count(DERIVED), 1);

    // A later commit re-sets the leaf; the snapshot obtained before it
    // keeps observing its own version's values.
    let mut upd = eng.updater();
    upd.set(&eng, LEAF, val(&[2, 20])).unwrap();
    let snap2 = eng.commit(upd);
    let l2 = eng.read(&snap2, LEAF).unwrap();
    assert_eq!(l2.bytes, vec![2, 20]);
    let l1 = eng.read(&snap1, LEAF).unwrap();
    assert_eq!(l1.bytes, vec![1, 10]);

    // The derived key too: recomputing at the new version does not
    // disturb the pinned view, which is answered from the still-valid
    // record or rebuilt from the old leaf values on demand.
    let d2 = eng.read(&snap2, DERIVED).unwrap();
    assert_eq!(d2.bytes, vec![2, 20, 0x2A]);
    assert_eq!(eng.compute_count(DERIVED), 2);
    let d1_again = eng.read(&snap1, DERIVED).unwrap();
    assert_eq!(d1_again.bytes, vec![1, 10, 0x2A]);
    // A pinned recompute is not cached: the run counter is untouched.
    assert_eq!(eng.compute_count(DERIVED), 2);
}

#[test]
fn revalidation_claims_only_rechecked_versions() {
    let mut eng = Engine::build(PairLogic, true);
    let mut upd = eng.updater();
    upd.set(&eng, LEAF, val(&[1, 10])).unwrap();
    let snap1 = eng.commit(upd);
    let d1 = eng.read(&snap1, DERIVED).unwrap();
    assert_eq!(d1.bytes, vec![1, 10, 0x2A]);

    // Re-set the leaf to a changed value, then back to one equal per
    // its equality function.
    let mut upd = eng.updater();
    upd.set(&eng, LEAF, val(&[2, 20])).unwrap();
    let snap2 = eng.commit(upd);
    let mut upd = eng.updater();
    upd.set(&eng, LEAF, val(&[1, 10])).unwrap();
    let snap3 = eng.commit(upd);

    // Pinned at the middle version, the derived key reflects the
    // middle leaf value — before the revalidation ...
    let mid = eng.read(&snap2, DERIVED).unwrap();
    assert_eq!(mid.bytes, vec![2, 20, 0x2A]);

    // The current-version read revalidates without recompute: early
    // cutoff, since the leaf is back to an equal value.
    let cur = eng.read(&snap3, DERIVED).unwrap();
    assert_eq!(cur.bytes, vec![1, 10, 0x2A]);
    assert_eq!(eng.compute_count(DERIVED), 1);
    assert!(eng.valid_now(DERIVED));

    // ... and after it: the re-opened validity starts at the
    // re-checked version, so the pinned read still answers for its
    // own version instead of hitting the revalidated record.
    let mid_again = eng.read(&snap2, DERIVED).unwrap();
    assert_eq!(mid_again.bytes, vec![2, 20, 0x2A]);
    assert_eq!(eng.compute_count(DERIVED), 1);
}

#[test]
fn cycle_detection_reports_chain() {
    let mut eng = Engine::build(CycleLogic, true);
    let upd = eng.updater();
    let snap = eng.commit(upd);
    match eng.read(&snap, KEY_A) {
        Err(EngineError::CycleDetected { chain }) => {
            assert_eq!(chain, vec![KEY_A, KEY_B, KEY_A]);
        },
        other => panic!("expected a cycle error, got {:?}", other),
    }
    match eng.read(&snap, KEY_B) {
        Err(EngineError::CycleDetected { chain }) => {
            assert_eq!(chain, vec![KEY_B, KEY_A, KEY_B]);
        },
        other => panic!("expected a cycle error, got {:?}", other),
    }
    // No value was cached for either key.
    assert_eq!(eng.compute_count(KEY_A), 0);
    assert_eq!(eng.compute_count(KEY_B), 0);
    assert!(!eng.valid_now(KEY_A));
    assert!(!eng.valid_now(KEY_B));
}

#[test]
fn cycle_without_detection_exhausts_budget() {
    // A small budget keeps the undetected cycle's recursion shallow.
    let mut eng = Engine::build_with_budget(CycleLogic, false, 64);
    let upd = eng.updater();
    let snap = eng.commit(upd);
    let r = eng.read(&snap, KEY_A);
    assert!(matches!(r, Err(EngineError::FuelExhausted)));
}

#[test]
fn compute_failure_is_reported_and_retried() {
    let mut eng = Engine::build(CycleLogic, true);
    let upd = eng.updater();
    let snap = eng.commit(upd);
    let r = eng.read(&snap, FAILING);
    assert!(matches!(r, Err(EngineError::ComputeFailed { key: FAILING })));
    // Failures are not cached: a later read attempts the computation
    // again.
    let r = eng.read(&snap, FAILING);
    assert!(matches!(r, Err(EngineError::ComputeFailed { key: FAILING })));
    assert_eq!(eng.compute_count(FAILING), 0);
    assert!(!eng.valid_now(FAILING));
}

const ENCODING: u64 = 100;
const FILE: u64 = 101;

const UTF8: &[u8] = b"utf8";
const ASCII: &[u8] = b"ascii";

/// An injected encoding and a derived file key whose compute function
/// reads the encoding, then the file content from a shared in-memory
/// disk, applying an encoding-specific transformation.
struct FileLogic {
    disk: Rc<RefCell<Vec<u8>>>,
}

impl Logic for FileLogic {
    fn injected_spec(&self, _key: u64) -> bool {
        unreachable!()
    }

    fn step_spec(&self, _key: u64, _reads: ReadList) -> StepSt {
        unreachable!()
    }

    fn eq_spec(&self, _key: u64, _a: Bytes, _b: Bytes) -> bool {
        unreachable!()
    }

    fn injected(&self, key: u64) -> bool {
        key == ENCODING
    }

    fn step(&self, _key: u64, reads: &Vec<(u64, Value)>) -> Step {
        if reads.is_empty() {
            Step::Need(ENCODING)
        } else {
            let content = Value::new(self.disk.borrow().clone());
            let ascii = reads[0].1.bytes == ASCII;
            Step::Done(incr::text::render(&content, ascii))
        }
    }

    fn val_eq(&self, _key: u64, a: &Value, b: &Value) -> bool {
        a.bytes == b.bytes
    }
}

#[test]
fn encoding_file_scenario() {
    let disk = Rc::new(RefCell::new(Vec::new()));
    let mut eng = Engine::build(FileLogic { disk: Rc::clone(&disk) }, true);

    let mut upd = eng.updater();
    upd.set(&eng, ENCODING, val(UTF8)).unwrap();
    let snap = eng.commit(upd);

    *disk.borrow_mut() = b":-)".to_vec();
    let r = eng.read(&snap, FILE).unwrap();
    assert_eq!(r.bytes, b":-)".to_vec());

    // Overwriting the disk out of band changes nothing: the cached
    // value stays until the file key is marked changed.
    *disk.borrow_mut() = b"hello :-)".to_vec();
    let r = eng.read(&snap, FILE).unwrap();
    assert_eq!(r.bytes, b":-)".to_vec());

    let mut upd = eng.updater();
    upd.mark_changed(FILE);
    let snap = eng.commit(upd);
    let r = eng.read(&snap, FILE).unwrap();
    assert_eq!(r.bytes, b"hello :-)".to_vec());

    let mut upd = eng.updater();
    upd.set(&eng, ENCODING, val(ASCII)).unwrap();
    let snap = eng.commit(upd);
    let r = eng.read(&snap, FILE).unwrap();
    assert_eq!(r.bytes, b"hello smile".to_vec());
}

const LEAF_A: u64 = 30;
const LEAF_B: u64 = 31;
const JOIN: u64 = 32;

/// A derived key that reads two leaves and concatenates them.
struct TwoLeafLogic;

impl Logic for TwoLeafLogic {
    fn injected_spec(&self, _key: u64) -> bool {
        unreachable!()
    }

    fn step_spec(&self, _key: u64, _reads: ReadList) -> StepSt {
        unreachable!()
    }

    fn eq_spec(&self, _key: u64, _a: Bytes, _b: Bytes) -> bool {
        unreachable!()
    }

    fn injected(&self, key: u64) -> bool {
        key == LEAF_A || key == LEAF_B
    }

    fn step(&self, _key: u64, reads: &Vec<(u64, Value)>) -> Step {
        if reads.is_empty() {
            Step::Need(LEAF_A)
        } else if reads.len() == 1 {
            Step::Need(LEAF_B)
        } else {
            let mut out = reads[0].1.bytes.clone();
            out.extend_from_slice(&reads[1].1.bytes);
            Step::Done(Value::new(out))
        }
    }

    fn val_eq(&self, _key: u64, a: &Value, b: &Value) -> bool {
        a.bytes == b.bytes
    }
}

#[test]
fn partial_revalidation_recomputes_on_one_changed_leaf() {
    let mut eng = Engine::build(TwoLeafLogic, true);
    let mut upd = eng.updater();
    upd.set(&eng, LEAF_A, val(&[1])).unwrap();
    upd.set(&eng, LEAF_B, val(&[2])).unwrap();
    let snap = eng.commit(upd);
    let r = eng.read(&snap, JOIN).unwrap();
    assert_eq!(r.bytes, vec![1, 2]);
    assert_eq!(eng.compute_count(JOIN), 1);

    // Only the second leaf changes: the re-check passes the first and
    // recomputes on the second, exactly once.
    let mut upd = eng.updater();
    upd.set(&eng, LEAF_B, val(&[9])).unwrap();
    let snap = eng.commit(upd);
    let r = eng.read(&snap, JOIN).unwrap();
    assert_eq!(r.bytes, vec![1, 9]);
    assert_eq!(eng.compute_count(JOIN), 2);

    // Marking a leaf changed without changing its value dirties the
    // derived key, but the re-check revalidates everything.
    let mut upd = eng.updater();
    upd.mark_changed(LEAF_A);
    let snap = eng.commit(upd);
    assert!(!eng.valid_now(JOIN));
    let r = eng.read(&snap, JOIN).unwrap();
    assert_eq!(r.bytes, vec![1, 9]);
    assert_eq!(eng.compute_count(JOIN), 2);
    assert!(eng.valid_now(JOIN));
}

const SWITCH: u64 = 40;
const SRC_A: u64 = 41;
const SRC_B: u64 = 42;
const PICK: u64 = 43;

/// A derived key whose dependencies differ from run to run: it reads a
/// switch leaf, then one of two sources depending on its value.
struct SwitchLogic;

impl Logic for SwitchLogic {
    fn injected_spec(&self, _key: u64) -> bool {
        unreachable!()
    }

    fn step_spec(&self, _key: u64, _reads: ReadList) -> StepSt {
        unreachable!()
    }

    fn eq_spec(&self, _key: u64, _a: Bytes, _b: Bytes) -> bool {
        unreachable!()
    }

    fn injected(&self, key: u64) -> bool {
        key == SWITCH || key == SRC_A || key == SRC_B
    }

    fn step(&self, _key: u64, reads: &Vec<(u64, Value)>) -> Step {
        if reads.is_empty() {
            Step::Need(SWITCH)
        } else if reads.len() == 1 {
            if reads[0].1.bytes == vec![0] {
                Step::Need(SRC_A)
            } else {
                Step::Need(SRC_B)
            }
        } else {
            Step::Done(reads[1].1.clone())
        }
    }

    fn val_eq(&self, _key: u64, a: &Value, b: &Value) -> bool {
        a.bytes == b.bytes
    }
}

#[test]
fn dynamic_dependencies_replace_old_edges() {
    let mut eng = Engine::build(SwitchLogic, true);
    let mut upd = eng.updater();
    upd.set(&eng, SWITCH, val(&[0])).unwrap();
    upd.set(&eng, SRC_A, val(&[5])).unwrap();
    upd.set(&eng, SRC_B, val(&[6])).unwrap();
    let snap = eng.commit(upd);
    let r = eng.read(&snap, PICK).unwrap();
    assert_eq!(r.bytes, vec![5]);
    assert_eq!(eng.compute_count(PICK), 1);

    // The unread source is no dependency: changing it does not dirty
    // the derived key.
    let mut upd = eng.updater();
    upd.set(&eng, SRC_B, val(&[7])).unwrap();
    let snap = eng.commit(upd);
    assert!(eng.valid_now(PICK));
    let r = eng.read(&snap, PICK).unwrap();
    assert_eq!(r.bytes, vec![5]);
    assert_eq!(eng.compute_count(PICK), 1);

    // Flipping the switch recomputes, and the recorded dependencies
    // are replaced by the new run's reads.
    let mut upd = eng.updater();
    upd.set(&eng, SWITCH, val(&[1])).unwrap();
    let snap = eng.commit(upd);
    let r = eng.read(&snap, PICK).unwrap();
    assert_eq!(r.bytes, vec![7]);
    assert_eq!(eng.compute_count(PICK), 2);

    // The formerly read source is no dependency any more.
    let mut upd = eng.updater();
    upd.set(&eng, SRC_A, val(&[8])).unwrap();
    let snap = eng.commit(upd);
    assert!(eng.valid_now(PICK));
    let r = eng.read(&snap, PICK).unwrap();
    assert_eq!(r.bytes, vec![7]);
    assert_eq!(eng.compute_count(PICK), 2);
}

#[test]
fn text_logic_renders_per_encoding() {
    let mut eng = Engine::build(TextLogic {}, true);
    let mut upd = eng.updater();
    upd.set(&eng, ENCODING_KEY, val(b"utf8")).unwrap();
    upd.set(&eng, CONTENT_KEY, val(b"hello :-)")).unwrap();
    let snap = eng.commit(upd);
    let r = eng.read(&snap, RENDERED_KEY).unwrap();
    assert_eq!(r.bytes, b"hello :-)".to_vec());

    let mut upd = eng.updater();
    upd.set(&eng, ENCODING_KEY, val(b"ascii")).unwrap();
    let snap = eng.commit(upd);
    let r = eng.read(&snap, RENDERED_KEY).unwrap();
    assert_eq!(r.bytes, b"hello smile".to_vec());
    assert_eq!(eng.compute_count(RENDERED_KEY), 2);
}

#[test]
fn render_replaces_smileys() {
    let r = render(&val(b":-) a :-):-)"), true);
    assert_eq!(r.bytes, b"smile a smilesmile".to_vec());
    let r = render(&val(b":-) a"), false);
    assert_eq!(r.bytes, b":-) a".to_vec());
    let r = render(&val(b""), true);
    assert_eq!(r.bytes, Vec::<u8>::new());
}

#[test]
fn versions_increase_per_commit() {
    let mut eng = Engine::build(PairLogic, true);
    assert_eq!(eng.current_version(), 0);
    let upd = eng.updater();
    let snap = eng.commit(upd);
    assert_eq!(snap.version(), 1);
    assert_eq!(eng.current_version(), 1);
    let upd = eng.updater();
    let snap = eng.commit(upd);
    assert_eq!(snap.version(), 2);
}
