use nockapp::{
    CheckpointStore, EvalError, EventLoop, Evaluator, Kernel, Noun, OverflowPolicy, PokeError,
    RegisterError, SubmitError, cue, recover_kernel,
};

/// Increments an atom state; emits `[log new]`. Inputs that are cells fail,
/// the atom 99 fails fatally.
struct Counter;

fn value(n: &Noun) -> u64 {
    let b = n.atom_bytes().unwrap();
    let mut v: u64 = 0;
    for (i, x) in b.iter().enumerate() {
        v |= (*x as u64) << (8 * i);
    }
    v
}

fn log() -> Noun {
    Noun::atom(b"log".to_vec())
}

impl Evaluator for Counter {
    fn evaluate(&self, state: &Noun, input: &Noun) -> Result<(Noun, Vec<Noun>), EvalError> {
        if !input.is_atom() {
            return Err(EvalError::Failed("not an atom".to_string()));
        }
        if value(input) == 99 {
            return Err(EvalError::Fatal("corrupt".to_string()));
        }
        let next = value(state) + value(input);
        Ok((Noun::from_u64(next), vec![Noun::cell(log(), Noun::from_u64(next))]))
    }
}

/// Records every input it sees, in order, as its state.
struct Recorder;

impl Evaluator for Recorder {
    fn evaluate(&self, state: &Noun, input: &Noun) -> Result<(Noun, Vec<Noun>), EvalError> {
        Ok((Noun::cell(input.duplicate(), state.duplicate()), vec![]))
    }
}

#[test]
fn increment_scenario() {
    let mut lp = EventLoop::new(Kernel::boot(Noun::from_u64(0)), 4, 10);
    lp.register(1, vec![b"log".to_vec()], 8, OverflowPolicy::DropOldest).unwrap();
    lp.register(2, vec![b"http".to_vec()], 8, OverflowPolicy::DropOldest).unwrap();
    lp.submit(7, Noun::from_u64(1)).ok().unwrap();
    let report = lp.step(&Counter).unwrap();
    assert!(report.result.is_ok());
    assert_eq!(report.driver, 7);
    assert!(lp.snapshot().equals(&Noun::from_u64(1)));
    let got = lp.take_effects(1);
    assert_eq!(got.len(), 1);
    assert!(got[0].equals(&Noun::cell(log(), Noun::from_u64(1))));
    assert!(lp.take_effects(2).is_empty());
    assert!(lp.take_effects(1).is_empty());
}

#[test]
fn failed_poke_keeps_state() {
    let mut k = Kernel::boot(Noun::from_u64(3));
    let before = k.snapshot().duplicate();
    let r = k.poke(&Counter, &Noun::cell(Noun::from_u64(1), Noun::from_u64(2)));
    assert!(matches!(r, Err(PokeError::EvaluationFailed(_))));
    assert!(k.snapshot().equals(&before));
    assert!(!k.is_halted());
}

#[test]
fn fatal_poke_halts_kernel() {
    let mut k = Kernel::restore(Noun::from_u64(3));
    let r = k.poke(&Counter, &Noun::from_u64(99));
    assert!(matches!(r, Err(PokeError::Fatal(_))));
    assert!(k.is_halted());
    assert!(k.snapshot().equals(&Noun::from_u64(3)));
    assert!(matches!(k.poke(&Counter, &Noun::from_u64(1)), Err(PokeError::Halted)));
}

#[test]
fn inputs_apply_in_submission_order() {
    let mut lp = EventLoop::new(Kernel::boot(Noun::from_u64(0)), 4, 10);
    lp.submit(1, Noun::from_u64(11)).ok().unwrap();
    lp.submit(2, Noun::from_u64(22)).ok().unwrap();
    assert_eq!(lp.step(&Recorder).unwrap().driver, 1);
    assert_eq!(lp.step(&Recorder).unwrap().driver, 2);
    assert!(lp.step(&Recorder).is_none());
    let expected = Noun::cell(
        Noun::from_u64(22),
        Noun::cell(Noun::from_u64(11), Noun::from_u64(0)),
    );
    assert!(lp.snapshot().equals(&expected));
}

#[test]
fn effects_delivered_before_next_input() {
    let mut lp = EventLoop::new(Kernel::boot(Noun::from_u64(0)), 4, 10);
    lp.register(1, vec![b"log".to_vec()], 8, OverflowPolicy::DropOldest).unwrap();
    lp.submit(1, Noun::from_u64(1)).ok().unwrap();
    lp.submit(2, Noun::from_u64(2)).ok().unwrap();
    lp.step(&Counter).unwrap();
    assert_eq!(lp.queue_len(), 1);
    let got = lp.take_effects(1);
    assert_eq!(got.len(), 1);
    assert!(got[0].equals(&Noun::cell(log(), Noun::from_u64(1))));
}

#[test]
fn full_queue_hands_input_back() {
    let mut lp = EventLoop::new(Kernel::boot(Noun::from_u64(0)), 1, 10);
    lp.submit(1, Noun::from_u64(1)).ok().unwrap();
    match lp.submit(2, Noun::from_u64(5)) {
        Err(SubmitError::Full(n)) => {
            assert!(n.equals(&Noun::from_u64(5)));
            lp.step(&Counter).unwrap();
            assert!(lp.submit(2, n).is_ok());
        }
        _ => panic!("expected a full queue"),
    }
    lp.step(&Counter).unwrap();
    assert!(lp.snapshot().equals(&Noun::from_u64(6)));
}

#[test]
fn drop_oldest_keeps_newest_effects() {
    let mut lp = EventLoop::new(Kernel::boot(Noun::from_u64(0)), 4, 10);
    lp.register(1, vec![b"log".to_vec()], 1, OverflowPolicy::DropOldest).unwrap();
    lp.submit(1, Noun::from_u64(1)).ok().unwrap();
    lp.submit(1, Noun::from_u64(1)).ok().unwrap();
    lp.step(&Counter).unwrap();
    lp.step(&Counter).unwrap();
    let got = lp.take_effects(1);
    assert_eq!(got.len(), 1);
    assert!(got[0].equals(&Noun::cell(log(), Noun::from_u64(2))));
}

#[test]
fn disconnect_policy_deregisters() {
    let mut lp = EventLoop::new(Kernel::boot(Noun::from_u64(0)), 4, 10);
    lp.register(1, vec![b"log".to_vec()], 1, OverflowPolicy::Disconnect).unwrap();
    lp.submit(1, Noun::from_u64(1)).ok().unwrap();
    lp.submit(1, Noun::from_u64(1)).ok().unwrap();
    lp.step(&Counter).unwrap();
    lp.step(&Counter).unwrap();
    assert!(!lp.deregister(1));
}

#[test]
fn register_errors() {
    let mut lp = EventLoop::new(Kernel::boot(Noun::from_u64(0)), 4, 10);
    assert_eq!(lp.register(1, vec![], 0, OverflowPolicy::DropOldest), Err(RegisterError::ZeroCapacity));
    lp.register(1, vec![], 1, OverflowPolicy::DropOldest).unwrap();
    assert_eq!(lp.register(1, vec![], 1, OverflowPolicy::DropOldest), Err(RegisterError::DuplicateId));
    assert!(lp.deregister(1));
    assert!(!lp.deregister(1));
}

#[test]
fn checkpoint_cadence() {
    let mut lp = EventLoop::new(Kernel::boot(Noun::from_u64(0)), 4, 2);
    lp.submit(1, Noun::from_u64(1)).ok().unwrap();
    lp.submit(1, Noun::from_u64(1)).ok().unwrap();
    assert!(!lp.step(&Counter).unwrap().checkpoint_due);
    assert!(lp.checkpoint_due(5, 5));
    assert!(!lp.checkpoint_due(4, 5));
    assert!(lp.step(&Counter).unwrap().checkpoint_due);
    let mut store = CheckpointStore::new(2);
    lp.checkpoint(&mut store).unwrap();
    assert!(!lp.checkpoint_due(100, 5));
    assert_eq!(store.committed_sequence(), Some(1));
}

#[test]
fn crash_recovery_restores_checkpoint() {
    let mut lp = EventLoop::new(Kernel::boot(Noun::from_u64(0)), 4, 10);
    let mut store = CheckpointStore::new(2);
    lp.submit(1, Noun::from_u64(3)).ok().unwrap();
    lp.step(&Counter).unwrap();
    let img = lp.checkpoint(&mut store).unwrap();
    lp.submit(1, Noun::from_u64(4)).ok().unwrap();
    lp.step(&Counter).unwrap();
    // The process dies here; only the published image survives.
    let reopened = CheckpointStore::open(vec![img], 2);
    let cp = reopened.load_latest().unwrap().unwrap();
    let k = Kernel::restore(cue(&cp.state).unwrap());
    assert!(k.snapshot().equals(&Noun::from_u64(3)));
}

#[test]
fn shutdown_drains_and_checkpoints() {
    let mut lp = EventLoop::new(Kernel::boot(Noun::from_u64(0)), 4, 10);
    let mut store = CheckpointStore::new(2);
    lp.submit(1, Noun::from_u64(2)).ok().unwrap();
    lp.submit(1, Noun::from_u64(3)).ok().unwrap();
    lp.shutdown(&Counter, &mut store).unwrap();
    assert_eq!(lp.queue_len(), 0);
    assert!(lp.kernel_ref().is_halted());
    assert!(!lp.is_accepting());
    assert!(matches!(lp.submit(1, Noun::from_u64(1)), Err(SubmitError::Closed(_))));
    let cp = store.load_latest().unwrap().unwrap();
    assert!(cue(&cp.state).unwrap().equals(&Noun::from_u64(5)));
}

#[test]
fn startup_restores_or_boots() {
    let empty = CheckpointStore::new(2);
    let k = recover_kernel(&empty, Noun::from_u64(7));
    assert!(k.snapshot().equals(&Noun::from_u64(7)));
    assert!(!k.is_halted());

    let mut store = CheckpointStore::new(2);
    let a = store.save(&Noun::from_u64(41), 1).unwrap();
    let mut b = store.save(&Noun::from_u64(42), 2).unwrap();
    b.truncate(b.len() - 1);
    let reopened = CheckpointStore::open(vec![a, b], 2);
    let k = recover_kernel(&reopened, Noun::from_u64(7));
    assert!(k.snapshot().equals(&Noun::from_u64(41)));

    let broken = CheckpointStore::open(vec![vec![0, 1]], 2);
    let k = recover_kernel(&broken, Noun::from_u64(7));
    assert!(k.snapshot().equals(&Noun::from_u64(7)));
}

#[test]
fn deregister_keeps_other_drivers() {
    let mut lp = EventLoop::new(Kernel::boot(Noun::from_u64(0)), 4, 10);
    lp.register(1, vec![b"log".to_vec()], 4, OverflowPolicy::DropOldest).unwrap();
    lp.register(2, vec![b"log".to_vec()], 4, OverflowPolicy::DropOldest).unwrap();
    assert!(lp.deregister(1));
    lp.submit(1, Noun::from_u64(1)).ok().unwrap();
    lp.step(&Counter).unwrap();
    assert!(lp.take_effects(1).is_empty());
    assert_eq!(lp.take_effects(2).len(), 1);
}

#[test]
fn halted_kernel_steps_report_halted() {
    let mut lp = EventLoop::new(Kernel::boot(Noun::from_u64(0)), 4, 10);
    lp.submit(1, Noun::from_u64(99)).ok().unwrap();
    lp.submit(2, Noun::from_u64(1)).ok().unwrap();
    assert!(matches!(lp.step(&Counter).unwrap().result, Err(PokeError::Fatal(_))));
    assert!(lp.kernel_ref().is_halted());
    let report = lp.step(&Counter).unwrap();
    assert_eq!(report.driver, 2);
    assert!(matches!(report.result, Err(PokeError::Halted)));
    assert!(lp.snapshot().equals(&Noun::from_u64(0)));
}
