//! The kernel: the one mutable machine state, changed only by `poke`.
use vstd::prelude::*;
use crate::noun::{Noun, Tree};

verus! {

/// Why the machine could not evaluate an input.
pub enum EvalError {
    /// The computation failed for this input; the state is still sound.
    Failed(String),
    /// The machine reports internal corruption.
    Fatal(String),
}

/// Why a poke did not change the state.
pub enum PokeError {
    /// The input was rejected; the kernel goes on.
    EvaluationFailed(String),
    /// The machine failed fatally; the kernel has halted.
    Fatal(String),
    /// The kernel halted earlier and takes no more inputs.
    Halted,
}

/// The machine that a kernel drives: given the current state and an input,
/// the next state and the effects, or an error.
pub trait Evaluator {
    fn evaluate(&self, state: &Noun, input: &Noun) -> Result<(Noun, Vec<Noun>), EvalError>;
}

/// The values of a sequence of nouns.
pub open spec fn views(v: Seq<Noun>) -> Seq<Tree> {
    v.map_values(|n: Noun| n@)
}

/// Owns the machine state; every change goes through `poke` or `apply`.
pub struct Kernel {
    state: Noun,
    halted: bool,
}

impl Kernel {
    /// The current state.
    pub closed spec fn state(&self) -> Tree {
        self.state@
    }

    /// Whether the kernel has shut down, by request or after a fatal error.
    pub closed spec fn halted(&self) -> bool {
        self.halted
    }

    /// A ready kernel whose state is `initial`.
    pub fn boot(initial: Noun) -> (r: Kernel)
        ensures
            r.state() == initial@,
            !r.halted(),
    {
        Kernel { state: initial, halted: false }
    }

    /// A ready kernel whose state is a checkpointed state; the same as `boot`.
    pub fn restore(checkpoint: Noun) -> (r: Kernel)
        ensures
            r.state() == checkpoint@,
            !r.halted(),
    {
        Kernel::boot(checkpoint)
    }

    /// Applies what the machine returned for one input: on success the state
    /// becomes the new state and the effects are returned; on failure the
    /// state is unchanged, and a fatal failure halts the kernel.
    pub fn apply(&mut self, outcome: Result<(Noun, Vec<Noun>), EvalError>) -> (r: Result<
        Vec<Noun>,
        PokeError,
    >)
        ensures
            old(self).halted() ==> (r matches Err(PokeError::Halted)) && *final(self) == *old(self),
            !old(self).halted() ==> match outcome {
                Ok((s, effects)) => r is Ok && views(r->Ok_0@) == views(effects@)
                    && final(self).state() == s@ && !final(self).halted(),
                Err(EvalError::Failed(m)) => r == Err::<Vec<Noun>, PokeError>(
                    PokeError::EvaluationFailed(m),
                ) && final(self).state() == old(self).state() && !final(self).halted(),
                Err(EvalError::Fatal(m)) => r == Err::<Vec<Noun>, PokeError>(PokeError::Fatal(m))
                    && final(self).state() == old(self).state() && final(self).halted(),
            },
    {
        if self.halted {
            return Err(PokeError::Halted);
        }
        match outcome {
            Ok((s, effects)) => {
                self.state = s;
                Ok(effects)
            },
            Err(EvalError::Failed(m)) => Err(PokeError::EvaluationFailed(m)),
            Err(EvalError::Fatal(m)) => {
                self.halted = true;
                Err(PokeError::Fatal(m))
            },
        }
    }

    /// Evaluates `input` against the current state and applies the outcome.
    /// The state changes only on success: an error leaves it as it was.
    pub fn poke<E: Evaluator>(&mut self, vm: &E, input: &Noun) -> (r: Result<Vec<Noun>, PokeError>)
        ensures
            r is Err ==> final(self).state() == old(self).state(),
            old(self).halted() ==> (r matches Err(PokeError::Halted)) && *final(self) == *old(self),
            !old(self).halted() ==> match r {
                Ok(_) => !final(self).halted(),
                Err(PokeError::EvaluationFailed(_)) => !final(self).halted(),
                Err(PokeError::Fatal(_)) => final(self).halted(),
                Err(PokeError::Halted) => false,
            },
    {
        if self.halted {
            return Err(PokeError::Halted);
        }
        let outcome = vm.evaluate(&self.state, input);
        self.apply(outcome)
    }

    /// The current state, for checkpointing.
    pub fn snapshot(&self) -> (r: &Noun)
        ensures
            r@ == self.state(),
    {
        &self.state
    }

    /// Whether the kernel has halted.
    pub fn is_halted(&self) -> (r: bool)
        ensures
            r == self.halted(),
    {
        self.halted
    }

    /// Stops the kernel; later pokes fail with `Halted`.
    pub fn shutdown(&mut self)
        ensures
            final(self).halted(),
            final(self).state() == old(self).state(),
    {
        self.halted = true;
    }
}

} // verus!
