//! The event loop: one FIFO queue of inputs from all drivers, consumed one at
//! a time by the kernel, with each poke's effects routed to the drivers that
//! subscribe to their selector before the next input is taken.
use vstd::prelude::*;
use crate::kernel::{Evaluator, Kernel, PokeError, views};
use crate::noun::{Noun, Tree, bytes_equal};
use crate::store::{
    CheckpointStore, StoreError, image, SCHEMA_VERSION, keep_last, latest, payload_of,
    lemma_latest_is_highest,
};
use crate::codec::{cue, decode, encode, DEFAULT_MAX_DEPTH};

verus! {

/// What happens when an effect arrives for a driver whose queue is full.
#[derive(PartialEq, Eq, Structural, Clone, Copy, Debug)]
pub enum OverflowPolicy {
    /// The oldest queued effect is dropped to make room.
    DropOldest,
    /// The driver is deregistered.
    Disconnect,
}

/// An input noun and the driver that submitted it.
pub struct Input {
    pub driver: u64,
    pub noun: Noun,
}

/// A registered driver and the effects waiting for it.
pub struct Driver {
    id: u64,
    selectors: Vec<Vec<u8>>,
    outbox: Vec<Noun>,
    capacity: usize,
    policy: OverflowPolicy,
}

/// What a driver is to the loop: its id, the selectors it wants, its
/// waiting effects, their bound and its overflow policy.
pub struct DriverView {
    pub id: u64,
    pub selectors: Seq<Seq<u8>>,
    pub outbox: Seq<Tree>,
    pub capacity: nat,
    pub policy: OverflowPolicy,
}

impl View for Driver {
    type V = DriverView;

    closed spec fn view(&self) -> DriverView {
        DriverView {
            id: self.id,
            selectors: self.selectors@.map_values(|v: Vec<u8>| v@),
            outbox: views(self.outbox@),
            capacity: self.capacity as nat,
            policy: self.policy,
        }
    }
}

/// The views of a sequence of drivers.
pub open spec fn driver_views(v: Seq<Driver>) -> Seq<DriverView> {
    v.map_values(|d: Driver| d@)
}

/// Each queued input as its driver and value.
pub open spec fn input_views(v: Seq<Input>) -> Seq<(u64, Tree)> {
    v.map_values(|i: Input| (i.driver, i.noun@))
}

/// The selector of an effect: the atom at its head.
pub open spec fn selector(e: Tree) -> Option<Seq<u8>> {
    match e {
        Tree::Cell(h, _) => match *h {
            Tree::Atom(s) => Some(s),
            Tree::Cell(_, _) => None,
        },
        Tree::Atom(_) => None,
    }
}

/// Whether a driver subscribes to an effect's selector.
pub open spec fn wants(d: DriverView, e: Tree) -> bool {
    selector(e) is Some && d.selectors.contains(selector(e)->0)
}

/// The driver after one effect is offered to it; `None` when it is disconnected.
pub open spec fn deliver_one(d: DriverView, e: Tree) -> Option<DriverView> {
    if !wants(d, e) {
        Some(d)
    } else if d.outbox.len() < d.capacity {
        Some(DriverView { outbox: d.outbox.push(e), ..d })
    } else {
        match d.policy {
            OverflowPolicy::DropOldest => Some(DriverView { outbox: d.outbox.drop_first().push(e), ..d }),
            OverflowPolicy::Disconnect => None,
        }
    }
}

/// The drivers after one effect is offered to each, in order.
pub open spec fn deliver(ds: Seq<DriverView>, e: Tree) -> Seq<DriverView>
    decreases ds.len(),
{
    if ds.len() == 0 {
        ds
    } else {
        let rest = deliver(ds.drop_first(), e);
        match deliver_one(ds[0], e) {
            Some(d) => seq![d] + rest,
            None => rest,
        }
    }
}

/// The drivers after the effects are delivered one after another.
pub open spec fn route(ds: Seq<DriverView>, effects: Seq<Tree>) -> Seq<DriverView>
    decreases effects.len(),
{
    if effects.len() == 0 {
        ds
    } else {
        route(deliver(ds, effects[0]), effects.drop_first())
    }
}

/// The order in which inputs reach the kernel: after `k` steps from queue `q`
/// and polled history `h`, the history.
pub open spec fn polled_after(q: Seq<(u64, Tree)>, h: Seq<(u64, Tree)>, k: nat) -> Seq<(u64, Tree)>
    decreases k,
{
    if k == 0 || q.len() == 0 {
        h
    } else {
        polled_after(q.drop_first(), h.push(q[0]), (k - 1) as nat)
    }
}

/// Why a driver's input was not queued; the input is handed back.
pub enum SubmitError {
    /// The queue is at capacity: wait until a step frees a slot, then retry.
    Full(Noun),
    /// The loop is shutting down and takes no new inputs.
    Closed(Noun),
}

/// Why a driver was not registered.
#[derive(PartialEq, Eq, Structural, Clone, Copy, Debug)]
pub enum RegisterError {
    DuplicateId,
    ZeroCapacity,
}

/// The outcome of one step.
pub struct StepReport {
    /// The driver whose input was applied.
    pub driver: u64,
    pub result: Result<(), PokeError>,
    /// Enough successful pokes have passed that a checkpoint is due.
    pub checkpoint_due: bool,
}

/// The only owner of the kernel: inputs reach it through the queue, effects
/// leave it through the drivers' queues.
pub struct EventLoop {
    kernel: Kernel,
    queue: Vec<Input>,
    capacity: usize,
    drivers: Vec<Driver>,
    cadence: u64,
    since_checkpoint: u64,
    accepting: bool,
    polled: Ghost<Seq<(u64, Tree)>>,
}

impl EventLoop {
    pub closed spec fn queue(&self) -> Seq<(u64, Tree)> {
        input_views(self.queue@)
    }

    pub closed spec fn capacity(&self) -> nat {
        self.capacity as nat
    }

    pub closed spec fn drivers(&self) -> Seq<DriverView> {
        driver_views(self.drivers@)
    }

    /// Every input taken from the queue so far, in the order taken.
    pub closed spec fn polled(&self) -> Seq<(u64, Tree)> {
        self.polled@
    }

    pub closed spec fn kernel(&self) -> Kernel {
        self.kernel
    }

    pub closed spec fn accepting(&self) -> bool {
        self.accepting
    }

    pub closed spec fn since_checkpoint(&self) -> nat {
        self.since_checkpoint as nat
    }

    pub closed spec fn cadence(&self) -> nat {
        self.cadence as nat
    }

    /// Driver ids are unique, every driver can hold at least one waiting
    /// effect, and the input queue stays within its capacity.
    pub open spec fn wf(&self) -> bool {
        &&& self.capacity() >= 1
        &&& self.cadence() >= 1
        &&& self.queue().len() <= self.capacity()
        &&& ids_unique(self.drivers())
        &&& caps_positive(self.drivers())
    }

    /// A loop around `kernel` whose input queue holds at most `capacity`
    /// inputs and which calls for a checkpoint every `cadence` successful pokes.
    pub fn new(kernel: Kernel, capacity: usize, cadence: u64) -> (r: EventLoop)
        requires
            capacity >= 1,
            cadence >= 1,
        ensures
            r.wf(),
            r.kernel() == kernel,
            r.queue().len() == 0,
            r.drivers().len() == 0,
            r.polled().len() == 0,
            r.capacity() == capacity,
            r.cadence() == cadence,
            r.since_checkpoint() == 0,
            r.accepting(),
    {
        let r = EventLoop {
            kernel,
            queue: Vec::new(),
            capacity,
            drivers: Vec::new(),
            cadence,
            since_checkpoint: 0,
            accepting: true,
            polled: Ghost(Seq::empty()),
        };
        assert(r.queue() =~= Seq::empty());
        assert(r.drivers() =~= Seq::empty());
        r
    }

    /// Registers a driver that wants the effects whose selector is one of
    /// `selectors`, with an effect queue of `capacity` and its overflow policy.
    pub fn register(
        &mut self,
        id: u64,
        selectors: Vec<Vec<u8>>,
        capacity: usize,
        policy: OverflowPolicy,
    ) -> (r: Result<(), RegisterError>)
        requires
            old(self).wf(),
        ensures
            final(self).wf(),
            final(self).queue() == old(self).queue(),
            final(self).polled() == old(self).polled(),
            final(self).kernel() == old(self).kernel(),
            final(self).accepting() == old(self).accepting(),
            final(self).cadence() == old(self).cadence(),
            final(self).capacity() == old(self).capacity(),
            final(self).since_checkpoint() == old(self).since_checkpoint(),
            capacity == 0 ==> r == Err::<(), RegisterError>(RegisterError::ZeroCapacity),
            capacity > 0 && has_id(old(self).drivers(), id) ==> r == Err::<(), RegisterError>(
                RegisterError::DuplicateId,
            ),
            r is Err ==> final(self).drivers() == old(self).drivers(),
            capacity > 0 && !has_id(old(self).drivers(), id) ==> r is Ok && final(self).drivers()
                == old(self).drivers().push(
                DriverView {
                    id,
                    selectors: selectors@.map_values(|v: Vec<u8>| v@),
                    outbox: Seq::empty(),
                    capacity: capacity as nat,
                    policy,
                },
            ),
    {
        if capacity == 0 {
            return Err(RegisterError::ZeroCapacity);
        }
        if self.find(id).is_some() {
            return Err(RegisterError::DuplicateId);
        }
        let ghost before = self.drivers();
        let d = Driver { id, selectors, outbox: Vec::new(), capacity, policy };
        assert(d@.outbox =~= Seq::<Tree>::empty());
        self.drivers.push(d);
        assert(self.drivers() =~= before.push(d@));
        assert forall|i: int, j: int|
            0 <= i < j < self.drivers().len() implies #[trigger] self.drivers()[i].id
            != #[trigger] self.drivers()[j].id by {
            if j == before.len() {
                if self.drivers()[i].id == id {
                    assert(before[i].id == id);
                    assert(has_id(before, id));
                }
            }
        }
        Ok(())
    }

    fn find(&self, id: u64) -> (r: Option<usize>)
        ensures
            match r {
                Some(i) => i < self.drivers().len() && self.drivers()[i as int].id == id,
                None => !has_id(self.drivers(), id),
            },
    {
        let mut i: usize = 0;
        while i < self.drivers.len()
            invariant
                i <= self.drivers@.len(),
                forall|k: int| 0 <= k < i ==> (#[trigger] self.drivers()[k]).id != id,
            decreases self.drivers.len() - i,
        {
            if self.drivers[i].id == id {
                return Some(i);
            }
            i = i + 1;
        }
        None
    }

    /// Removes a driver; effects waiting for it are discarded. Returns
    /// whether it was registered.
    pub fn deregister(&mut self, id: u64) -> (r: bool)
        requires
            old(self).wf(),
        ensures
            final(self).wf(),
            r == has_id(old(self).drivers(), id),
            !has_id(final(self).drivers(), id),
            !r ==> final(self).drivers() == old(self).drivers(),
            forall|k: int|
                0 <= k < old(self).drivers().len() && (#[trigger] old(self).drivers()[k]).id == id
                    ==> final(self).drivers() == old(self).drivers().remove(k),
            forall|x: u64| x != id ==> (has_id(final(self).drivers(), x) == has_id(old(self).drivers(), x)),
            final(self).queue() == old(self).queue(),
            final(self).polled() == old(self).polled(),
            final(self).kernel() == old(self).kernel(),
            final(self).accepting() == old(self).accepting(),
            final(self).cadence() == old(self).cadence(),
            final(self).capacity() == old(self).capacity(),
            final(self).since_checkpoint() == old(self).since_checkpoint(),
    {
        match self.find(id) {
            None => false,
            Some(i) => {
                let ghost before = self.drivers();
                self.drivers.remove(i);
                assert(self.drivers() =~= before.remove(i as int));
                assert forall|x: u64| #![auto] has_id(before, x) && x != id implies has_id(self.drivers(), x) by {
                    let k = choose|k: int| 0 <= k < before.len() && (#[trigger] before[k]).id == x;
                    if k < i {
                        assert(self.drivers()[k] == before[k]);
                    } else {
                        assert(k != i);
                        assert(self.drivers()[k - 1] == before[k]);
                    }
                }
                assert forall|x: u64| #![auto] has_id(self.drivers(), x) implies has_id(before, x) && x != id by {
                    let k = choose|k: int| 0 <= k < self.drivers().len() && (#[trigger] self.drivers()[k]).id == x;
                    if k < i {
                        assert(self.drivers()[k] == before[k]);
                    } else {
                        assert(self.drivers()[k] == before[k + 1]);
                    }
                }
                true
            },
        }
    }

    /// Queues an input from `driver`. A full queue or a loop that is shutting
    /// down hands the input back: no input is ever dropped.
    pub fn submit(&mut self, driver: u64, input: Noun) -> (r: Result<(), SubmitError>)
        requires
            old(self).wf(),
        ensures
            final(self).wf(),
            final(self).drivers() == old(self).drivers(),
            final(self).polled() == old(self).polled(),
            final(self).kernel() == old(self).kernel(),
            final(self).accepting() == old(self).accepting(),
            final(self).cadence() == old(self).cadence(),
            final(self).capacity() == old(self).capacity(),
            final(self).since_checkpoint() == old(self).since_checkpoint(),
            !old(self).accepting() ==> (r matches Err(SubmitError::Closed(n)) && n@ == input@)
                && final(self).queue() == old(self).queue(),
            old(self).accepting() && old(self).queue().len() >= old(self).capacity() ==> (r matches Err(
                SubmitError::Full(n),
            ) && n@ == input@) && final(self).queue() == old(self).queue(),
            old(self).accepting() && old(self).queue().len() < old(self).capacity() ==> r is Ok
                && final(self).queue() == old(self).queue().push((driver, input@)),
    {
        if !self.accepting {
            return Err(SubmitError::Closed(input));
        }
        if self.queue.len() >= self.capacity {
            return Err(SubmitError::Full(input));
        }
        let ghost before = self.queue();
        let ghost iv = input@;
        self.queue.push(Input { driver, noun: input });
        assert(self.queue() =~= before.push((driver, iv)));
        Ok(())
    }

    /// Hands the effects waiting for driver `id` over to it, oldest first.
    pub fn take_effects(&mut self, id: u64) -> (r: Vec<Noun>)
        requires
            old(self).wf(),
        ensures
            final(self).wf(),
            final(self).queue() == old(self).queue(),
            final(self).polled() == old(self).polled(),
            final(self).kernel() == old(self).kernel(),
            final(self).accepting() == old(self).accepting(),
            final(self).cadence() == old(self).cadence(),
            final(self).capacity() == old(self).capacity(),
            final(self).since_checkpoint() == old(self).since_checkpoint(),
            final(self).drivers().len() == old(self).drivers().len(),
            !has_id(old(self).drivers(), id) ==> r@.len() == 0 && final(self).drivers()
                == old(self).drivers(),
            forall|k: int|
                0 <= k < old(self).drivers().len() && (#[trigger] old(self).drivers()[k]).id == id
                    ==> views(r@) == old(self).drivers()[k].outbox && final(self).drivers()
                    == old(self).drivers().update(
                    k,
                    DriverView { outbox: Seq::empty(), ..old(self).drivers()[k] },
                ),
    {
        match self.find(id) {
            None => Vec::new(),
            Some(i) => {
                let ghost before = self.drivers();
                let mut ds: Vec<Driver> = Vec::new();
                std::mem::swap(&mut self.drivers, &mut ds);
                let mut d = ds.remove(i);
                let mut out: Vec<Noun> = Vec::new();
                std::mem::swap(&mut d.outbox, &mut out);
                assert(views(d.outbox@) =~= Seq::<Tree>::empty());
                ds.insert(i, d);
                self.drivers = ds;
                assert(self.drivers() =~= before.update(
                    i as int,
                    DriverView { outbox: Seq::empty(), ..before[i as int] },
                ));
                proof {
                    assert forall|k: int|
                        0 <= k < before.len() && (#[trigger] before[k]).id == id implies k == i by {
                        if k != i {
                            if k < i {
                                assert(before[k].id != before[i as int].id);
                            } else {
                                assert(before[i as int].id != before[k].id);
                            }
                        }
                    }
                }
                out
            },
        }
    }

    /// Delivers effects to the drivers that want them, one effect after another.
    pub fn dispatch(&mut self, effects: Vec<Noun>)
        requires
            old(self).wf(),
        ensures
            final(self).wf(),
            final(self).drivers() == route(old(self).drivers(), views(effects@)),
            final(self).queue() == old(self).queue(),
            final(self).polled() == old(self).polled(),
            final(self).kernel() == old(self).kernel(),
            final(self).accepting() == old(self).accepting(),
            final(self).cadence() == old(self).cadence(),
            final(self).capacity() == old(self).capacity(),
            final(self).since_checkpoint() == old(self).since_checkpoint(),
    {
        let ghost es = views(effects@);
        let ghost orig = self.drivers();
        proof {
            lemma_route_keeps(orig, es);
        }
        let mut ds: Vec<Driver> = Vec::new();
        std::mem::swap(&mut self.drivers, &mut ds);
        assert(es.subrange(0, es.len() as int) =~= es);
        let mut i: usize = 0;
        while i < effects.len()
            invariant
                es == views(effects@),
                i <= effects@.len(),
                route(driver_views(ds@), es.subrange(i as int, es.len() as int)) == route(orig, es),
                caps_positive(driver_views(ds@)),
            decreases effects.len() - i,
        {
            let ghost cur = driver_views(ds@);
            proof {
                lemma_deliver_keeps(cur, es[i as int]);
                assert(es.subrange(i as int, es.len() as int).drop_first() =~= es.subrange(
                    i + 1,
                    es.len() as int,
                ));
            }
            assert forall|k: int| 0 <= k < ds@.len() implies (#[trigger] ds@[k])@.capacity >= 1 by {
                assert(cur[k] == ds@[k]@);
            }
            ds = deliver_all(ds, &effects[i]);
            i = i + 1;
        }
        assert(es.subrange(es.len() as int, es.len() as int) =~= Seq::<Tree>::empty());
        self.drivers = ds;
    }

    /// Takes the oldest input, pokes the kernel with it and, on success,
    /// delivers the effects before returning; `None` when the queue is empty.
    pub fn step<E: Evaluator>(&mut self, vm: &E) -> (r: Option<StepReport>)
        requires
            old(self).wf(),
        ensures
            final(self).wf(),
            final(self).accepting() == old(self).accepting(),
            final(self).cadence() == old(self).cadence(),
            final(self).capacity() == old(self).capacity(),
            old(self).queue().len() == 0 ==> {
                &&& r is None
                &&& final(self).queue() == old(self).queue()
                &&& final(self).polled() == old(self).polled()
                &&& final(self).drivers() == old(self).drivers()
                &&& final(self).kernel() == old(self).kernel()
                &&& final(self).since_checkpoint() == old(self).since_checkpoint()
            },
            old(self).queue().len() > 0 ==> {
                &&& r is Some
                &&& r->0.driver == old(self).queue()[0].0
                &&& final(self).queue() == old(self).queue().drop_first()
                &&& final(self).polled() == old(self).polled().push(old(self).queue()[0])
                &&& r->0.checkpoint_due == (final(self).since_checkpoint() >= final(self).cadence())
                &&& old(self).kernel().halted() <==> (r->0.result matches Err(PokeError::Halted))
                &&& old(self).kernel().halted() ==> final(self).kernel() == old(self).kernel()
                &&& !old(self).kernel().halted() ==> match r->0.result {
                    Ok(_) => !final(self).kernel().halted(),
                    Err(PokeError::EvaluationFailed(_)) => !final(self).kernel().halted(),
                    Err(PokeError::Fatal(_)) => final(self).kernel().halted(),
                    Err(PokeError::Halted) => false,
                }
                &&& r->0.result is Err ==> {
                    &&& final(self).kernel().state() == old(self).kernel().state()
                    &&& final(self).drivers() == old(self).drivers()
                    &&& final(self).since_checkpoint() == old(self).since_checkpoint()
                }
                &&& r->0.result is Ok ==> {
                    &&& exists|effects: Seq<Tree>|
                        final(self).drivers() == #[trigger] route(old(self).drivers(), effects)
                    &&& final(self).since_checkpoint() == if old(self).since_checkpoint()
                        < u64::MAX {
                        old(self).since_checkpoint() + 1
                    } else {
                        old(self).since_checkpoint()
                    }
                }
            },
    {
        if self.queue.len() == 0 {
            return None;
        }
        let ghost q = self.queue();
        let input = self.queue.remove(0);
        assert(self.queue() =~= q.drop_first());
        proof {
            self.polled = Ghost(self.polled@.push(q[0]));
        }
        let ghost d0 = self.drivers();
        let result = match self.kernel.poke(vm, &input.noun) {
            Ok(effects) => {
                let ghost es = views(effects@);
                self.dispatch(effects);
                assert(self.drivers() == route(d0, es));
                if self.since_checkpoint < u64::MAX {
                    self.since_checkpoint = self.since_checkpoint + 1;
                }
                Ok(())
            },
            Err(e) => Err(e),
        };
        let due = self.since_checkpoint >= self.cadence;
        Some(StepReport { driver: input.driver, result, checkpoint_due: due })
    }

    /// Saves the kernel's state under the sequence after the store's
    /// committed one, and starts counting pokes afresh. Returns the image to
    /// publish; fails with `Stale` only when no greater sequence is left.
    pub fn checkpoint(&mut self, store: &mut CheckpointStore) -> (r: Result<Vec<u8>, StoreError>)
        requires
            old(self).wf(),
            old(store).wf(),
        ensures
            final(self).wf(),
            final(store).wf(),
            final(self).queue() == old(self).queue(),
            final(self).polled() == old(self).polled(),
            final(self).drivers() == old(self).drivers(),
            final(self).kernel() == old(self).kernel(),
            final(self).accepting() == old(self).accepting(),
            final(self).cadence() == old(self).cadence(),
            final(self).capacity() == old(self).capacity(),
            final(store).history() == old(store).history(),
            old(store).committed() == Some(u64::MAX) ==> r == Err::<Vec<u8>, StoreError>(
                StoreError::Stale,
            ) && final(store).images() == old(store).images() && final(store).committed()
                == old(store).committed() && final(self).since_checkpoint() == old(
                self,
            ).since_checkpoint(),
            old(store).committed() != Some(u64::MAX) ==> {
                let seq: u64 = match old(store).committed() {
                    Some(c) => (c + 1) as u64,
                    None => 1,
                };
                &&& r is Ok
                &&& r->Ok_0@ == image(SCHEMA_VERSION, seq, encode(old(self).kernel().state()))
                &&& final(store).images() == keep_last(
                    old(store).images().push(r->Ok_0@),
                    old(store).history(),
                )
                &&& final(store).committed() == Some(seq)
                &&& final(self).since_checkpoint() == 0
            },
    {
        let seq: u64 = match store.committed_sequence() {
            Some(c) => {
                if c == u64::MAX {
                    return Err(StoreError::Stale);
                }
                c + 1
            },
            None => 1,
        };
        let r = store.save(self.kernel.snapshot(), seq);
        if r.is_ok() {
            self.since_checkpoint = 0;
        }
        r
    }

    /// Stops taking inputs, applies every input already queued, in order,
    /// takes a final checkpoint and halts the kernel. Returns the outcome of
    /// the checkpoint.
    pub fn shutdown<E: Evaluator>(&mut self, vm: &E, store: &mut CheckpointStore) -> (r: Result<
        Vec<u8>,
        StoreError,
    >)
        requires
            old(self).wf(),
            old(store).wf(),
        ensures
            final(self).wf(),
            final(store).wf(),
            !final(self).accepting(),
            final(self).queue().len() == 0,
            final(self).polled() == old(self).polled() + old(self).queue(),
            final(self).kernel().halted(),
            final(store).history() == old(store).history(),
            old(store).committed() == Some(u64::MAX) ==> r == Err::<Vec<u8>, StoreError>(
                StoreError::Stale,
            ) && final(store).images() == old(store).images() && final(store).committed()
                == old(store).committed(),
            old(store).committed() != Some(u64::MAX) ==> {
                let seq: u64 = match old(store).committed() {
                    Some(c) => (c + 1) as u64,
                    None => 1,
                };
                &&& r is Ok
                &&& r->Ok_0@ == image(SCHEMA_VERSION, seq, encode(final(self).kernel().state()))
                &&& final(store).images() == keep_last(
                    old(store).images().push(r->Ok_0@),
                    old(store).history(),
                )
                &&& final(store).committed() == Some(seq)
            },
    {
        self.accepting = false;
        while self.queue.len() > 0
            invariant
                self.wf(),
                store.wf(),
                *store == *old(store),
                !self.accepting,
                self.polled() + self.queue() == old(self).polled() + old(self).queue(),
            decreases self.queue@.len(),
        {
            let ghost p = self.polled();
            let ghost q = self.queue();
            self.step(vm);
            assert(p.push(q[0]) + q.drop_first() =~= p + q);
        }
        assert(self.polled() + Seq::<(u64, Tree)>::empty() =~= self.polled());
        let r = self.checkpoint(store);
        self.kernel.shutdown();
        r
    }

    /// A checkpoint is due after `cadence` successful pokes, or once
    /// `elapsed` reaches `interval` (both in the caller's unit of time) with
    /// at least one poke since the last checkpoint.
    pub fn checkpoint_due(&self, elapsed: u64, interval: u64) -> (r: bool)
        ensures
            r == (self.since_checkpoint() >= self.cadence() || (self.since_checkpoint() > 0
                && elapsed >= interval)),
    {
        self.since_checkpoint >= self.cadence || (self.since_checkpoint > 0 && elapsed >= interval)
    }

    /// The kernel's current state.
    pub fn snapshot(&self) -> (r: &Noun)
        ensures
            r@ == self.kernel().state(),
    {
        self.kernel.snapshot()
    }

    /// The kernel.
    pub fn kernel_ref(&self) -> (r: &Kernel)
        ensures
            *r == self.kernel(),
    {
        &self.kernel
    }

    /// The number of queued inputs.
    pub fn queue_len(&self) -> (r: usize)
        ensures
            r == self.queue().len(),
    {
        self.queue.len()
    }

    /// Whether new inputs are taken.
    pub fn is_accepting(&self) -> (r: bool)
        ensures
            r == self.accepting(),
    {
        self.accepting
    }
}


fn has_selector(sels: &Vec<Vec<u8>>, s: &Vec<u8>) -> (r: bool)
    ensures
        r == sels@.map_values(|v: Vec<u8>| v@).contains(s@),
{
    let ghost sv = sels@.map_values(|v: Vec<u8>| v@);
    let mut i: usize = 0;
    while i < sels.len()
        invariant
            sv == sels@.map_values(|v: Vec<u8>| v@),
            i <= sels@.len(),
            forall|j: int| 0 <= j < i ==> sv[j] != s@,
        decreases sels.len() - i,
    {
        if bytes_equal(&sels[i], s) {
            assert(sv[i as int] == s@);
            return true;
        }
        i = i + 1;
    }
    false
}

fn selector_of(e: &Noun) -> (r: Option<&Vec<u8>>)
    ensures
        match selector(e@) {
            Some(s) => r is Some && r->0@ == s,
            None => r is None,
        },
{
    match e {
        Noun::Cell(h, t) => {
            assert(e@ == Tree::Cell(Box::new((**h)@), Box::new((**t)@)));
            match &**h {
                Noun::Atom(b) => {
                    assert((**h)@ == Tree::Atom(b@));
                    Some(b)
                },
                Noun::Cell(_, _) => None,
            }
        },
        Noun::Atom(_) => None,
    }
}

fn deliver_to(d: Driver, e: &Noun) -> (r: Option<Driver>)
    requires
        d@.capacity >= 1,
    ensures
        match deliver_one(d@, e@) {
            Some(v) => r is Some && r->0@ == v,
            None => r is None,
        },
{
    let wanted = match selector_of(e) {
        Some(s) => has_selector(&d.selectors, s),
        None => false,
    };
    if !wanted {
        return Some(d);
    }
    let mut d = d;
    let ghost ob = views(d.outbox@);
    if d.outbox.len() < d.capacity {
        d.outbox.push(e.duplicate());
        assert(views(d.outbox@) =~= ob.push(e@));
        Some(d)
    } else {
        match d.policy {
            OverflowPolicy::DropOldest => {
                d.outbox.remove(0);
                d.outbox.push(e.duplicate());
                assert(views(d.outbox@) =~= ob.drop_first().push(e@));
                Some(d)
            },
            OverflowPolicy::Disconnect => None,
        }
    }
}

/// Whether some driver has the id `x`.
pub open spec fn has_id(ds: Seq<DriverView>, x: u64) -> bool {
    exists|k: int| 0 <= k < ds.len() && (#[trigger] ds[k]).id == x
}

/// No two drivers share an id.
pub open spec fn ids_unique(ds: Seq<DriverView>) -> bool {
    forall|i: int, j: int| 0 <= i < j < ds.len() ==> #[trigger] ds[i].id != #[trigger] ds[j].id
}

/// Every driver can hold at least one effect.
pub open spec fn caps_positive(ds: Seq<DriverView>) -> bool {
    forall|i: int| 0 <= i < ds.len() ==> #[trigger] ds[i].capacity >= 1
}

proof fn lemma_deliver_keeps(ds: Seq<DriverView>, e: Tree)
    ensures
        forall|x: u64| has_id(deliver(ds, e), x) ==> has_id(ds, x),
        ids_unique(ds) ==> ids_unique(deliver(ds, e)),
        caps_positive(ds) ==> caps_positive(deliver(ds, e)),
    decreases ds.len(),
{
    if ds.len() > 0 {
        let tl = ds.drop_first();
        lemma_deliver_keeps(tl, e);
        let rest = deliver(tl, e);
        assert forall|x: u64| has_id(tl, x) implies has_id(ds, x) by {
            let k = choose|k: int| 0 <= k < tl.len() && (#[trigger] tl[k]).id == x;
            assert(ds[k + 1] == tl[k]);
        }
        match deliver_one(ds[0], e) {
            Some(d) => {
                let r = seq![d] + rest;
                assert(r =~= deliver(ds, e));
                assert forall|x: u64| has_id(r, x) implies has_id(ds, x) by {
                    let k = choose|k: int| 0 <= k < r.len() && (#[trigger] r[k]).id == x;
                    if k == 0 {
                        assert(ds[0].id == x);
                    } else {
                        assert(r[k] == rest[k - 1]);
                        assert(has_id(rest, x));
                    }
                }
                if ids_unique(ds) {
                    assert(ids_unique(tl));
                    assert forall|i: int, j: int| 0 <= i < j < r.len() implies #[trigger] r[i].id
                        != #[trigger] r[j].id by {
                        if i == 0 {
                            assert(r[j] == rest[j - 1]);
                            if r[j].id == d.id {
                                assert(has_id(rest, d.id));
                                assert(has_id(tl, d.id));
                                let k = choose|k: int| 0 <= k < tl.len() && (#[trigger] tl[k]).id == d.id;
                                assert(ds[k + 1] == tl[k]);
                            }
                        } else {
                            assert(r[i] == rest[i - 1]);
                            assert(r[j] == rest[j - 1]);
                        }
                    }
                }
                if caps_positive(ds) {
                    assert(caps_positive(tl));
                    assert forall|i: int| 0 <= i < r.len() implies #[trigger] r[i].capacity >= 1 by {
                        if i > 0 {
                            assert(r[i] == rest[i - 1]);
                        }
                    }
                }
            },
            None => {
                if ids_unique(ds) {
                    assert(ids_unique(tl));
                }
                if caps_positive(ds) {
                    assert(caps_positive(tl));
                }
            },
        }
    }
}

/// The drivers after all effects are routed keep unique ids and positive capacities.
proof fn lemma_route_keeps(ds: Seq<DriverView>, effects: Seq<Tree>)
    ensures
        ids_unique(ds) ==> ids_unique(route(ds, effects)),
        caps_positive(ds) ==> caps_positive(route(ds, effects)),
    decreases effects.len(),
{
    if effects.len() > 0 {
        lemma_deliver_keeps(ds, effects[0]);
        lemma_route_keeps(deliver(ds, effects[0]), effects.drop_first());
    }
}

fn deliver_all(drivers: Vec<Driver>, e: &Noun) -> (r: Vec<Driver>)
    requires
        forall|i: int| 0 <= i < drivers@.len() ==> (#[trigger] drivers@[i])@.capacity >= 1,
    ensures
        driver_views(r@) == deliver(driver_views(drivers@), e@),
{
    let ghost all = driver_views(drivers@);
    let mut rest = drivers;
    let mut out: Vec<Driver> = Vec::new();
    while rest.len() > 0
        invariant
            forall|i: int| 0 <= i < rest@.len() ==> (#[trigger] rest@[i])@.capacity >= 1,
            driver_views(out@) + deliver(driver_views(rest@), e@) == deliver(all, e@),
        decreases rest.len(),
    {
        let ghost rv = driver_views(rest@);
        let ghost ov = driver_views(out@);
        let d = rest.remove(0);
        assert(driver_views(rest@) =~= rv.drop_first());
        assert(rv[0] == d@);
        match deliver_to(d, e) {
            Some(d2) => {
                out.push(d2);
                assert(driver_views(out@) =~= ov.push(d2@));
                assert(ov + (seq![d2@] + deliver(rv.drop_first(), e@)) =~= ov.push(d2@) + deliver(
                    rv.drop_first(),
                    e@,
                ));
            },
            None => {},
        }
    }
    assert(driver_views(rest@) =~= Seq::<DriverView>::empty());
    assert(driver_views(out@) + Seq::<DriverView>::empty() =~= driver_views(out@));
    out
}


/// The kernel to start with: restored from the latest valid checkpoint, or
/// booted from `initial` when the store holds none or none is valid.
pub fn recover_kernel(store: &CheckpointStore, initial: Noun) -> (r: Kernel)
    ensures
        !r.halted(),
        match latest(store.images()) {
            Some(i) => decode(payload_of(store.images()[i]), DEFAULT_MAX_DEPTH as nat) == Ok::<
                Tree,
                crate::codec::DecodeError,
            >(r.state()),
            None => r.state() == initial@,
        },
{
    proof {
        lemma_latest_is_highest(store.images());
    }
    match store.load_latest() {
        Ok(Some(cp)) => match cue(cp.state.as_slice()) {
            Ok(n) => Kernel::restore(n),
            Err(_) => Kernel::boot(initial),
        },
        _ => Kernel::boot(initial),
    }
}

/// Inputs reach the kernel in queue order: taking every queued input appends
/// the queue to the history as it stands.
pub proof fn lemma_polled_in_order(q: Seq<(u64, Tree)>, h: Seq<(u64, Tree)>)
    ensures
        polled_after(q, h, q.len()) == h + q,
    decreases q.len(),
{
    if q.len() > 0 {
        lemma_polled_in_order(q.drop_first(), h.push(q[0]));
        assert(h.push(q[0]) + q.drop_first() =~= h + q);
    } else {
        assert(h + q =~= h);
    }
}

/// An input submitted before another, from whatever drivers, reaches the
/// kernel first: after both are taken, `i1` stands right before `i2`, after
/// everything queued earlier.
pub proof fn lemma_fifo_order(
    q: Seq<(u64, Tree)>,
    h: Seq<(u64, Tree)>,
    i1: (u64, Tree),
    i2: (u64, Tree),
)
    ensures
        polled_after(q.push(i1).push(i2), h, q.len() + 2) == h + q + seq![i1, i2],
        polled_after(q.push(i1).push(i2), h, q.len() + 2)[(h.len() + q.len()) as int] == i1,
        polled_after(q.push(i1).push(i2), h, q.len() + 2)[(h.len() + q.len() + 1) as int] == i2,
{
    let q2 = q.push(i1).push(i2);
    lemma_polled_in_order(q2, h);
    assert(h + q2 =~= h + q + seq![i1, i2]);
}

} // verus!
