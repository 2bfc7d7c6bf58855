//! The decisions of the fork-join engine: what happens to a task's result,
//! how a fork becomes subtasks and a join barrier, and when a join is due.
//!
//! Running the algorithm's functions is left to the caller: a worker takes a
//! task with `next_task`, runs the task function on its argument, and hands
//! the result to `handle_result`. When a step reports a completed join, the
//! worker runs the join function on its values and hands the joined value to
//! `deliver` together with the completed join's parent.
use crate::algorithm::{AlgoStyle, Algorithm, Task, TaskResult};
use crate::barrier::{
    lemma_empty_slots_all_empty, lemma_empty_slots_fill, lemma_empty_slots_zero, slot_values,
    CompletedJoin, JoinBarrier, ResultReceiver,
};
use crate::channel::{channel_send, SendLog};
use crate::job::{open_numbered_channel, Job};
use vstd::prelude::*;

verus! {

/// What a step of the engine leaves for its caller to do.
#[verifier::reject_recursive_types(Ret)]
pub enum Step<Ret, J, JA> {
    /// Nothing: the engine's state took the step in.
    Pending,
    /// The value was handed to the channel of a job.
    Sent,
    /// The value could not be sent: the reading end of the job is gone.
    Undelivered(Ret),
    /// All results of a join barrier have arrived: run its join function on
    /// them and deliver the joined value to its parent.
    Joinable(CompletedJoin<Ret, J, JA>),
    /// The receiver names no slot that waits for a result; the value is
    /// handed back.
    Rejected(Ret),
}

/// The state of the fork-join engine: the tasks waiting to run, last
/// scheduled first, and the join barriers waiting for results.
#[verifier::reject_recursive_types(Ret)]
pub struct Scheduler<Arg, Ret, F, J, JA> {
    queue: Vec<Task<Arg, Ret, F, J, JA>>,
    barriers: Vec<Option<JoinBarrier<Ret, J, JA>>>,
    log: SendLog<Ret>,
    channels: Ghost<int>,
}

/// The subtasks of a `Reduce` fork on `args` whose barrier is number `b`:
/// subtask `k` runs `algo` on `args[k]` and delivers into slot `k`.
pub open spec fn reduce_subtasks<Arg, Ret, F, J, JA>(
    algo: Algorithm<F, J, JA>,
    args: Seq<Arg>,
    b: usize,
) -> Seq<Task<Arg, Ret, F, J, JA>> {
    Seq::new(
        args.len(),
        |k: int| Task { algo, arg: args[k], join: ResultReceiver::<Ret>::Join(k as usize, b) },
    )
}

impl<Arg, Ret, F, J, JA> Scheduler<Arg, Ret, F, J, JA> {
    /// The tasks waiting to run, in scheduling order.
    pub closed spec fn tasks(&self) -> Seq<Task<Arg, Ret, F, J, JA>> {
        self.queue@
    }

    /// The join barrier numbered `b`, if it waits for results.
    pub closed spec fn barrier_at(&self, b: int) -> Option<JoinBarrier<Ret, J, JA>> {
        if 0 <= b < self.barriers@.len() {
            self.barriers@[b]
        } else {
            None
        }
    }

    /// Every value the engine handed to a job's channel, with the number of
    /// that channel, oldest first.
    pub closed spec fn sent_log(&self) -> Seq<(int, Ret)> {
        self.log.entries()
    }

    /// The channel number that the job of the next submitted computation
    /// gets.
    pub closed spec fn next_channel(&self) -> int {
        self.channels@
    }

    /// The number that the next new join barrier gets.
    pub closed spec fn next_barrier(&self) -> nat {
        self.barriers@.len()
    }

    /// Every barrier kept counts exactly its waiting slots and waits for at
    /// least one, and the barrier numbers fit in `usize`.
    pub closed spec fn wf(&self) -> bool {
        &&& forall|b: int| #[trigger] self.barrier_at(b) matches Some(jb) ==> jb.wf()
        &&& self.barriers@.len() <= usize::MAX
    }

    /// Slot `i` of barrier `b` waits for its result.
    pub open spec fn waits(&self, b: int, i: int) -> bool {
        &&& self.barrier_at(b) is Some
        &&& self.barrier_at(b)->0.waits_at(i)
    }

    /// All barriers but number `b` are the same in `self` and `other`.
    pub open spec fn barriers_agree_except(&self, other: &Self, b: int) -> bool {
        forall|c: int| c != b ==> #[trigger] self.barrier_at(c) == other.barrier_at(c)
    }

    /// All barriers are the same in `self` and `other`.
    pub open spec fn barriers_agree(&self, other: &Self) -> bool {
        forall|c: int| #[trigger] self.barrier_at(c) == other.barrier_at(c)
    }

    /// `new` and `step` are what `deliver(join, value)` makes of `old`.
    pub open spec fn delivered(old: &Self, new: &Self, join: ResultReceiver<Ret>, value: Ret, step: Step<Ret, J, JA>) -> bool {
        &&& new.next_channel() == old.next_channel()
        &&& new.sent_log() == match join {
            ResultReceiver::Channel(c) => old.sent_log().push((c.channel_id(), value)),
            ResultReceiver::Join(_, _) => old.sent_log(),
        }
        &&& match join {
            ResultReceiver::Channel(_) => {
                &&& new.barriers_agree(old)
                &&& (step is Sent || step == Step::<Ret, J, JA>::Undelivered(value))
            },
            ResultReceiver::Join(i, b) => if old.waits(b as int, i as int) {
                let jb = old.barrier_at(b as int)->0;
                &&& new.barriers_agree_except(old, b as int)
                &&& if jb.ret_counter == 1 {
                    &&& new.barrier_at(b as int) is None
                    &&& step matches Step::Joinable(cj)
                    &&& cj.joinfun == jb.joinfun
                    &&& cj.joinarg == jb.joinarg
                    &&& cj.values@ == slot_values(jb.joinfunarg@.update(i as int, Some(value)))
                    &&& cj.parent == jb.parent
                } else {
                    &&& step is Pending
                    &&& new.barrier_at(b as int) matches Some(nb)
                    &&& nb.filled_from(&jb, i as int, value)
                }
            } else {
                &&& new.barriers_agree(old)
                &&& step == Step::<Ret, J, JA>::Rejected(value)
            },
        }
    }

    /// `new` and `step` are what `fork(algo, join, args, joinarg)` makes of `old`.
    pub open spec fn forked(old: &Self, new: &Self, algo: Algorithm<F, J, JA>, join: ResultReceiver<Ret>, args: Seq<Arg>, joinarg: Option<Ret>, step: Step<Ret, J, JA>) -> bool {
        &&& new.next_channel() == old.next_channel()
        &&& new.sent_log() == old.sent_log()
        &&& match algo.style {
            AlgoStyle::Reduce(rs) => if args.len() == 0 {
                &&& new.tasks() == old.tasks()
                &&& new.barriers_agree(old)
                &&& new.next_barrier() == old.next_barrier()
                &&& step matches Step::Joinable(cj)
                &&& cj.joinfun == rs
                &&& cj.joinarg == joinarg
                &&& cj.values@.len() == 0
                &&& cj.parent == join
            } else {
                let b = old.next_barrier();
                &&& args.len() <= usize::MAX
                &&& old.barrier_at(b as int) is None
                &&& new.next_barrier() == b + 1
                &&& new.barriers_agree_except(old, b as int)
                &&& new.barrier_at(b as int) matches Some(nb)
                &&& nb.ret_counter == args.len()
                &&& nb.joinfun == rs
                &&& nb.joinarg == joinarg
                &&& nb.joinfunarg@ == Seq::new(args.len(), |_k: int| None::<Ret>)
                &&& nb.parent == join
                &&& new.tasks() == old.tasks() + reduce_subtasks::<Arg, Ret, F, J, JA>(algo, args, b as usize)
                &&& step is Pending
            },
            AlgoStyle::Search => {
                &&& new.barriers_agree(old)
                &&& new.next_barrier() == old.next_barrier()
                &&& new.tasks().len() == old.tasks().len() + args.len()
                &&& new.tasks().subrange(0, old.tasks().len() as int) == old.tasks()
                &&& forall|k: int| 0 <= k < args.len() ==> {
                    let t = #[trigger] new.tasks()[old.tasks().len() + k];
                    &&& t.algo == algo
                    &&& t.arg == args[k]
                    &&& t.join is Channel
                    &&& t.join->Channel_0.channel_id() == join->Channel_0.channel_id()
                }
                &&& step is Pending
            },
        }
    }

    /// `new` and `step` are what `handle_result(algo, join, result)` makes
    /// of `old`.
    pub open spec fn handled(old: &Self, new: &Self, algo: Algorithm<F, J, JA>, join: ResultReceiver<Ret>, result: TaskResult<Arg, Ret>, step: Step<Ret, J, JA>) -> bool {
        match result {
            TaskResult::Done(v) => {
                &&& new.tasks() == old.tasks()
                &&& new.next_barrier() == old.next_barrier()
                &&& Self::delivered(old, new, join, v, step)
            },
            TaskResult::Fork(args, joinarg) => Self::forked(old, new, algo, join, args@, joinarg, step),
        }
    }

    /// No barrier has a number outside `0..next_barrier()`.
    pub proof fn lemma_no_barrier_beyond(&self)
        ensures
            forall|b: int| (b < 0 || b >= self.next_barrier()) ==> #[trigger] self.barrier_at(b) is None,
    {
    }

    /// `new` is what `submit(algo, arg)` makes of `old`: one more task,
    /// running `algo` on `arg`, whose results go to a channel.
    pub open spec fn submitted(old: &Self, new: &Self, algo: Algorithm<F, J, JA>, arg: Arg) -> bool {
        &&& new.barriers_agree(old)
        &&& new.next_barrier() == old.next_barrier()
        &&& new.tasks().len() == old.tasks().len() + 1
        &&& new.tasks().drop_last() == old.tasks()
        &&& new.tasks().last().algo == algo
        &&& new.tasks().last().arg == arg
        &&& new.tasks().last().join is Channel
        &&& new.tasks().last().join->Channel_0.channel_id() == old.next_channel()
        &&& new.next_channel() == old.next_channel() + 1
        &&& new.sent_log() == old.sent_log()
    }

    /// The barrier numbers of an engine in good standing fit in `usize`.
    pub proof fn lemma_next_barrier_fits(&self)
        requires
            self.wf(),
        ensures
            self.next_barrier() <= usize::MAX,
    {
    }

    /// Every barrier that an engine in good standing keeps counts exactly
    /// its waiting slots.
    pub proof fn lemma_kept_barrier_wf(&self, b: int)
        requires
            self.wf(),
            self.barrier_at(b) is Some,
        ensures
            self.barrier_at(b)->0.wf(),
    {
    }

    /// `new` and `t` are what `next_task` makes of `old`: the task
    /// scheduled last leaves the queue.
    pub open spec fn took(old: &Self, new: &Self, t: Option<Task<Arg, Ret, F, J, JA>>) -> bool {
        &&& new.next_channel() == old.next_channel()
        &&& new.sent_log() == old.sent_log()
        &&& old.tasks().len() == 0 ==> t is None && new.tasks() == old.tasks()
        &&& old.tasks().len() > 0 ==> t == Some(old.tasks().last()) && new.tasks()
            == old.tasks().drop_last()
    }

    /// An engine with no task and no barrier.
    pub fn new() -> (s: Self)
        ensures
            s.wf(),
            s.tasks() == Seq::<Task<Arg, Ret, F, J, JA>>::empty(),
            forall|b: int| #[trigger] s.barrier_at(b) is None,
            s.sent_log() == Seq::<(int, Ret)>::empty(),
            s.next_channel() == 0,
    {
        Scheduler { queue: Vec::new(), barriers: Vec::new(), log: SendLog::new(), channels: Ghost(0) }
    }

    /// Add a task to run.
    pub fn schedule(&mut self, task: Task<Arg, Ret, F, J, JA>)
        requires
            old(self).wf(),
        ensures
            final(self).wf(),
            final(self).tasks() == old(self).tasks().push(task),
            final(self).barriers_agree(old(self)),
            final(self).next_barrier() == old(self).next_barrier(),
            final(self).next_channel() == old(self).next_channel(),
            final(self).sent_log() == old(self).sent_log(),
    {
        self.queue.push(task);
        assert(self.barriers_agree(old(self)));
    }

    /// Start a new computation: schedule a task running `algo` on `arg`
    /// whose results go to the returned job.
    pub fn submit(&mut self, algo: Algorithm<F, J, JA>, arg: Arg) -> (job: Job<Ret>)
        requires
            old(self).wf(),
        ensures
            final(self).wf(),
            Self::submitted(old(self), final(self), algo, arg),
            final(self).tasks().last().join->Channel_0.channel_id() == job.channel_id(),
            job.channel_id() == old(self).next_channel(),
    {
        let ghost n = self.channels@;
        let (sender, job) = open_numbered_channel(Ghost(n));
        self.channels = Ghost(n + 1);
        self.queue.push(Task { algo, arg, join: ResultReceiver::Channel(sender) });
        assert(self.barriers_agree(old(self)));
        assert(self.queue@.drop_last() =~= old(self).queue@);
        job
    }

    /// Take the task scheduled last, if any task waits.
    pub fn next_task(&mut self) -> (t: Option<Task<Arg, Ret, F, J, JA>>)
        requires
            old(self).wf(),
        ensures
            final(self).wf(),
            final(self).barriers_agree(old(self)),
            final(self).next_barrier() == old(self).next_barrier(),
            Self::took(old(self), final(self), t),
    {
        let t = self.queue.pop();
        assert(self.barriers_agree(old(self)));
        t
    }
}

/// The results of slots that all hold one, in slot order.
fn take_values<Ret>(slots: Vec<Option<Ret>>) -> (values: Vec<Ret>)
    requires
        forall|i: int| 0 <= i < slots@.len() ==> (#[trigger] slots@[i]) is Some,
    ensures
        values@ == slot_values(slots@),
{
    let ghost orig = slots@;
    let mut slots = slots;
    let n = slots.len();
    let mut values: Vec<Ret> = Vec::new();
    let mut i: usize = 0;
    while i < n
        invariant
            n == orig.len(),
            slots@.len() == n,
            i <= n,
            values@.len() == i,
            forall|j: int| i <= j < n ==> #[trigger] slots@[j] == orig[j],
            forall|j: int| 0 <= j < i ==> #[trigger] values@[j] == orig[j]->0,
            forall|j: int| 0 <= j < orig.len() ==> (#[trigger] orig[j]) is Some,
        decreases n - i,
    {
        let slot = slots[i].take();
        match slot {
            Some(v) => values.push(v),
            None => {
                proof {
                    assert(orig[i as int] is Some);
                }
                return unreached();
            },
        }
        i = i + 1;
    }
    assert(values@ =~= slot_values(orig));
    values
}

impl<Arg, Ret, F, J, JA> Scheduler<Arg, Ret, F, J, JA> {
    /// Hand `value` to the receiver `join`: send it to a job's channel, or
    /// store it in the waiting slot of a join barrier. When it is the last
    /// missing result of its barrier, the barrier is removed and returned as
    /// a completed join. Barrier numbers are never given out twice, so a
    /// receiver of a removed barrier can never reach a later one.
    pub fn deliver(&mut self, join: ResultReceiver<Ret>, value: Ret) -> (step: Step<Ret, J, JA>)
        requires
            old(self).wf(),
        ensures
            final(self).wf(),
            final(self).tasks() == old(self).tasks(),
            final(self).next_barrier() == old(self).next_barrier(),
            Self::delivered(old(self), final(self), join, value, step),
    {
        match join {
            ResultReceiver::Channel(sender) => {
                let sent = channel_send(&sender, value, &mut self.log);
                assert(self.barriers_agree(old(self)));
                match sent {
                    None => Step::Sent,
                    Some(v) => Step::Undelivered(v),
                }
            },
            ResultReceiver::Join(i, b) => {
                if b >= self.barriers.len() {
                    assert(self.barriers_agree(old(self)));
                    return Step::Rejected(value);
                }
                let ghost before = *self;
                let entry = self.barriers[b].take();
                match entry {
                    None => {
                        assert(self.barriers@ =~= before.barriers@);
                        assert(self.barriers_agree(&before));
                        Step::Rejected(value)
                    },
                    Some(jb) => {
                        let mut jb = jb;
                        if i >= jb.joinfunarg.len() || jb.joinfunarg[i].is_some() {
                            self.barriers.set(b, Some(jb));
                            assert(self.barriers@ =~= before.barriers@);
                            assert(self.barriers_agree(&before));
                            return Step::Rejected(value);
                        }
                        let ghost old_jb = jb;
                        proof {
                            assert(before.barrier_at(b as int) == Some(old_jb));
                            lemma_empty_slots_fill(old_jb.joinfunarg@, i as int, value);
                        }
                        jb.joinfunarg.set(i, Some(value));
                        jb.ret_counter = jb.ret_counter - 1;
                        if jb.ret_counter == 0 {
                            assert(self.barriers_agree_except(&before, b as int));
                            proof {
                                lemma_empty_slots_zero(jb.joinfunarg@);
                            }
                            let values = take_values(jb.joinfunarg);
                            Step::Joinable(
                                CompletedJoin {
                                    joinfun: jb.joinfun,
                                    joinarg: jb.joinarg,
                                    values,
                                    parent: jb.parent,
                                },
                            )
                        } else {
                            assert(jb.wf());
                            self.barriers.set(b, Some(jb));
                            assert(self.barriers_agree_except(&before, b as int));
                            assert(self.barrier_at(b as int) == Some(jb));
                            Step::Pending
                        }
                    },
                }
            },
        }
    }
}

impl<Arg, Ret, F: Copy, J: Copy, JA: Copy> Scheduler<Arg, Ret, F, J, JA> {
    /// Split a task that returned `Fork(args, joinarg)` into one subtask per
    /// argument, each running `algo`, scheduled in argument order.
    ///
    /// In a `Reduce` algorithm a new join barrier collects the results of
    /// the subtasks and passes its joined value to `join`; a fork on no
    /// argument is a join on no results, due at once. In a `Search`
    /// algorithm every subtask sends its results where the forking task's
    /// went.
    pub fn fork(
        &mut self,
        algo: Algorithm<F, J, JA>,
        join: ResultReceiver<Ret>,
        args: Vec<Arg>,
        joinarg: Option<Ret>,
    ) -> (step: Step<Ret, J, JA>)
        requires
            old(self).wf(),
            algo.style is Search && args@.len() > 0 ==> join is Channel,
        ensures
            final(self).wf(),
            Self::forked(old(self), final(self), algo, join, args@, joinarg, step),
    {
        let ghost a = args@;
        let ghost q0 = self.queue@;
        match algo.style {
            AlgoStyle::Reduce(rs) => {
                let n = args.len();
                if n == 0 {
                    assert(self.barriers_agree(old(self)));
                    return Step::Joinable(
                        CompletedJoin { joinfun: rs, joinarg, values: Vec::new(), parent: join },
                    );
                }
                let b = self.barriers.len();
                let mut slots: Vec<Option<Ret>> = Vec::new();
                let mut k: usize = 0;
                while k < n
                    invariant
                        k <= n,
                        slots@ == Seq::new(k as nat, |_i: int| None::<Ret>),
                    decreases n - k,
                {
                    slots.push(None);
                    k = k + 1;
                    assert(slots@ =~= Seq::new(k as nat, |_i: int| None::<Ret>));
                }
                proof {
                    lemma_empty_slots_all_empty::<Ret>(n as nat);
                }
                let barrier = JoinBarrier {
                    ret_counter: n,
                    joinfun: rs,
                    joinarg,
                    joinfunarg: slots,
                    parent: join,
                };
                assert(barrier.wf());
                let ghost before = *self;
                self.barriers.push(Some(barrier));
                assert(self.barriers@.len() <= usize::MAX) by {
                    let _ = self.barriers.len();
                }
                assert(self.barriers_agree_except(&before, b as int));
                assert(self.barrier_at(b as int) == Some(barrier));
                let mut i: usize = 0;
                for arg in it: args.into_iter()
                    invariant
                        i == it.index(),
                        it.seq() == a,
                        n == a.len(),
                        self.wf(),
                        self.barrier_at(b as int) == Some(barrier),
                        self.barriers_agree_except(&before, b as int),
                        self.next_barrier() == b + 1,
                        self.sent_log() == old(self).sent_log(),
                        self.next_channel() == old(self).next_channel(),
                        self.queue@ == q0 + reduce_subtasks::<Arg, Ret, F, J, JA>(algo, a.take(i as int), b),
                {
                    let ghost prev = *self;
                    self.queue.push(Task { algo, arg, join: ResultReceiver::Join(i, b) });
                    assert(self.barriers_agree(&prev));
                    assert(a.take(i + 1) =~= a.take(i as int).push(arg));
                    assert(reduce_subtasks::<Arg, Ret, F, J, JA>(algo, a.take(i + 1), b) =~= reduce_subtasks::<Arg, Ret, F, J, JA>(algo, a.take(i as int), b).push(Task { algo, arg, join: ResultReceiver::Join(i, b) }));
                    i = i + 1;
                }
                assert(a.take(n as int) =~= a);
                Step::Pending
            },
            AlgoStyle::Search => {
                let n = args.len();
                let mut i: usize = 0;
                for arg in it: args.into_iter()
                    invariant
                        i == it.index(),
                        it.seq() == a,
                        n == a.len(),
                        a.len() > 0 ==> join is Channel,
                        self.wf(),
                        self.barriers_agree(old(self)),
                        self.next_barrier() == old(self).next_barrier(),
                        self.sent_log() == old(self).sent_log(),
                        self.next_channel() == old(self).next_channel(),
                        self.queue@.len() == q0.len() + i,
                        self.queue@.subrange(0, q0.len() as int) == q0,
                        forall|k: int| 0 <= k < i ==> {
                            let t = #[trigger] self.queue@[q0.len() + k];
                            &&& t.algo == algo
                            &&& t.arg == a[k]
                            &&& t.join is Channel
                            &&& t.join->Channel_0.channel_id() == join->Channel_0.channel_id()
                        },
                {
                    let ghost prev = *self;
                    self.queue.push(Task { algo, arg, join: join.clone() });
                    assert(self.barriers_agree(&prev));
                    assert(self.queue@.subrange(0, q0.len() as int) =~= q0);
                    i = i + 1;
                }
                Step::Pending
            },
        }
    }
}

impl<Arg, Ret, F: Copy, J: Copy, JA: Copy> Scheduler<Arg, Ret, F, J, JA> {
    /// Take in the result that a task running `algo` returned: a computed
    /// value goes to the task's receiver `join`, a fork becomes subtasks.
    pub fn handle_result(
        &mut self,
        algo: Algorithm<F, J, JA>,
        join: ResultReceiver<Ret>,
        result: TaskResult<Arg, Ret>,
    ) -> (step: Step<Ret, J, JA>)
        requires
            old(self).wf(),
            result matches TaskResult::Fork(args, _) ==> (algo.style is Search && args@.len() > 0
                ==> join is Channel),
        ensures
            final(self).wf(),
            Self::handled(old(self), final(self), algo, join, result, step),
    {
        match result {
            TaskResult::Done(v) => self.deliver(join, v),
            TaskResult::Fork(args, joinarg) => self.fork(algo, join, args, joinarg),
        }
    }
}

/// The task scheduled last is the next one to run, and taking it leaves
/// the queue as it was before.
pub proof fn law_last_scheduled_runs_first<Arg, Ret, F, J, JA>(
    s0: Scheduler<Arg, Ret, F, J, JA>,
    s1: Scheduler<Arg, Ret, F, J, JA>,
    s2: Scheduler<Arg, Ret, F, J, JA>,
    task: Task<Arg, Ret, F, J, JA>,
    t: Option<Task<Arg, Ret, F, J, JA>>,
)
    requires
        s1.tasks() == s0.tasks().push(task),
        Scheduler::took(&s1, &s2, t),
    ensures
        t == Some(task),
        s2.tasks() == s0.tasks(),
{
    assert(s0.tasks().push(task).drop_last() =~= s0.tasks());
}

/// A result delivered through the receiver of the `k`-th subtask of a
/// `Reduce` fork lands in slot `k` of the fork's new barrier. With more than
/// one subtask the barrier then waits for one result fewer; with a single
/// subtask the join is due at once, on exactly that result.
pub proof fn law_subtask_result_lands_in_its_slot<Arg, Ret, F, J, JA>(
    s0: Scheduler<Arg, Ret, F, J, JA>,
    s1: Scheduler<Arg, Ret, F, J, JA>,
    s2: Scheduler<Arg, Ret, F, J, JA>,
    algo: Algorithm<F, J, JA>,
    join: ResultReceiver<Ret>,
    args: Seq<Arg>,
    joinarg: Option<Ret>,
    step1: Step<Ret, J, JA>,
    k: int,
    v: Ret,
    step2: Step<Ret, J, JA>,
)
    requires
        s0.wf(),
        algo.style is Reduce,
        0 <= k < args.len(),
        s1.wf(),
        args.len() <= usize::MAX,
        Scheduler::forked(&s0, &s1, algo, join, args, joinarg, step1),
        Scheduler::delivered(&s1, &s2, s1.tasks()[s0.tasks().len() + k].join, v, step2),
    ensures
        ({
            let b = s0.next_barrier() as int;
            if args.len() == 1 {
                &&& s2.barrier_at(b) is None
                &&& step2 matches Step::Joinable(cj)
                &&& cj.values@ == seq![v]
                &&& cj.joinarg == joinarg
                &&& cj.parent == join
            } else {
                &&& step2 is Pending
                &&& s2.barrier_at(b) matches Some(nb)
                &&& nb.joinfunarg@[k] == Some(v)
                &&& nb.ret_counter == args.len() - 1
            }
        }),
{
    let b = s0.next_barrier();
    let t = s1.tasks()[s0.tasks().len() + k];
    assert(t == reduce_subtasks::<Arg, Ret, F, J, JA>(algo, args, b as usize)[k]);
    assert(t.join == ResultReceiver::<Ret>::Join(k as usize, b as usize));
    let nb = s1.barrier_at(b as int)->0;
    assert(s1.waits(b as int, k));
    assert(nb.ret_counter == args.len());
    let sl = nb.joinfunarg@.update(k, Some(v));
    assert(sl[k] == Some(v));
    if args.len() == 1 {
        assert(sl.len() == 1);
        assert(slot_values(sl)[0] == v);
        assert(slot_values(sl) =~= seq![v]);
    }
}

/// The values handed to the channel numbered `c`, in the order they were
/// sent, out of a record of sends.
pub open spec fn sent_on<Ret>(log: Seq<(int, Ret)>, c: int) -> Seq<Ret>
    decreases log.len(),
{
    if log.len() == 0 {
        Seq::empty()
    } else if log.last().0 == c {
        sent_on(log.drop_last(), c).push(log.last().1)
    } else {
        sent_on(log.drop_last(), c)
    }
}

/// A value delivered to a channel receiver reaches the job of that
/// receiver's channel, once, after everything it was sent before; the job
/// of every other channel receives nothing. A value delivered into a join
/// barrier reaches no job.
pub proof fn law_delivery_reaches_only_its_own_job<Arg, Ret, F, J, JA>(
    s0: Scheduler<Arg, Ret, F, J, JA>,
    s1: Scheduler<Arg, Ret, F, J, JA>,
    join: ResultReceiver<Ret>,
    value: Ret,
    step: Step<Ret, J, JA>,
    c: int,
)
    requires
        Scheduler::delivered(&s0, &s1, join, value, step),
    ensures
        sent_on(s1.sent_log(), c) == if join matches ResultReceiver::Channel(ch) && ch.channel_id() == c {
            sent_on(s0.sent_log(), c).push(value)
        } else {
            sent_on(s0.sent_log(), c)
        },
{
    if let ResultReceiver::Channel(ch) = join {
        assert(s1.sent_log().drop_last() == s0.sent_log());
    }
}

/// When a task's function gives a value, the value reaches the job of the
/// task's channel receiver and no other job; a fork reaches no job.
pub proof fn law_task_result_reaches_only_its_own_job<Arg, Ret, F, J, JA>(
    s0: Scheduler<Arg, Ret, F, J, JA>,
    s1: Scheduler<Arg, Ret, F, J, JA>,
    algo: Algorithm<F, J, JA>,
    join: ResultReceiver<Ret>,
    result: TaskResult<Arg, Ret>,
    step: Step<Ret, J, JA>,
    c: int,
)
    requires
        Scheduler::handled(&s0, &s1, algo, join, result, step),
    ensures
        sent_on(s1.sent_log(), c) == if result matches TaskResult::Done(v) && join matches ResultReceiver::Channel(ch) && ch.channel_id() == c {
            sent_on(s0.sent_log(), c).push(result->Done_0)
        } else {
            sent_on(s0.sent_log(), c)
        },
{
    if let TaskResult::Done(v) = result {
        law_delivery_reaches_only_its_own_job(s0, s1, join, v, step, c);
    }
}

/// Taking a task, scheduling one, and submitting a computation reach no
/// job.
pub proof fn law_queue_steps_reach_no_job<Arg, Ret, F, J, JA>(
    s0: Scheduler<Arg, Ret, F, J, JA>,
    s1: Scheduler<Arg, Ret, F, J, JA>,
    t: Option<Task<Arg, Ret, F, J, JA>>,
    algo: Algorithm<F, J, JA>,
    arg: Arg,
    c: int,
)
    requires
        Scheduler::took(&s0, &s1, t) || Scheduler::submitted(&s0, &s1, algo, arg),
    ensures
        sent_on(s1.sent_log(), c) == sent_on(s0.sent_log(), c),
{
}

/// Two computations submitted to one engine, the second after the first,
/// get jobs on different channels, and each one's first task reports to
/// its own job's channel. (`submit` gives its job the channel number
/// `next_channel()` of the engine it was called on, and no engine step
/// lowers that number.)
pub proof fn law_submissions_get_their_own_jobs<Arg, Ret, F, J, JA>(
    s0: Scheduler<Arg, Ret, F, J, JA>,
    s1: Scheduler<Arg, Ret, F, J, JA>,
    s2: Scheduler<Arg, Ret, F, J, JA>,
    s3: Scheduler<Arg, Ret, F, J, JA>,
    algo1: Algorithm<F, J, JA>,
    arg1: Arg,
    job1: Job<Ret>,
    algo2: Algorithm<F, J, JA>,
    arg2: Arg,
    job2: Job<Ret>,
)
    requires
        Scheduler::submitted(&s0, &s1, algo1, arg1),
        job1.channel_id() == s0.next_channel(),
        s2.next_channel() >= s1.next_channel(),
        Scheduler::submitted(&s2, &s3, algo2, arg2),
        job2.channel_id() == s2.next_channel(),
    ensures
        job1.channel_id() != job2.channel_id(),
        s1.tasks().last().join->Channel_0.channel_id() == job1.channel_id(),
        s3.tasks().last().join->Channel_0.channel_id() == job2.channel_id(),
{
}

} // verus!
