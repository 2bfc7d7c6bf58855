//! What a whole Reduce computation gives: runs of the engine, and the law
//! that every run hands its job the value of the problem tree, once.
use crate::algorithm::{AlgoStyle, Algorithm, ReduceStyle, Task, TaskResult};
use crate::barrier::{empty_slots, lemma_empty_slots_fill, lemma_empty_slots_zero, CompletedJoin, JoinBarrier, ResultReceiver};
use crate::scheduler::{reduce_subtasks, sent_on, Scheduler, Step};
use vstd::prelude::*;

verus! {

/// The result that the task function of `algo` gives on `a` (a
/// deterministic function gives only one).
pub open spec fn task_result<Arg, Ret, F, J, JA>(algo: Algorithm<F, J, JA>, a: Arg) -> TaskResult<Arg, Ret>
    where
        F: Fn(Arg) -> TaskResult<Arg, Ret>,
{
    choose|r: TaskResult<Arg, Ret>| call_ensures(algo.fun, (a,), r)
}

/// `v` is what the join function `j` gives on the results `vals`.
pub open spec fn joins_to<Ret, J>(j: J, vals: Seq<Ret>, v: Ret) -> bool
    where
        J: Fn(&[Ret]) -> Ret,
{
    exists|s: &[Ret]| #![trigger call_ensures(j, (s,), v)] s@ == vals && call_ensures(j, (s,), v)
}

/// `v` is what the join function `j` gives on the extra value `x` and the
/// results `vals`.
pub open spec fn joins_arg_to<Ret, JA>(j: JA, x: Ret, vals: Seq<Ret>, v: Ret) -> bool
    where
        JA: Fn(&Ret, &[Ret]) -> Ret,
{
    exists|s: &[Ret]| #![trigger call_ensures(j, (&x, s), v)] s@ == vals && call_ensures(j, (&x, s), v)
}

/// The value the join function of a `Reduce` algorithm gives on the results
/// `vals`, with the extra value `x` for a `ReduceStyle::Arg` join.
pub open spec fn join_value<Ret, F, J, JA>(algo: Algorithm<F, J, JA>, x: Option<Ret>, vals: Seq<Ret>) -> Option<Ret>
    where
        J: Fn(&[Ret]) -> Ret,
        JA: Fn(&Ret, &[Ret]) -> Ret,
{
    match algo.style {
        AlgoStyle::Reduce(ReduceStyle::NoArg(j)) => Some(
            choose|v: Ret| joins_to(j, vals, v),
        ),
        AlgoStyle::Reduce(ReduceStyle::Arg(j)) => match x {
            Some(xv) => Some(
                choose|v: Ret| joins_arg_to(j, xv, vals, v),
            ),
            None => None,
        },
        AlgoStyle::Search => None,
    }
}

/// The value of the problem tree below `a`, reduced with the join function,
/// results in fork order; `None` where the tree is deeper than `depth`.
pub open spec fn tree_value<Arg, Ret, F, J, JA>(algo: Algorithm<F, J, JA>, a: Arg, depth: nat) -> Option<Ret>
    where
        F: Fn(Arg) -> TaskResult<Arg, Ret>,
        J: Fn(&[Ret]) -> Ret,
        JA: Fn(&Ret, &[Ret]) -> Ret,
    decreases depth, 0nat, 0nat,
{
    if depth == 0 {
        None
    } else {
        match task_result::<Arg, Ret, F, J, JA>(algo, a) {
            TaskResult::Done(v) => Some(v),
            TaskResult::Fork(args, x) => match subtree_values::<Arg, Ret, F, J, JA>(algo, args@, (depth - 1) as nat) {
                Some(vals) => join_value(algo, x, vals),
                None => None,
            },
        }
    }
}

/// The values of the subtrees below `args`, in order, each cut at `depth`;
/// `None` where one of them is deeper.
pub open spec fn subtree_values<Arg, Ret, F, J, JA>(algo: Algorithm<F, J, JA>, args: Seq<Arg>, depth: nat) -> Option<Seq<Ret>>
    where
        F: Fn(Arg) -> TaskResult<Arg, Ret>,
        J: Fn(&[Ret]) -> Ret,
        JA: Fn(&Ret, &[Ret]) -> Ret,
    decreases depth, 1nat, args.len(),
{
    if args.len() == 0 {
        Some(Seq::empty())
    } else {
        match subtree_values::<Arg, Ret, F, J, JA>(algo, args.drop_last(), depth) {
            Some(vals) => match tree_value::<Arg, Ret, F, J, JA>(algo, args.last(), depth) {
                Some(v) => Some(vals.push(v)),
                None => None,
            },
            None => None,
        }
    }
}

/// The values of the subtrees below `args`, each cut at `depth`.
pub open spec fn kid_values<Arg, Ret, F, J, JA>(algo: Algorithm<F, J, JA>, args: Seq<Arg>, depth: nat) -> Seq<Ret>
    where
        F: Fn(Arg) -> TaskResult<Arg, Ret>,
        J: Fn(&[Ret]) -> Ret,
        JA: Fn(&Ret, &[Ret]) -> Ret,
{
    Seq::new(args.len(), |k: int| tree_value::<Arg, Ret, F, J, JA>(algo, args[k], depth)->0)
}

/// The task and join functions of `algo` give one result on each input.
pub open spec fn deterministic<Arg, Ret, F, J, JA>(algo: Algorithm<F, J, JA>) -> bool
    where
        F: Fn(Arg) -> TaskResult<Arg, Ret>,
        J: Fn(&[Ret]) -> Ret,
        JA: Fn(&Ret, &[Ret]) -> Ret,
{
    &&& forall|a: Arg, r1: TaskResult<Arg, Ret>, r2: TaskResult<Arg, Ret>|
        #![trigger call_ensures(algo.fun, (a,), r1), call_ensures(algo.fun, (a,), r2)]
        call_ensures(algo.fun, (a,), r1) && call_ensures(algo.fun, (a,), r2) ==> r1 == r2
    &&& algo.style matches AlgoStyle::Reduce(ReduceStyle::NoArg(j)) ==> forall|vals: Seq<Ret>, v1: Ret, v2: Ret|
        #![trigger joins_to(j, vals, v1), joins_to(j, vals, v2)]
        joins_to(j, vals, v1) && joins_to(j, vals, v2) ==> v1 == v2
    &&& algo.style matches AlgoStyle::Reduce(ReduceStyle::Arg(j)) ==> forall|x: Ret, vals: Seq<Ret>, v1: Ret, v2: Ret|
        #![trigger joins_arg_to(j, x, vals, v1), joins_arg_to(j, x, vals, v2)]
        joins_arg_to(j, x, vals, v1) && joins_arg_to(j, x, vals, v2) ==> v1 == v2
}

/// What a worker holds between two of its steps.
#[verifier::reject_recursive_types(Ret)]
pub enum Held<Arg, Ret, F, J, JA> {
    /// Nothing: it takes the next task.
    Idle,
    /// A task it took and is about to run.
    Running(Task<Arg, Ret, F, J, JA>),
    /// A completed join whose join function it is about to run.
    Joining(CompletedJoin<Ret, J, JA>),
}

/// One step of a worker, with what came back from the user's functions and
/// from the engine.
#[verifier::reject_recursive_types(Ret)]
#[verifier::reject_recursive_types(Arg)]
pub enum Event<Arg, Ret, J, JA> {
    /// `next_task` handed out a task.
    Take,
    /// The task function gave `.0`, and `handle_result` answered `.1`.
    Run(TaskResult<Arg, Ret>, Step<Ret, J, JA>),
    /// The join function gave `.0`, and `deliver` to the join's parent
    /// answered `.1`.
    Join(Ret, Step<Ret, J, JA>),
}

/// What a worker holds after the engine answered `step`.
pub open spec fn held_after<Arg, Ret, F, J, JA>(step: Step<Ret, J, JA>) -> Held<Arg, Ret, F, J, JA> {
    match step {
        Step::Joinable(cj) => Held::Joining(cj),
        _ => Held::Idle,
    }
}

/// The worker steps from engine `e0` holding `h0` to engine `e1` holding
/// `h1` by the event `ev`, as the engine's contracts allow.
pub open spec fn worker_step<Arg, Ret, F, J, JA>(
    e0: Scheduler<Arg, Ret, F, J, JA>,
    h0: Held<Arg, Ret, F, J, JA>,
    ev: Event<Arg, Ret, J, JA>,
    e1: Scheduler<Arg, Ret, F, J, JA>,
    h1: Held<Arg, Ret, F, J, JA>,
) -> bool
    where
        F: Fn(Arg) -> TaskResult<Arg, Ret>,
        J: Fn(&[Ret]) -> Ret,
        JA: Fn(&Ret, &[Ret]) -> Ret,
{
    &&& e1.wf()
    &&& match ev {
        Event::Take => {
            &&& h0 is Idle
            &&& h1 matches Held::Running(t)
            &&& Scheduler::took(&e0, &e1, Some(t))
            &&& e1.barriers_agree(&e0)
            &&& e1.next_barrier() == e0.next_barrier()
        },
        Event::Run(r, step) => {
            &&& h0 matches Held::Running(t)
            &&& call_ensures(t.algo.fun, (t.arg,), r)
            &&& Scheduler::handled(&e0, &e1, t.algo, t.join, r, step)
            &&& h1 == held_after::<Arg, Ret, F, J, JA>(step)
        },
        Event::Join(v, step) => {
            &&& h0 matches Held::Joining(cj)
            &&& cj.gives(v)
            &&& e1.tasks() == e0.tasks()
            &&& e1.next_barrier() == e0.next_barrier()
            &&& Scheduler::delivered(&e0, &e1, cj.parent, v, step)
            &&& h1 == held_after::<Arg, Ret, F, J, JA>(step)
        },
    }
}

/// The values that the step `ev` from `h` hands to a job's channel.
pub open spec fn handed<Arg, Ret, F, J, JA>(h: Held<Arg, Ret, F, J, JA>, ev: Event<Arg, Ret, J, JA>) -> Seq<Ret> {
    match ev {
        Event::Run(TaskResult::Done(v), _) => if h matches Held::Running(t) && t.join is Channel {
            seq![v]
        } else {
            Seq::empty()
        },
        Event::Join(v, _) => if h matches Held::Joining(cj) && cj.parent is Channel {
            seq![v]
        } else {
            Seq::empty()
        },
        _ => Seq::empty(),
    }
}

/// A step of a pool of workers: worker `w` steps from `hs0[w]` to
/// `hs1[w]` by `ev`, the others hold on to what they hold.
pub open spec fn pool_step<Arg, Ret, F, J, JA>(
    e0: Scheduler<Arg, Ret, F, J, JA>,
    hs0: Seq<Held<Arg, Ret, F, J, JA>>,
    w: int,
    ev: Event<Arg, Ret, J, JA>,
    e1: Scheduler<Arg, Ret, F, J, JA>,
    hs1: Seq<Held<Arg, Ret, F, J, JA>>,
) -> bool
    where
        F: Fn(Arg) -> TaskResult<Arg, Ret>,
        J: Fn(&[Ret]) -> Ret,
        JA: Fn(&Ret, &[Ret]) -> Ret,
{
    &&& 0 <= w < hs0.len()
    &&& hs1.len() == hs0.len()
    &&& forall|u: int| 0 <= u < hs0.len() && u != w ==> #[trigger] hs1[u] == hs0[u]
    &&& worker_step(e0, hs0[w], ev, e1, hs1[w])
}

/// The values handed to a job's channel in the first `n` steps of a run;
/// step `k` is taken by worker `events[k].0`.
pub open spec fn handed_values<Arg, Ret, F, J, JA>(
    helds: Seq<Seq<Held<Arg, Ret, F, J, JA>>>,
    events: Seq<(int, Event<Arg, Ret, J, JA>)>,
    n: nat,
) -> Seq<Ret>
    decreases n,
{
    if n == 0 {
        Seq::empty()
    } else {
        handed_values(helds, events, (n - 1) as nat) + handed(helds[n - 1][events[n - 1].0], events[n - 1].1)
    }
}

/// `engines`, `helds` and `events` are a run of a pool of workers on a
/// computation of `algo` on `a`, submitted to the empty engine `e0`: after
/// step `k` the engine is `engines[k + 1]` and worker `w` holds
/// `helds[k + 1][w]`.
pub open spec fn is_run<Arg, Ret, F, J, JA>(
    algo: Algorithm<F, J, JA>,
    a: Arg,
    e0: Scheduler<Arg, Ret, F, J, JA>,
    engines: Seq<Scheduler<Arg, Ret, F, J, JA>>,
    helds: Seq<Seq<Held<Arg, Ret, F, J, JA>>>,
    events: Seq<(int, Event<Arg, Ret, J, JA>)>,
) -> bool
    where
        F: Fn(Arg) -> TaskResult<Arg, Ret>,
        J: Fn(&[Ret]) -> Ret,
        JA: Fn(&Ret, &[Ret]) -> Ret,
{
    &&& e0.wf()
    &&& e0.tasks().len() == 0
    &&& forall|b: int| #[trigger] e0.barrier_at(b) is None
    &&& engines.len() == events.len() + 1
    &&& helds.len() == events.len() + 1
    &&& engines[0].wf()
    &&& Scheduler::submitted(&e0, &engines[0], algo, a)
    &&& helds[0].len() >= 1
    &&& forall|u: int| 0 <= u < helds[0].len() ==> (#[trigger] helds[0][u]) is Idle
    &&& forall|i: int| 0 <= i < events.len() ==> pool_step(engines[i], helds[i], (#[trigger] events[i]).0, events[i].1, engines[i + 1], helds[i + 1])
}

/// No task waits and no worker holds anything.
pub open spec fn quiet<Arg, Ret, F, J, JA>(e: Scheduler<Arg, Ret, F, J, JA>, hs: Seq<Held<Arg, Ret, F, J, JA>>) -> bool {
    &&& e.tasks().len() == 0
    &&& forall|u: int| 0 <= u < hs.len() ==> (#[trigger] hs[u]) is Idle
}

/// The task function of a deterministic algorithm gives `task_result` on
/// every input it gives anything on.
pub(crate) proof fn lemma_task_result_is<Arg, Ret, F, J, JA>(algo: Algorithm<F, J, JA>, x: Arg, r: TaskResult<Arg, Ret>)
    where
        F: Fn(Arg) -> TaskResult<Arg, Ret>,
        J: Fn(&[Ret]) -> Ret,
        JA: Fn(&Ret, &[Ret]) -> Ret,
    requires
        deterministic::<Arg, Ret, F, J, JA>(algo),
        call_ensures(algo.fun, (x,), r),
    ensures
        task_result::<Arg, Ret, F, J, JA>(algo, x) == r,
{
    let c = task_result::<Arg, Ret, F, J, JA>(algo, x);
    assert(call_ensures(algo.fun, (x,), c));
}

/// `subtree_values` is `Some` exactly when every subtree has a value, and
/// then it holds `kid_values`.
proof fn lemma_subtree_values<Arg, Ret, F, J, JA>(algo: Algorithm<F, J, JA>, args: Seq<Arg>, depth: nat)
    where
        F: Fn(Arg) -> TaskResult<Arg, Ret>,
        J: Fn(&[Ret]) -> Ret,
        JA: Fn(&Ret, &[Ret]) -> Ret,
    ensures
        subtree_values::<Arg, Ret, F, J, JA>(algo, args, depth) is Some <==> forall|k: int| 0 <= k < args.len() ==> (#[trigger] tree_value::<Arg, Ret, F, J, JA>(algo, args[k], depth)) is Some,
        subtree_values::<Arg, Ret, F, J, JA>(algo, args, depth) is Some ==> subtree_values::<Arg, Ret, F, J, JA>(algo, args, depth)->0 == kid_values::<Arg, Ret, F, J, JA>(algo, args, depth),
    decreases args.len(),
{
    if args.len() > 0 {
        let pre = args.drop_last();
        lemma_subtree_values::<Arg, Ret, F, J, JA>(algo, pre, depth);
        assert forall|k: int| 0 <= k < pre.len() implies pre[k] == args[k] by {}
        if subtree_values::<Arg, Ret, F, J, JA>(algo, args, depth) is Some {
            assert(subtree_values::<Arg, Ret, F, J, JA>(algo, args, depth)->0 =~= kid_values::<Arg, Ret, F, J, JA>(algo, args, depth));
        } else if tree_value::<Arg, Ret, F, J, JA>(algo, args.last(), depth) is Some {
            assert(!(forall|k: int| 0 <= k < pre.len() ==> (#[trigger] tree_value::<Arg, Ret, F, J, JA>(algo, pre[k], depth)) is Some));
            let k = choose|k: int| 0 <= k < pre.len() && !(#[trigger] tree_value::<Arg, Ret, F, J, JA>(algo, pre[k], depth) is Some);
            assert(tree_value::<Arg, Ret, F, J, JA>(algo, args[k], depth) is None);
        } else {
            assert(tree_value::<Arg, Ret, F, J, JA>(algo, args[args.len() - 1], depth) is None);
        }
    } else {
        assert(kid_values::<Arg, Ret, F, J, JA>(algo, args, depth) =~= Seq::empty());
    }
}

/// One level of `tree_value`: a leaf gives its value, a fork the join of
/// the values of its subtrees, one level less deep.
proof fn lemma_tree_value_unfold<Arg, Ret, F, J, JA>(algo: Algorithm<F, J, JA>, x: Arg, depth: nat)
    where
        F: Fn(Arg) -> TaskResult<Arg, Ret>,
        J: Fn(&[Ret]) -> Ret,
        JA: Fn(&Ret, &[Ret]) -> Ret,
    requires
        tree_value::<Arg, Ret, F, J, JA>(algo, x, depth) is Some,
    ensures
        depth >= 1,
        match task_result::<Arg, Ret, F, J, JA>(algo, x) {
            TaskResult::Done(v) => tree_value::<Arg, Ret, F, J, JA>(algo, x, depth) == Some(v),
            TaskResult::Fork(args, j) => {
                &&& forall|k: int| 0 <= k < args@.len() ==> (#[trigger] tree_value::<Arg, Ret, F, J, JA>(algo, args@[k], (depth - 1) as nat)) is Some
                &&& tree_value::<Arg, Ret, F, J, JA>(algo, x, depth) == join_value(algo, j, kid_values::<Arg, Ret, F, J, JA>(algo, args@, (depth - 1) as nat))
            },
        },
{
    assert(depth >= 1);
    match task_result::<Arg, Ret, F, J, JA>(algo, x) {
        TaskResult::Done(v) => {},
        TaskResult::Fork(args, j) => {
            lemma_subtree_values::<Arg, Ret, F, J, JA>(algo, args@, (depth - 1) as nat);
        },
    }
}

/// A deterministic join function gives `join_value` on the results of a
/// completed join.
proof fn lemma_join_gives<Arg, Ret, F, J, JA>(algo: Algorithm<F, J, JA>, cj: CompletedJoin<Ret, J, JA>, v: Ret)
    where
        F: Fn(Arg) -> TaskResult<Arg, Ret>,
        J: Fn(&[Ret]) -> Ret,
        JA: Fn(&Ret, &[Ret]) -> Ret,
    requires
        deterministic::<Arg, Ret, F, J, JA>(algo),
        algo.style matches AlgoStyle::Reduce(rs) && cj.joinfun == rs,
        join_value(algo, cj.joinarg, cj.values@) is Some,
        cj.gives(v),
    ensures
        join_value(algo, cj.joinarg, cj.values@) == Some(v),
{
    let vals = cj.values@;
    match algo.style {
        AlgoStyle::Reduce(ReduceStyle::NoArg(j)) => {
            let s = choose|s: &[Ret]| #![trigger call_ensures(j, (s,), v)] s@ == vals && call_ensures(j, (s,), v);
            assert(joins_to(j, vals, v));
            let w = choose|w: Ret| joins_to(j, vals, w);
            assert(joins_to(j, vals, w));
        },
        AlgoStyle::Reduce(ReduceStyle::Arg(j)) => {
            let x = cj.joinarg->0;
            let s = choose|s: &[Ret]| #![trigger call_ensures(j, (&x, s), v)] s@ == vals && call_ensures(j, (&x, s), v);
            assert(joins_arg_to(j, x, vals, v));
            let w = choose|w: Ret| joins_arg_to(j, x, vals, w);
            assert(joins_arg_to(j, x, vals, w));
        },
        AlgoStyle::Search => {},
    }
}

/// Where the one writer of the value of the whole tree stands in a run.
enum RootAt {
    Sent,
    Task(int),
    Held(int),
    Barrier(int),
}

/// The arguments of the fork that the task function gives on `x`.
spec fn fork_args<Arg, Ret, F, J, JA>(algo: Algorithm<F, J, JA>, x: Arg) -> Seq<Arg>
    where
        F: Fn(Arg) -> TaskResult<Arg, Ret>,
        J: Fn(&[Ret]) -> Ret,
        JA: Fn(&Ret, &[Ret]) -> Ret,
{
    match task_result::<Arg, Ret, F, J, JA>(algo, x) {
        TaskResult::Fork(args, _) => args@,
        TaskResult::Done(_) => Seq::empty(),
    }
}

/// The extra join value of the fork that the task function gives on `x`.
spec fn fork_joinarg<Arg, Ret, F, J, JA>(algo: Algorithm<F, J, JA>, x: Arg) -> Option<Ret>
    where
        F: Fn(Arg) -> TaskResult<Arg, Ret>,
        J: Fn(&[Ret]) -> Ret,
        JA: Fn(&Ret, &[Ret]) -> Ret,
{
    match task_result::<Arg, Ret, F, J, JA>(algo, x) {
        TaskResult::Fork(_, j) => j,
        TaskResult::Done(_) => None,
    }
}

/// The node of the tree, argument and depth, whose value the receiver `r`
/// waits for; `nodes` holds the node of each barrier.
spec fn node_of<Arg, Ret, F, J, JA>(algo: Algorithm<F, J, JA>, a: Arg, depth: nat, nodes: Map<int, (Arg, nat)>, r: ResultReceiver<Ret>) -> (Arg, nat)
    where
        F: Fn(Arg) -> TaskResult<Arg, Ret>,
        J: Fn(&[Ret]) -> Ret,
        JA: Fn(&Ret, &[Ret]) -> Ret,
{
    match r {
        ResultReceiver::Channel(_) => (a, depth),
        ResultReceiver::Join(i, b) => (fork_args::<Arg, Ret, F, J, JA>(algo, nodes[b as int].0)[i as int], (nodes[b as int].1 - 1) as nat),
    }
}

/// A barrier's node has a value and is a fork.
spec fn node_ok<Arg, Ret, F, J, JA>(algo: Algorithm<F, J, JA>, n: (Arg, nat)) -> bool
    where
        F: Fn(Arg) -> TaskResult<Arg, Ret>,
        J: Fn(&[Ret]) -> Ret,
        JA: Fn(&Ret, &[Ret]) -> Ret,
{
    &&& tree_value::<Arg, Ret, F, J, JA>(algo, n.0, n.1) is Some
    &&& task_result::<Arg, Ret, F, J, JA>(algo, n.0) is Fork
}

/// A receiver names the channel, or a slot of a fork whose node is known.
spec fn receiver_ok<Arg, Ret, F, J, JA>(algo: Algorithm<F, J, JA>, nodes: Map<int, (Arg, nat)>, r: ResultReceiver<Ret>) -> bool
    where
        F: Fn(Arg) -> TaskResult<Arg, Ret>,
        J: Fn(&[Ret]) -> Ret,
        JA: Fn(&Ret, &[Ret]) -> Ret,
{
    match r {
        ResultReceiver::Channel(_) => true,
        ResultReceiver::Join(i, b) => {
            &&& nodes.contains_key(b as int)
            &&& (i as int) < fork_args::<Arg, Ret, F, J, JA>(algo, nodes[b as int].0).len()
        },
    }
}

/// A task runs `algo` on the argument of the node its receiver waits for.
spec fn task_ok<Arg, Ret, F, J, JA>(algo: Algorithm<F, J, JA>, a: Arg, depth: nat, nodes: Map<int, (Arg, nat)>, t: Task<Arg, Ret, F, J, JA>) -> bool
    where
        F: Fn(Arg) -> TaskResult<Arg, Ret>,
        J: Fn(&[Ret]) -> Ret,
        JA: Fn(&Ret, &[Ret]) -> Ret,
{
    &&& t.algo == algo
    &&& receiver_ok(algo, nodes, t.join)
    &&& t.arg == node_of(algo, a, depth, nodes, t.join).0
}

/// A barrier collects the subtrees of its node `n`, holds only their
/// values, and delivers to a receiver that waits for `n`.
spec fn barrier_ok<Arg, Ret, F, J, JA>(algo: Algorithm<F, J, JA>, a: Arg, depth: nat, nodes: Map<int, (Arg, nat)>, jb: JoinBarrier<Ret, J, JA>, n: (Arg, nat)) -> bool
    where
        F: Fn(Arg) -> TaskResult<Arg, Ret>,
        J: Fn(&[Ret]) -> Ret,
        JA: Fn(&Ret, &[Ret]) -> Ret,
{
    let args = fork_args::<Arg, Ret, F, J, JA>(algo, n.0);
    &&& algo.style matches AlgoStyle::Reduce(rs) && jb.joinfun == rs
    &&& jb.joinarg == fork_joinarg::<Arg, Ret, F, J, JA>(algo, n.0)
    &&& jb.joinfunarg@.len() == args.len()
    &&& args.len() <= usize::MAX
    &&& forall|k: int| 0 <= k < args.len() && (#[trigger] jb.joinfunarg@[k]) is Some ==> jb.joinfunarg@[k] == Some(tree_value::<Arg, Ret, F, J, JA>(algo, args[k], (n.1 - 1) as nat)->0)
    &&& receiver_ok(algo, nodes, jb.parent)
    &&& node_of(algo, a, depth, nodes, jb.parent) == n
}

/// A completed join holds the values of all subtrees of the node its
/// parent waits for.
spec fn joining_ok<Arg, Ret, F, J, JA>(algo: Algorithm<F, J, JA>, a: Arg, depth: nat, nodes: Map<int, (Arg, nat)>, cj: CompletedJoin<Ret, J, JA>) -> bool
    where
        F: Fn(Arg) -> TaskResult<Arg, Ret>,
        J: Fn(&[Ret]) -> Ret,
        JA: Fn(&Ret, &[Ret]) -> Ret,
{
    let n = node_of(algo, a, depth, nodes, cj.parent);
    &&& receiver_ok(algo, nodes, cj.parent)
    &&& task_result::<Arg, Ret, F, J, JA>(algo, n.0) is Fork
    &&& algo.style matches AlgoStyle::Reduce(rs) && cj.joinfun == rs
    &&& cj.joinarg == fork_joinarg::<Arg, Ret, F, J, JA>(algo, n.0)
    &&& cj.values@ == kid_values::<Arg, Ret, F, J, JA>(algo, fork_args::<Arg, Ret, F, J, JA>(algo, n.0), (n.1 - 1) as nat)
}

/// Where what a worker holds delivers.
spec fn held_receiver<Arg, Ret, F, J, JA>(h: Held<Arg, Ret, F, J, JA>) -> Option<ResultReceiver<Ret>> {
    match h {
        Held::Idle => None,
        Held::Running(t) => Some(t.join),
        Held::Joining(cj) => Some(cj.parent),
    }
}

/// What a worker holds is in good standing.
spec fn held_ok<Arg, Ret, F, J, JA>(algo: Algorithm<F, J, JA>, a: Arg, depth: nat, nodes: Map<int, (Arg, nat)>, h: Held<Arg, Ret, F, J, JA>) -> bool
    where
        F: Fn(Arg) -> TaskResult<Arg, Ret>,
        J: Fn(&[Ret]) -> Ret,
        JA: Fn(&Ret, &[Ret]) -> Ret,
{
    match h {
        Held::Idle => true,
        Held::Running(t) => task_ok(algo, a, depth, nodes, t),
        Held::Joining(cj) => joining_ok(algo, a, depth, nodes, cj),
    }
}

/// The engine side of the invariant of a run: every barrier and every task
/// waits for the value of a node of the tree, and holds only values of it.
spec fn engine_inv<Arg, Ret, F, J, JA>(algo: Algorithm<F, J, JA>, a: Arg, depth: nat, nodes: Map<int, (Arg, nat)>, e: Scheduler<Arg, Ret, F, J, JA>) -> bool
    where
        F: Fn(Arg) -> TaskResult<Arg, Ret>,
        J: Fn(&[Ret]) -> Ret,
        JA: Fn(&Ret, &[Ret]) -> Ret,
{
    &&& e.wf()
    &&& forall|b: int| #[trigger] nodes.contains_key(b) ==> 0 <= b < e.next_barrier() && node_ok(algo, nodes[b])
    &&& forall|b: int| (#[trigger] e.barrier_at(b)) is Some ==> nodes.contains_key(b) && barrier_ok(algo, a, depth, nodes, e.barrier_at(b)->0, nodes[b])
    &&& forall|k: int| 0 <= k < e.tasks().len() ==> task_ok(algo, a, depth, nodes, #[trigger] e.tasks()[k])
}

/// No task but number `k0` delivers to a channel.
spec fn no_chan_tasks_but<Arg, Ret, F, J, JA>(e: Scheduler<Arg, Ret, F, J, JA>, k0: int) -> bool {
    forall|k: int| 0 <= k < e.tasks().len() && k != k0 ==> !((#[trigger] e.tasks()[k]).join is Channel)
}

/// No kept barrier but number `c0` delivers to a channel.
spec fn no_chan_barriers_but<Arg, Ret, F, J, JA>(e: Scheduler<Arg, Ret, F, J, JA>, c0: int) -> bool {
    forall|c: int| c != c0 && (#[trigger] e.barrier_at(c)) is Some ==> !(e.barrier_at(c)->0.parent is Channel)
}

/// The worker holds a task or a join that delivers to a job's channel.
spec fn chan_held<Arg, Ret, F, J, JA>(h: Held<Arg, Ret, F, J, JA>) -> bool {
    held_receiver(h) matches Some(r) && r is Channel
}

/// No worker but number `w0` holds something that delivers to a channel.
spec fn no_chan_held_but<Arg, Ret, F, J, JA>(hs: Seq<Held<Arg, Ret, F, J, JA>>, w0: int) -> bool {
    forall|u: int| 0 <= u < hs.len() && u != w0 ==> !chan_held(#[trigger] hs[u])
}

/// There is one writer of the value of the whole tree, until it is sent.
spec fn root_ok<Arg, Ret, F, J, JA>(e: Scheduler<Arg, Ret, F, J, JA>, hs: Seq<Held<Arg, Ret, F, J, JA>>, sent: Seq<Ret>, root: RootAt) -> bool {
    match root {
        RootAt::Sent => sent.len() == 1 && no_chan_tasks_but(e, -1) && no_chan_held_but(hs, -1) && no_chan_barriers_but(e, -1),
        RootAt::Task(k) => {
            &&& sent.len() == 0
            &&& 0 <= k < e.tasks().len()
            &&& e.tasks()[k].join is Channel
            &&& no_chan_tasks_but(e, k)
            &&& no_chan_held_but(hs, -1)
            &&& no_chan_barriers_but(e, -1)
        },
        RootAt::Held(w) => {
            &&& sent.len() == 0
            &&& 0 <= w < hs.len()
            &&& chan_held(hs[w])
            &&& no_chan_held_but(hs, w)
            &&& no_chan_tasks_but(e, -1)
            &&& no_chan_barriers_but(e, -1)
        },
        RootAt::Barrier(c) => {
            &&& sent.len() == 0
            &&& e.barrier_at(c) matches Some(jb) && jb.parent is Channel
            &&& no_chan_tasks_but(e, -1)
            &&& no_chan_held_but(hs, -1)
            &&& no_chan_barriers_but(e, c)
        },
    }
}

/// Some task, some worker, or a kept barrier will deliver into slot `i` of
/// barrier `b`.
spec fn has_writer<Arg, Ret, F, J, JA>(e: Scheduler<Arg, Ret, F, J, JA>, hs: Seq<Held<Arg, Ret, F, J, JA>>, i: int, b: int) -> bool {
    let r = ResultReceiver::<Ret>::Join(i as usize, b as usize);
    ||| exists|k: int| 0 <= k < e.tasks().len() && (#[trigger] e.tasks()[k]).join == r
    ||| exists|u: int| 0 <= u < hs.len() && held_receiver(#[trigger] hs[u]) == Some(r)
    ||| exists|c: int| (#[trigger] e.barrier_at(c)) is Some && e.barrier_at(c)->0.parent == r
}

/// Every waiting slot has a writer, and a barrier delivers into a barrier
/// with a smaller number.
spec fn writers_ok<Arg, Ret, F, J, JA>(e: Scheduler<Arg, Ret, F, J, JA>, hs: Seq<Held<Arg, Ret, F, J, JA>>) -> bool {
    &&& forall|c: int| (#[trigger] e.barrier_at(c)) is Some ==> (e.barrier_at(c)->0.parent matches ResultReceiver::Join(_, p) ==> (p as int) < c)
    &&& forall|b: int, i: int| #[trigger] e.waits(b, i) ==> has_writer(e, hs, i, b)
}

/// Every worker holds something in good standing.
spec fn helds_ok<Arg, Ret, F, J, JA>(algo: Algorithm<F, J, JA>, a: Arg, depth: nat, nodes: Map<int, (Arg, nat)>, hs: Seq<Held<Arg, Ret, F, J, JA>>) -> bool
    where
        F: Fn(Arg) -> TaskResult<Arg, Ret>,
        J: Fn(&[Ret]) -> Ret,
        JA: Fn(&Ret, &[Ret]) -> Ret,
{
    forall|u: int| 0 <= u < hs.len() ==> held_ok(algo, a, depth, nodes, #[trigger] hs[u])
}

/// Every value sent is the value of the tree.
spec fn sent_ok<Arg, Ret, F, J, JA>(algo: Algorithm<F, J, JA>, a: Arg, depth: nat, sent: Seq<Ret>) -> bool
    where
        F: Fn(Arg) -> TaskResult<Arg, Ret>,
        J: Fn(&[Ret]) -> Ret,
        JA: Fn(&Ret, &[Ret]) -> Ret,
{
    forall|k: int| 0 <= k < sent.len() ==> #[trigger] sent[k] == tree_value::<Arg, Ret, F, J, JA>(algo, a, depth)->0
}

/// The premises of the law: a deterministic `Reduce` algorithm and a tree
/// with a value.
spec fn premises<Arg, Ret, F, J, JA>(algo: Algorithm<F, J, JA>, a: Arg, depth: nat) -> bool
    where
        F: Fn(Arg) -> TaskResult<Arg, Ret>,
        J: Fn(&[Ret]) -> Ret,
        JA: Fn(&Ret, &[Ret]) -> Ret,
{
    &&& algo.style is Reduce
    &&& deterministic::<Arg, Ret, F, J, JA>(algo)
    &&& tree_value::<Arg, Ret, F, J, JA>(algo, a, depth) is Some
}

/// A receiver in good standing waits for a node that has a value.
proof fn lemma_receiver_value<Arg, Ret, F, J, JA>(algo: Algorithm<F, J, JA>, a: Arg, depth: nat, nodes: Map<int, (Arg, nat)>, e: Scheduler<Arg, Ret, F, J, JA>, r: ResultReceiver<Ret>)
    where
        F: Fn(Arg) -> TaskResult<Arg, Ret>,
        J: Fn(&[Ret]) -> Ret,
        JA: Fn(&Ret, &[Ret]) -> Ret,
    requires
        premises::<Arg, Ret, F, J, JA>(algo, a, depth),
        engine_inv(algo, a, depth, nodes, e),
        receiver_ok(algo, nodes, r),
    ensures
        tree_value::<Arg, Ret, F, J, JA>(algo, node_of(algo, a, depth, nodes, r).0, node_of(algo, a, depth, nodes, r).1) is Some,
{
    if let ResultReceiver::Join(i, b) = r {
        let n = nodes[b as int];
        assert(node_ok(algo, n));
        lemma_tree_value_unfold::<Arg, Ret, F, J, JA>(algo, n.0, n.1);
        let args = fork_args::<Arg, Ret, F, J, JA>(algo, n.0);
        assert(tree_value::<Arg, Ret, F, J, JA>(algo, args[i as int], (n.1 - 1) as nat) is Some);
    }
}

/// A fresh barrier number leaves every receiver as it was.
proof fn lemma_nodes_extend<Arg, Ret, F, J, JA>(algo: Algorithm<F, J, JA>, a: Arg, depth: nat, nodes: Map<int, (Arg, nat)>, b: int, n: (Arg, nat), r: ResultReceiver<Ret>)
    where
        F: Fn(Arg) -> TaskResult<Arg, Ret>,
        J: Fn(&[Ret]) -> Ret,
        JA: Fn(&Ret, &[Ret]) -> Ret,
    requires
        !nodes.contains_key(b),
        receiver_ok(algo, nodes, r),
    ensures
        receiver_ok(algo, nodes.insert(b, n), r),
        node_of(algo, a, depth, nodes.insert(b, n), r) == node_of(algo, a, depth, nodes, r),
{
}

/// A fresh barrier number leaves what a worker holds as it was.
proof fn lemma_held_extend<Arg, Ret, F, J, JA>(algo: Algorithm<F, J, JA>, a: Arg, depth: nat, nodes: Map<int, (Arg, nat)>, b: int, n: (Arg, nat), h: Held<Arg, Ret, F, J, JA>)
    where
        F: Fn(Arg) -> TaskResult<Arg, Ret>,
        J: Fn(&[Ret]) -> Ret,
        JA: Fn(&Ret, &[Ret]) -> Ret,
    requires
        !nodes.contains_key(b),
        held_ok(algo, a, depth, nodes, h),
    ensures
        held_ok(algo, a, depth, nodes.insert(b, n), h),
{
    match h {
        Held::Running(t) => lemma_nodes_extend(algo, a, depth, nodes, b, n, t.join),
        Held::Joining(cj) => lemma_nodes_extend(algo, a, depth, nodes, b, n, cj.parent),
        Held::Idle => {},
    }
}

/// Taking a task keeps the invariant; the task is in good standing.
proof fn lemma_take<Arg, Ret, F, J, JA>(
    algo: Algorithm<F, J, JA>, a: Arg, depth: nat, nodes: Map<int, (Arg, nat)>,
    e0: Scheduler<Arg, Ret, F, J, JA>, e1: Scheduler<Arg, Ret, F, J, JA>, t: Task<Arg, Ret, F, J, JA>,
    hs: Seq<Held<Arg, Ret, F, J, JA>>, w: int, sent: Seq<Ret>, root: RootAt,
) -> (root1: RootAt)
    where
        F: Fn(Arg) -> TaskResult<Arg, Ret>,
        J: Fn(&[Ret]) -> Ret,
        JA: Fn(&Ret, &[Ret]) -> Ret,
    requires
        engine_inv(algo, a, depth, nodes, e0),
        0 <= w < hs.len(),
        hs[w] is Idle,
        root_ok(e0, hs, sent, root),
        writers_ok(e0, hs),
        e1.wf(),
        e1.barriers_agree(&e0),
        e1.next_barrier() == e0.next_barrier(),
        Scheduler::took(&e0, &e1, Some(t)),
    ensures
        engine_inv(algo, a, depth, nodes, e1),
        task_ok(algo, a, depth, nodes, t),
        root_ok(e1, hs.update(w, Held::Running(t)), sent, root1),
        writers_ok(e1, hs.update(w, Held::Running(t))),
{
    let n = e0.tasks().len();
    let hs1 = hs.update(w, Held::Running(t));
    assert(n > 0);
    assert(t == e0.tasks()[n - 1]);
    assert forall|k: int| 0 <= k < e1.tasks().len() implies #[trigger] e1.tasks()[k] == e0.tasks()[k] by {}
    assert forall|c: int| #[trigger] e1.barrier_at(c) == e0.barrier_at(c) by {}
    assert forall|u: int| 0 <= u < hs.len() && u != w implies #[trigger] hs1[u] == hs[u] by {}
    assert forall|b: int, i: int| #[trigger] e1.waits(b, i) implies has_writer(e1, hs1, i, b) by {
        let r = ResultReceiver::<Ret>::Join(i as usize, b as usize);
        assert(e0.waits(b, i));
        if exists|k: int| 0 <= k < n && (#[trigger] e0.tasks()[k]).join == r {
            let k = choose|k: int| 0 <= k < n && (#[trigger] e0.tasks()[k]).join == r;
            if k < n - 1 {
                assert(e1.tasks()[k] == e0.tasks()[k]);
            } else {
                assert(held_receiver(hs1[w]) == Some(r));
            }
        } else if exists|u: int| 0 <= u < hs.len() && held_receiver(#[trigger] hs[u]) == Some(r) {
            let u = choose|u: int| 0 <= u < hs.len() && held_receiver(#[trigger] hs[u]) == Some(r);
            assert(hs1[u] == hs[u]);
        } else {
            let c = choose|c: int| (#[trigger] e0.barrier_at(c)) is Some && e0.barrier_at(c)->0.parent == r;
            assert(e1.barrier_at(c) == e0.barrier_at(c));
        }
    }
    match root {
        RootAt::Task(k) => if k == n - 1 {
            RootAt::Held(w)
        } else {
            RootAt::Task(k)
        },
        _ => root,
    }
}

/// The values that delivering `v` to `r` hands to the job's channel.
spec fn handed_by<Ret>(r: ResultReceiver<Ret>, v: Ret) -> Seq<Ret> {
    if r is Channel {
        seq![v]
    } else {
        Seq::empty()
    }
}

/// Delivering the value of its node to a receiver in good standing keeps
/// the invariant.
proof fn lemma_deliver<Arg, Ret, F, J, JA>(
    algo: Algorithm<F, J, JA>, a: Arg, depth: nat, nodes: Map<int, (Arg, nat)>,
    e0: Scheduler<Arg, Ret, F, J, JA>, e1: Scheduler<Arg, Ret, F, J, JA>,
    r: ResultReceiver<Ret>, v: Ret, step: Step<Ret, J, JA>,
    hs: Seq<Held<Arg, Ret, F, J, JA>>, w: int, sent: Seq<Ret>, root: RootAt,
) -> (root1: RootAt)
    where
        F: Fn(Arg) -> TaskResult<Arg, Ret>,
        J: Fn(&[Ret]) -> Ret,
        JA: Fn(&Ret, &[Ret]) -> Ret,
    requires
        premises::<Arg, Ret, F, J, JA>(algo, a, depth),
        engine_inv(algo, a, depth, nodes, e0),
        receiver_ok(algo, nodes, r),
        tree_value::<Arg, Ret, F, J, JA>(algo, node_of(algo, a, depth, nodes, r).0, node_of(algo, a, depth, nodes, r).1) == Some(v),
        0 <= w < hs.len(),
        held_receiver(hs[w]) == Some(r),
        root_ok(e0, hs, sent, root),
        sent_ok(algo, a, depth, sent),
        e1.wf(),
        e1.tasks() == e0.tasks(),
        e1.next_barrier() == e0.next_barrier(),
        Scheduler::delivered(&e0, &e1, r, v, step),
    ensures
        engine_inv(algo, a, depth, nodes, e1),
        held_ok(algo, a, depth, nodes, held_after::<Arg, Ret, F, J, JA>(step)),
        root_ok(e1, hs.update(w, held_after::<Arg, Ret, F, J, JA>(step)), sent + handed_by(r, v), root1),
        sent_ok(algo, a, depth, sent + handed_by(r, v)),
{
    e0.lemma_no_barrier_beyond();
    let hs1 = hs.update(w, held_after::<Arg, Ret, F, J, JA>(step));
    assert forall|u: int| 0 <= u < hs.len() && u != w implies #[trigger] hs1[u] == hs[u] by {}
    assert(chan_held(hs[w]) == r is Channel);
    match r {
        ResultReceiver::Channel(_) => {
            assert forall|c: int| #[trigger] e1.barrier_at(c) == e0.barrier_at(c) by {}
            assert(sent.len() == 0);
            let s1 = sent + handed_by(r, v);
            assert(s1 =~= seq![v]);
            RootAt::Sent
        },
        ResultReceiver::Join(i, b) => {
            if e0.waits(b as int, i as int) {
                let jb = e0.barrier_at(b as int)->0;
                e0.lemma_kept_barrier_wf(b as int);
                let n = nodes[b as int];
                let args = fork_args::<Arg, Ret, F, J, JA>(algo, n.0);
                assert(barrier_ok(algo, a, depth, nodes, jb, n));
                assert(node_ok(algo, n));
                lemma_tree_value_unfold::<Arg, Ret, F, J, JA>(algo, n.0, n.1);
                let upd = jb.joinfunarg@.update(i as int, Some(v));
                assert forall|k: int| 0 <= k < args.len() && (#[trigger] upd[k]) is Some implies upd[k] == Some(tree_value::<Arg, Ret, F, J, JA>(algo, args[k], (n.1 - 1) as nat)->0) by {
                    if k != i {
                        assert(jb.joinfunarg@[k] is Some);
                    }
                }
                if jb.ret_counter == 1 {
                    let cj = step->Joinable_0;
                    lemma_empty_slots_fill(jb.joinfunarg@, i as int, v);
                    lemma_empty_slots_zero(upd);
                    assert forall|k: int| 0 <= k < args.len() implies #[trigger] cj.values@[k] == kid_values::<Arg, Ret, F, J, JA>(algo, args, (n.1 - 1) as nat)[k] by {
                        assert(upd[k] is Some);
                    }
                    assert(cj.values@ =~= kid_values::<Arg, Ret, F, J, JA>(algo, args, (n.1 - 1) as nat));
                    assert(joining_ok(algo, a, depth, nodes, cj));
                    assert forall|c: int| (#[trigger] e1.barrier_at(c)) is Some implies nodes.contains_key(c) && barrier_ok(algo, a, depth, nodes, e1.barrier_at(c)->0, nodes[c]) by {
                        assert(c != b);
                        assert(e1.barrier_at(c) == e0.barrier_at(c));
                    }
                    match root {
                        RootAt::Barrier(c) => if c == b as int {
                            assert forall|c2: int| c2 != -1 && (#[trigger] e1.barrier_at(c2)) is Some implies !(e1.barrier_at(c2)->0.parent is Channel) by {
                                assert(c2 != b);
                                assert(e1.barrier_at(c2) == e0.barrier_at(c2));
                            }
                            RootAt::Held(w)
                        } else {
                            assert(e1.barrier_at(c) == e0.barrier_at(c));
                            assert forall|c2: int| c2 != c && (#[trigger] e1.barrier_at(c2)) is Some implies !(e1.barrier_at(c2)->0.parent is Channel) by {
                                assert(c2 != b);
                                assert(e1.barrier_at(c2) == e0.barrier_at(c2));
                            }
                            root
                        },
                        _ => {
                            assert forall|c2: int| c2 != -1 && (#[trigger] e1.barrier_at(c2)) is Some implies !(e1.barrier_at(c2)->0.parent is Channel) by {
                                assert(c2 != b);
                                assert(e1.barrier_at(c2) == e0.barrier_at(c2));
                            }
                            root
                        },
                    }
                } else {
                    let nb = e1.barrier_at(b as int)->0;
                    assert(barrier_ok(algo, a, depth, nodes, nb, n));
                    assert forall|c: int| (#[trigger] e1.barrier_at(c)) is Some implies nodes.contains_key(c) && barrier_ok(algo, a, depth, nodes, e1.barrier_at(c)->0, nodes[c]) by {
                        if c != b {
                            assert(e1.barrier_at(c) == e0.barrier_at(c));
                        }
                    }
                    match root {
                        RootAt::Barrier(c) => {
                            assert forall|c2: int| c2 != c && (#[trigger] e1.barrier_at(c2)) is Some implies !(e1.barrier_at(c2)->0.parent is Channel) by {
                                if c2 != b {
                                    assert(e1.barrier_at(c2) == e0.barrier_at(c2));
                                }
                            }
                            if c != b {
                                assert(e1.barrier_at(c) == e0.barrier_at(c));
                            }
                        },
                        _ => {
                            assert forall|c2: int| c2 != -1 && (#[trigger] e1.barrier_at(c2)) is Some implies !(e1.barrier_at(c2)->0.parent is Channel) by {
                                if c2 != b {
                                    assert(e1.barrier_at(c2) == e0.barrier_at(c2));
                                }
                            }
                        },
                    }
                    root
                }
            } else {
                assert forall|c: int| #[trigger] e1.barrier_at(c) == e0.barrier_at(c) by {}
                root
            }
        },
    }
}

/// Running a task in good standing and handing its result to the engine
/// keeps the invariant; a fork gives its new barrier the task's node.
proof fn lemma_run<Arg, Ret, F, J, JA>(
    algo: Algorithm<F, J, JA>, a: Arg, depth: nat, nodes: Map<int, (Arg, nat)>,
    e0: Scheduler<Arg, Ret, F, J, JA>, e1: Scheduler<Arg, Ret, F, J, JA>, t: Task<Arg, Ret, F, J, JA>,
    r: TaskResult<Arg, Ret>, step: Step<Ret, J, JA>,
    hs: Seq<Held<Arg, Ret, F, J, JA>>, w: int, sent: Seq<Ret>, root: RootAt,
) -> (res: (Map<int, (Arg, nat)>, RootAt))
    where
        F: Fn(Arg) -> TaskResult<Arg, Ret>,
        J: Fn(&[Ret]) -> Ret,
        JA: Fn(&Ret, &[Ret]) -> Ret,
    requires
        premises::<Arg, Ret, F, J, JA>(algo, a, depth),
        engine_inv(algo, a, depth, nodes, e0),
        0 <= w < hs.len(),
        hs[w] == Held::Running(t),
        helds_ok(algo, a, depth, nodes, hs),
        root_ok(e0, hs, sent, root),
        writers_ok(e0, hs),
        sent_ok(algo, a, depth, sent),
        call_ensures(t.algo.fun, (t.arg,), r),
        e1.wf(),
        Scheduler::handled(&e0, &e1, t.algo, t.join, r, step),
    ensures
        engine_inv(algo, a, depth, res.0, e1),
        helds_ok(algo, a, depth, res.0, hs.update(w, held_after::<Arg, Ret, F, J, JA>(step))),
        root_ok(e1, hs.update(w, held_after::<Arg, Ret, F, J, JA>(step)), sent + handed(Held::Running(t), Event::Run(r, step)), res.1),
        sent_ok(algo, a, depth, sent + handed(Held::Running(t), Event::Run(r, step))),
        writers_ok(e1, hs.update(w, held_after::<Arg, Ret, F, J, JA>(step))),
{
    let hs1 = hs.update(w, held_after::<Arg, Ret, F, J, JA>(step));
    assert forall|u: int| 0 <= u < hs.len() && u != w implies #[trigger] hs1[u] == hs[u] by {}
    assert(held_ok(algo, a, depth, nodes, hs[w]));
    e0.lemma_next_barrier_fits();
    e0.lemma_no_barrier_beyond();
    lemma_task_result_is::<Arg, Ret, F, J, JA>(algo, t.arg, r);
    lemma_receiver_value(algo, a, depth, nodes, e0, t.join);
    let n = node_of(algo, a, depth, nodes, t.join);
    lemma_tree_value_unfold::<Arg, Ret, F, J, JA>(algo, n.0, n.1);
    match r {
        TaskResult::Done(v) => {
            assert(handed(Held::Running(t), Event::Run(r, step)) == handed_by(t.join, v));
            let root1 = lemma_deliver(algo, a, depth, nodes, e0, e1, t.join, v, step, hs, w, sent, root);
            lemma_deliver_writers(algo, a, depth, nodes, e0, e1, t.join, v, step, hs, w);
            assert forall|u: int| 0 <= u < hs1.len() implies held_ok(algo, a, depth, nodes, #[trigger] hs1[u]) by {
                if u != w {
                    assert(held_ok(algo, a, depth, nodes, hs[u]));
                }
            }
            (nodes, root1)
        },
        TaskResult::Fork(args, x) => {
            assert(handed(Held::Running(t), Event::Run(r, step)) =~= Seq::<Ret>::empty());
            assert(sent + Seq::<Ret>::empty() =~= sent);
            assert(node_ok(algo, n));
            if args@.len() == 0 {
                let cj = step->Joinable_0;
                assert(cj.values@ =~= kid_values::<Arg, Ret, F, J, JA>(algo, fork_args::<Arg, Ret, F, J, JA>(algo, n.0), (n.1 - 1) as nat));
                assert forall|c: int| #[trigger] e1.barrier_at(c) == e0.barrier_at(c) by {}
                assert forall|b: int, i: int| #[trigger] e1.waits(b, i) implies has_writer(e1, hs1, i, b) by {
                    assert(e0.waits(b, i));
                    let rr = ResultReceiver::<Ret>::Join(i as usize, b as usize);
                    if exists|k: int| 0 <= k < e0.tasks().len() && (#[trigger] e0.tasks()[k]).join == rr {
                        let k = choose|k: int| 0 <= k < e0.tasks().len() && (#[trigger] e0.tasks()[k]).join == rr;
                        assert(e1.tasks()[k] == e0.tasks()[k]);
                    } else if exists|u: int| 0 <= u < hs.len() && held_receiver(#[trigger] hs[u]) == Some(rr) {
                        let u = choose|u: int| 0 <= u < hs.len() && held_receiver(#[trigger] hs[u]) == Some(rr);
                        assert(held_receiver(hs1[u]) == Some(rr));
                    } else {
                        let c = choose|c: int| (#[trigger] e0.barrier_at(c)) is Some && e0.barrier_at(c)->0.parent == rr;
                        assert(e1.barrier_at(c) == e0.barrier_at(c));
                    }
                }
                assert forall|u: int| 0 <= u < hs1.len() implies held_ok(algo, a, depth, nodes, #[trigger] hs1[u]) by {
                    if u != w {
                        assert(held_ok(algo, a, depth, nodes, hs[u]));
                    }
                }
                (nodes, root)
            } else {
                let b = e0.next_barrier() as int;
                e1.lemma_next_barrier_fits();
                let nodes1 = nodes.insert(b, n);
                let len0 = e0.tasks().len();
                let nb = e1.barrier_at(b)->0;
                lemma_nodes_extend(algo, a, depth, nodes, b, n, t.join);
                assert(barrier_ok(algo, a, depth, nodes1, nb, n));
                assert forall|c: int| #[trigger] nodes1.contains_key(c) implies 0 <= c < e1.next_barrier() && node_ok(algo, nodes1[c]) by {}
                assert forall|c: int| (#[trigger] e1.barrier_at(c)) is Some implies nodes1.contains_key(c) && barrier_ok(algo, a, depth, nodes1, e1.barrier_at(c)->0, nodes1[c]) by {
                    if c != b {
                        assert(e1.barrier_at(c) == e0.barrier_at(c));
                        lemma_nodes_extend(algo, a, depth, nodes, b, n, e0.barrier_at(c)->0.parent);
                    }
                }
                assert forall|k: int| 0 <= k < e1.tasks().len() implies task_ok(algo, a, depth, nodes1, #[trigger] e1.tasks()[k]) && (k >= len0 ==> !(e1.tasks()[k].join is Channel)) by {
                    if k < len0 {
                        assert(e1.tasks()[k] == e0.tasks()[k]);
                        lemma_nodes_extend(algo, a, depth, nodes, b, n, e0.tasks()[k].join);
                    } else {
                        let st = reduce_subtasks::<Arg, Ret, F, J, JA>(algo, args@, b as usize);
                        assert(e1.tasks()[k] == st[k - len0]);
                    }
                }
                assert forall|c: int| (#[trigger] e1.barrier_at(c)) is Some implies (e1.barrier_at(c)->0.parent matches ResultReceiver::Join(_, p) ==> (p as int) < c) by {
                    if c != b {
                        assert(e1.barrier_at(c) == e0.barrier_at(c));
                    }
                }
                assert forall|u: int| 0 <= u < hs1.len() implies held_ok(algo, a, depth, nodes1, #[trigger] hs1[u]) by {
                    if u != w {
                        assert(held_ok(algo, a, depth, nodes, hs[u]));
                        lemma_held_extend(algo, a, depth, nodes, b, n, hs[u]);
                    }
                }
                assert forall|bb: int, i: int| #[trigger] e1.waits(bb, i) implies has_writer(e1, hs1, i, bb) by {
                    let rr = ResultReceiver::<Ret>::Join(i as usize, bb as usize);
                    if bb == b {
                        let st = reduce_subtasks::<Arg, Ret, F, J, JA>(algo, args@, b as usize);
                        assert(e1.tasks()[len0 + i] == st[i]);
                        assert(e1.tasks()[len0 + i].join == rr);
                    } else {
                        assert(e1.barrier_at(bb) == e0.barrier_at(bb));
                        assert(e0.waits(bb, i));
                        if exists|k: int| 0 <= k < e0.tasks().len() && (#[trigger] e0.tasks()[k]).join == rr {
                            let k = choose|k: int| 0 <= k < e0.tasks().len() && (#[trigger] e0.tasks()[k]).join == rr;
                            assert(e1.tasks()[k] == e0.tasks()[k]);
                        } else if exists|c: int| (#[trigger] e0.barrier_at(c)) is Some && e0.barrier_at(c)->0.parent == rr {
                            let c = choose|c: int| (#[trigger] e0.barrier_at(c)) is Some && e0.barrier_at(c)->0.parent == rr;
                            assert(e1.barrier_at(c) == e0.barrier_at(c));
                        } else {
                            let u = choose|u: int| 0 <= u < hs.len() && held_receiver(#[trigger] hs[u]) == Some(rr);
                            if u == w {
                                assert(t.join == rr);
                                assert(e1.barrier_at(b)->0.parent == rr);
                            } else {
                                assert(hs1[u] == hs[u]);
                            }
                        }
                    }
                }
                let root1 = match root {
                    RootAt::Held(w0) if w0 == w => {
                        assert forall|c: int| c != b && (#[trigger] e1.barrier_at(c)) is Some implies !(e1.barrier_at(c)->0.parent is Channel) by {
                            assert(e1.barrier_at(c) == e0.barrier_at(c));
                        }
                        assert forall|k: int| 0 <= k < e1.tasks().len() && k != -1 implies !((#[trigger] e1.tasks()[k]).join is Channel) by {
                            if k < len0 {
                                assert(e1.tasks()[k] == e0.tasks()[k]);
                            }
                        }
                        RootAt::Barrier(b)
                    },
                    _ => {
                        assert forall|c: int| c != b && (#[trigger] e1.barrier_at(c)) is Some implies e1.barrier_at(c) == e0.barrier_at(c) by {}
                        assert forall|k: int| 0 <= k < len0 implies (#[trigger] e1.tasks()[k]) == e0.tasks()[k] by {}
                        root
                    },
                };
                (nodes1, root1)
            }
        },
    }
}

/// Running the join function of a completed join in good standing and
/// delivering its value keeps the invariant.
proof fn lemma_join<Arg, Ret, F, J, JA>(
    algo: Algorithm<F, J, JA>, a: Arg, depth: nat, nodes: Map<int, (Arg, nat)>,
    e0: Scheduler<Arg, Ret, F, J, JA>, e1: Scheduler<Arg, Ret, F, J, JA>, cj: CompletedJoin<Ret, J, JA>,
    v: Ret, step: Step<Ret, J, JA>,
    hs: Seq<Held<Arg, Ret, F, J, JA>>, w: int, sent: Seq<Ret>, root: RootAt,
) -> (root1: RootAt)
    where
        F: Fn(Arg) -> TaskResult<Arg, Ret>,
        J: Fn(&[Ret]) -> Ret,
        JA: Fn(&Ret, &[Ret]) -> Ret,
    requires
        premises::<Arg, Ret, F, J, JA>(algo, a, depth),
        engine_inv(algo, a, depth, nodes, e0),
        0 <= w < hs.len(),
        hs[w] == Held::<Arg, Ret, F, J, JA>::Joining(cj),
        helds_ok(algo, a, depth, nodes, hs),
        root_ok(e0, hs, sent, root),
        writers_ok(e0, hs),
        sent_ok(algo, a, depth, sent),
        cj.gives(v),
        e1.wf(),
        e1.tasks() == e0.tasks(),
        e1.next_barrier() == e0.next_barrier(),
        Scheduler::delivered(&e0, &e1, cj.parent, v, step),
    ensures
        engine_inv(algo, a, depth, nodes, e1),
        helds_ok(algo, a, depth, nodes, hs.update(w, held_after::<Arg, Ret, F, J, JA>(step))),
        root_ok(e1, hs.update(w, held_after::<Arg, Ret, F, J, JA>(step)), sent + handed(Held::<Arg, Ret, F, J, JA>::Joining(cj), Event::<Arg, Ret, J, JA>::Join(v, step)), root1),
        sent_ok(algo, a, depth, sent + handed(Held::<Arg, Ret, F, J, JA>::Joining(cj), Event::<Arg, Ret, J, JA>::Join(v, step))),
        writers_ok(e1, hs.update(w, held_after::<Arg, Ret, F, J, JA>(step))),
{
    let hs1 = hs.update(w, held_after::<Arg, Ret, F, J, JA>(step));
    assert forall|u: int| 0 <= u < hs.len() && u != w implies #[trigger] hs1[u] == hs[u] by {}
    assert(held_ok(algo, a, depth, nodes, hs[w]));
    lemma_deliver_writers(algo, a, depth, nodes, e0, e1, cj.parent, v, step, hs, w);
    lemma_receiver_value(algo, a, depth, nodes, e0, cj.parent);
    let n = node_of(algo, a, depth, nodes, cj.parent);
    lemma_tree_value_unfold::<Arg, Ret, F, J, JA>(algo, n.0, n.1);
    lemma_join_gives::<Arg, Ret, F, J, JA>(algo, cj, v);
    assert(handed(Held::<Arg, Ret, F, J, JA>::Joining(cj), Event::<Arg, Ret, J, JA>::Join(v, step)) == handed_by(cj.parent, v));
    let root1 = lemma_deliver(algo, a, depth, nodes, e0, e1, cj.parent, v, step, hs, w, sent, root);
    assert forall|u: int| 0 <= u < hs1.len() implies held_ok(algo, a, depth, nodes, #[trigger] hs1[u]) by {
        if u != w {
            assert(held_ok(algo, a, depth, nodes, hs[u]));
        }
    }
    root1
}

/// The invariant holds after every prefix of a run.
proof fn lemma_run_prefix<Arg, Ret, F, J, JA>(
    algo: Algorithm<F, J, JA>, a: Arg, depth: nat,
    e0: Scheduler<Arg, Ret, F, J, JA>,
    engines: Seq<Scheduler<Arg, Ret, F, J, JA>>,
    helds: Seq<Seq<Held<Arg, Ret, F, J, JA>>>,
    events: Seq<(int, Event<Arg, Ret, J, JA>)>,
    n: nat,
) -> (res: (Map<int, (Arg, nat)>, RootAt))
    where
        F: Fn(Arg) -> TaskResult<Arg, Ret>,
        J: Fn(&[Ret]) -> Ret,
        JA: Fn(&Ret, &[Ret]) -> Ret,
    requires
        premises::<Arg, Ret, F, J, JA>(algo, a, depth),
        is_run(algo, a, e0, engines, helds, events),
        n <= events.len(),
    ensures
        engine_inv(algo, a, depth, res.0, engines[n as int]),
        helds_ok(algo, a, depth, res.0, helds[n as int]),
        root_ok(engines[n as int], helds[n as int], handed_values(helds, events, n), res.1),
        sent_ok(algo, a, depth, handed_values(helds, events, n)),
        writers_ok(engines[n as int], helds[n as int]),
        helds[n as int].len() == helds[0].len(),
    decreases n,
{
    if n == 0 {
        let e = engines[0];
        let hs = helds[0];
        let nodes = Map::<int, (Arg, nat)>::empty();
        assert(e.tasks().len() == 1);
        assert(e.tasks()[0] == e.tasks().last());
        assert forall|c: int| #[trigger] e.barrier_at(c) == e0.barrier_at(c) by {}
        assert(task_ok(algo, a, depth, nodes, e.tasks()[0]));
        assert forall|b: int, i: int| #[trigger] e.waits(b, i) implies has_writer(e, hs, i, b) by {
            assert(e0.barrier_at(b) is None);
        }
        (nodes, RootAt::Task(0))
    } else {
        let i = n - 1;
        let (nodes, root) = lemma_run_prefix(algo, a, depth, e0, engines, helds, events, (n - 1) as nat);
        let sent = handed_values(helds, events, (n - 1) as nat);
        let hs = helds[i];
        let w = events[i].0;
        let ev = events[i].1;
        assert(handed_values(helds, events, n) == sent + handed(hs[w], ev));
        assert(pool_step(engines[i], hs, w, ev, engines[i + 1], helds[i + 1]));
        assert(helds[n as int] =~= hs.update(w, helds[n as int][w]));
        match ev {
            Event::Take => {
                assert(sent + handed(hs[w], ev) =~= sent);
                let t = helds[n as int][w]->Running_0;
                let root1 = lemma_take(algo, a, depth, nodes, engines[i], engines[n as int], t, hs, w, sent, root);
                assert forall|u: int| 0 <= u < hs.len() implies held_ok(algo, a, depth, nodes, #[trigger] helds[n as int][u]) by {
                    if u != w {
                        assert(helds[n as int][u] == hs[u]);
                    }
                }
                (nodes, root1)
            },
            Event::Run(r, step) => {
                let t = hs[w]->Running_0;
                lemma_run(algo, a, depth, nodes, engines[i], engines[n as int], t, r, step, hs, w, sent, root)
            },
            Event::Join(v, step) => {
                let cj = hs[w]->Joining_0;
                let root1 = lemma_join(algo, a, depth, nodes, engines[i], engines[n as int], cj, v, step, hs, w, sent, root);
                (nodes, root1)
            },
        }
    }
}

/// A whole `Reduce` computation gives the value of its problem tree.
///
/// Take a computation of a `Reduce` algorithm on `a`, submitted to an empty
/// engine and run by any number of workers, each of which takes tasks, runs
/// the task function, hands results to the engine and runs the join
/// functions of the joins the engine reports complete, their steps on the
/// engine interleaved in any order. If the task and join functions are
/// deterministic and the problem tree below `a` has a value at some depth,
/// then along every run the job's channel is handed at most one value, and
/// that value is the value of the tree: the leaves' values joined level by
/// level, the results of each fork in fork order. Once no task waits and no
/// worker holds anything, exactly one value has been handed. The values
/// handed are exactly what the engine sends on the job's channel (the one
/// `submit` gave the computation's first task and its job); it sends
/// nothing on any other channel.
pub proof fn law_reduce_run_hands_tree_value<Arg, Ret, F, J, JA>(
    algo: Algorithm<F, J, JA>,
    a: Arg,
    depth: nat,
    e0: Scheduler<Arg, Ret, F, J, JA>,
    engines: Seq<Scheduler<Arg, Ret, F, J, JA>>,
    helds: Seq<Seq<Held<Arg, Ret, F, J, JA>>>,
    events: Seq<(int, Event<Arg, Ret, J, JA>)>,
)
    where
        F: Fn(Arg) -> TaskResult<Arg, Ret>,
        J: Fn(&[Ret]) -> Ret,
        JA: Fn(&Ret, &[Ret]) -> Ret,
    requires
        algo.style is Reduce,
        deterministic::<Arg, Ret, F, J, JA>(algo),
        tree_value::<Arg, Ret, F, J, JA>(algo, a, depth) is Some,
        is_run(algo, a, e0, engines, helds, events),
    ensures
        handed_values(helds, events, events.len()).len() <= 1,
        forall|k: int| 0 <= k < handed_values(helds, events, events.len()).len()
            ==> #[trigger] handed_values(helds, events, events.len())[k] == tree_value::<Arg, Ret, F, J, JA>(algo, a, depth)->0,
        quiet(engines.last(), helds.last()) ==> handed_values(helds, events, events.len()).len() == 1,
        forall|c: int| #[trigger] sent_on(engines.last().sent_log(), c) == sent_on(e0.sent_log(), c) + if c == engines[0].tasks().last().join->Channel_0.channel_id() {
            handed_values(helds, events, events.len())
        } else {
            Seq::<Ret>::empty()
        },
{
    assert forall|c: int| #[trigger] sent_on(engines.last().sent_log(), c) == sent_on(e0.sent_log(), c) + if c == engines[0].tasks().last().join->Channel_0.channel_id() {
        handed_values(helds, events, events.len())
    } else {
        Seq::<Ret>::empty()
    } by {
        lemma_run_sends(algo, a, e0, engines, helds, events, c);
    }
    let (nodes, root) = lemma_run_prefix(algo, a, depth, e0, engines, helds, events, events.len());
    let e = engines.last();
    let hs = helds.last();
    assert(e == engines[events.len() as int]);
    assert(hs == helds[events.len() as int]);
    if quiet(e, hs) {
        match root {
            RootAt::Barrier(c) => {
                assert forall|b: int, i: int| #[trigger] e.waits(b, i) implies has_writer(e, Seq::<Held<Arg, Ret, F, J, JA>>::empty(), i, b) by {
                    let rr = ResultReceiver::<Ret>::Join(i as usize, b as usize);
                    assert(has_writer(e, hs, i, b));
                    if exists|u: int| 0 <= u < hs.len() && held_receiver(#[trigger] hs[u]) == Some(rr) {
                        let u = choose|u: int| 0 <= u < hs.len() && held_receiver(#[trigger] hs[u]) == Some(rr);
                        assert(hs[u] is Idle);
                    }
                }
                lemma_quiet_no_barrier(algo, a, depth, nodes, e, c);
            },
            RootAt::Held(w) => {
                assert(hs[w] is Idle);
            },
            _ => {},
        }
    }
}

/// Delivering to a receiver keeps a writer for every waiting slot; the
/// parent of a barrier that completes gets the worker as its writer.
proof fn lemma_deliver_writers<Arg, Ret, F, J, JA>(
    algo: Algorithm<F, J, JA>, a: Arg, depth: nat, nodes: Map<int, (Arg, nat)>,
    e0: Scheduler<Arg, Ret, F, J, JA>, e1: Scheduler<Arg, Ret, F, J, JA>,
    r: ResultReceiver<Ret>, v: Ret, step: Step<Ret, J, JA>,
    hs: Seq<Held<Arg, Ret, F, J, JA>>, w: int,
)
    where
        F: Fn(Arg) -> TaskResult<Arg, Ret>,
        J: Fn(&[Ret]) -> Ret,
        JA: Fn(&Ret, &[Ret]) -> Ret,
    requires
        engine_inv(algo, a, depth, nodes, e0),
        0 <= w < hs.len(),
        held_receiver(hs[w]) == Some(r),
        writers_ok(e0, hs),
        e1.wf(),
        e1.tasks() == e0.tasks(),
        e1.next_barrier() == e0.next_barrier(),
        Scheduler::delivered(&e0, &e1, r, v, step),
    ensures
        writers_ok(e1, hs.update(w, held_after::<Arg, Ret, F, J, JA>(step))),
{
    let hs1 = hs.update(w, held_after::<Arg, Ret, F, J, JA>(step));
    assert forall|u: int| 0 <= u < hs.len() && u != w implies #[trigger] hs1[u] == hs[u] by {}
    e0.lemma_no_barrier_beyond();
    e0.lemma_next_barrier_fits();
    let waiting = match r {
        ResultReceiver::Join(i0, b0) => e0.waits(b0 as int, i0 as int),
        ResultReceiver::Channel(_) => false,
    };
    if !waiting {
        assert forall|c: int| #[trigger] e1.barrier_at(c) == e0.barrier_at(c) by {}
    }
    assert forall|c: int| (#[trigger] e1.barrier_at(c)) is Some implies (e1.barrier_at(c)->0.parent matches ResultReceiver::Join(_, p) ==> (p as int) < c) by {
        if let ResultReceiver::Join(i0, b0) = r {
            if c != b0 {
                assert(e1.barrier_at(c) == e0.barrier_at(c));
            }
        }
    }
    assert forall|b: int, i: int| #[trigger] e1.waits(b, i) implies has_writer(e1, hs1, i, b) by {
        let rr = ResultReceiver::<Ret>::Join(i as usize, b as usize);
        if let ResultReceiver::Join(i0, b0) = r {
            if waiting && b == b0 {
                assert(i != i0);
            } else {
                assert(e1.barrier_at(b) == e0.barrier_at(b));
            }
        }
        assert(e0.waits(b, i));
        assert(barrier_ok(algo, a, depth, nodes, e0.barrier_at(b)->0, nodes[b]));
        assert(rr != r);
        if exists|k: int| 0 <= k < e0.tasks().len() && (#[trigger] e0.tasks()[k]).join == rr {
            let k = choose|k: int| 0 <= k < e0.tasks().len() && (#[trigger] e0.tasks()[k]).join == rr;
            assert(e1.tasks()[k].join == rr);
        } else if exists|u: int| 0 <= u < hs.len() && held_receiver(#[trigger] hs[u]) == Some(rr) {
            let u = choose|u: int| 0 <= u < hs.len() && held_receiver(#[trigger] hs[u]) == Some(rr);
            assert(u != w);
            assert(hs1[u] == hs[u]);
        } else {
            let c = choose|c: int| (#[trigger] e0.barrier_at(c)) is Some && e0.barrier_at(c)->0.parent == rr;
            if let ResultReceiver::Join(i0, b0) = r {
                if waiting && c == b0 {
                    if e0.barrier_at(c)->0.ret_counter == 1 {
                        assert(held_receiver(hs1[w]) == Some(rr));
                    } else {
                        assert(e1.barrier_at(c)->0.parent == rr);
                    }
                } else {
                    assert(e1.barrier_at(c) == e0.barrier_at(c));
                }
            } else {
                assert(e1.barrier_at(c) == e0.barrier_at(c));
            }
        }
    }
}

/// A barrier that still counts a missing result has a waiting slot.
proof fn lemma_some_slot_waits<T>(s: Seq<Option<T>>) -> (i: int)
    requires
        empty_slots(s) > 0,
    ensures
        0 <= i < s.len(),
        s[i] is None,
    decreases s.len(),
{
    if s.last() is None {
        s.len() - 1
    } else {
        let i = lemma_some_slot_waits(s.drop_last());
        assert(s[i] == s.drop_last()[i]);
        i
    }
}

/// When no task waits and the worker holds nothing, no barrier is kept:
/// a kept barrier has a waiting slot whose writer would be a kept barrier
/// with a larger number.
proof fn lemma_quiet_no_barrier<Arg, Ret, F, J, JA>(
    algo: Algorithm<F, J, JA>, a: Arg, depth: nat, nodes: Map<int, (Arg, nat)>,
    e: Scheduler<Arg, Ret, F, J, JA>, b: int,
)
    where
        F: Fn(Arg) -> TaskResult<Arg, Ret>,
        J: Fn(&[Ret]) -> Ret,
        JA: Fn(&Ret, &[Ret]) -> Ret,
    requires
        engine_inv(algo, a, depth, nodes, e),
        writers_ok(e, Seq::<Held<Arg, Ret, F, J, JA>>::empty()),
        e.tasks().len() == 0,
    ensures
        e.barrier_at(b) is None,
    decreases e.next_barrier() - b,
{
    e.lemma_no_barrier_beyond();
    e.lemma_next_barrier_fits();
    if e.barrier_at(b) is Some {
        e.lemma_kept_barrier_wf(b);
        let jb = e.barrier_at(b)->0;
        assert(barrier_ok(algo, a, depth, nodes, jb, nodes[b]));
        let i = lemma_some_slot_waits(jb.joinfunarg@);
        assert(e.waits(b, i));
        let rr = ResultReceiver::<Ret>::Join(i as usize, b as usize);
        let c = choose|c: int| (#[trigger] e.barrier_at(c)) is Some && e.barrier_at(c)->0.parent == rr;
        assert(b < c);
        lemma_quiet_no_barrier(algo, a, depth, nodes, e, c);
    }
}

/// Every task and kept barrier of the engine, and everything the workers
/// hold, runs `algo` and reports to a channel only if it is the channel
/// numbered `jid`; in a `Search` algorithm every task reports to a channel.
spec fn channels_ok<Arg, Ret, F, J, JA>(algo: Algorithm<F, J, JA>, jid: int, e: Scheduler<Arg, Ret, F, J, JA>, hs: Seq<Held<Arg, Ret, F, J, JA>>) -> bool {
    &&& forall|k: int| 0 <= k < e.tasks().len() ==> task_channel_ok(algo, jid, #[trigger] e.tasks()[k])
    &&& forall|c: int| (#[trigger] e.barrier_at(c)) is Some ==> receiver_channel_ok(jid, e.barrier_at(c)->0.parent)
    &&& forall|u: int| 0 <= u < hs.len() ==> held_channel_ok(algo, jid, #[trigger] hs[u])
}

spec fn receiver_channel_ok<Ret>(jid: int, r: ResultReceiver<Ret>) -> bool {
    r matches ResultReceiver::Channel(ch) ==> ch.channel_id() == jid
}

spec fn task_channel_ok<Arg, Ret, F, J, JA>(algo: Algorithm<F, J, JA>, jid: int, t: Task<Arg, Ret, F, J, JA>) -> bool {
    &&& t.algo == algo
    &&& receiver_channel_ok(jid, t.join)
    &&& algo.style is Search ==> t.join is Channel
}

spec fn held_channel_ok<Arg, Ret, F, J, JA>(algo: Algorithm<F, J, JA>, jid: int, h: Held<Arg, Ret, F, J, JA>) -> bool {
    match h {
        Held::Idle => true,
        Held::Running(t) => task_channel_ok(algo, jid, t),
        Held::Joining(cj) => receiver_channel_ok(jid, cj.parent),
    }
}

/// The job's channel, numbered `jid`, gets exactly the values a run hands
/// out, after what it had; every other channel gets nothing.
proof fn lemma_run_channels<Arg, Ret, F, J, JA>(
    algo: Algorithm<F, J, JA>, a: Arg,
    e0: Scheduler<Arg, Ret, F, J, JA>,
    engines: Seq<Scheduler<Arg, Ret, F, J, JA>>,
    helds: Seq<Seq<Held<Arg, Ret, F, J, JA>>>,
    events: Seq<(int, Event<Arg, Ret, J, JA>)>,
    n: nat,
)
    where
        F: Fn(Arg) -> TaskResult<Arg, Ret>,
        J: Fn(&[Ret]) -> Ret,
        JA: Fn(&Ret, &[Ret]) -> Ret,
    requires
        is_run(algo, a, e0, engines, helds, events),
        n <= events.len(),
    ensures
        channels_ok(algo, engines[0].tasks().last().join->Channel_0.channel_id(), engines[n as int], helds[n as int]),
        engines[n as int].sent_log() == e0.sent_log() + handed_values(helds, events, n).map_values(
            |v: Ret| (engines[0].tasks().last().join->Channel_0.channel_id(), v),
        ),
    decreases n,
{
    let jid = engines[0].tasks().last().join->Channel_0.channel_id();
    if n == 0 {
        let e = engines[0];
        assert(e.tasks().len() == 1);
        assert(e.tasks()[0] == e.tasks().last());
        assert forall|c: int| #[trigger] e.barrier_at(c) == e0.barrier_at(c) by {}
        assert(handed_values(helds, events, 0).map_values(|v: Ret| (jid, v)) =~= Seq::<(int, Ret)>::empty());
        assert(e0.sent_log() + Seq::<(int, Ret)>::empty() =~= e0.sent_log());
    } else {
        let i = n - 1;
        lemma_run_channels(algo, a, e0, engines, helds, events, (n - 1) as nat);
        let hs = helds[i];
        let w = events[i].0;
        let ev = events[i].1;
        let e = engines[i];
        let e1 = engines[n as int];
        let hs1 = helds[n as int];
        let sent = handed_values(helds, events, (n - 1) as nat);
        let f = |v: Ret| (jid, v);
        assert(handed_values(helds, events, n) == sent + handed(hs[w], ev));
        assert(pool_step(e, hs, w, ev, e1, hs1));
        assert(held_channel_ok(algo, jid, hs[w]));
        assert forall|u: int| 0 <= u < hs.len() && u != w implies #[trigger] hs1[u] == hs[u] by {}
        assert((sent + handed(hs[w], ev)).map_values(f) =~= sent.map_values(f) + handed(hs[w], ev).map_values(f));
        let d = handed(hs[w], ev).map_values(f);
        assert(e0.sent_log() + (sent.map_values(f) + d) =~= (e0.sent_log() + sent.map_values(f)) + d);
        e.lemma_no_barrier_beyond();
        match ev {
            Event::Take => {
                assert(d =~= Seq::<(int, Ret)>::empty());
                let n0 = e.tasks().len();
                assert(e.tasks()[n0 - 1] == hs1[w]->Running_0);
                assert forall|k: int| 0 <= k < e1.tasks().len() implies #[trigger] e1.tasks()[k] == e.tasks()[k] by {}
                assert forall|c: int| #[trigger] e1.barrier_at(c) == e.barrier_at(c) by {}
            },
            Event::Run(r, step) => {
                let t = hs[w]->Running_0;
                match r {
                    TaskResult::Done(v) => {
                        lemma_delivery_channels(algo, jid, e, e1, t.join, v, step);
                        if t.join is Channel {
                            assert(d =~= seq![(jid, v)]);
                        } else {
                            assert(d =~= Seq::<(int, Ret)>::empty());
                        }
                    },
                    TaskResult::Fork(args, x) => {
                        assert(d =~= Seq::<(int, Ret)>::empty());
                        let n0 = e.tasks().len();
                        if t.algo.style is Search {
                            assert forall|k: int| 0 <= k < e1.tasks().len() implies task_channel_ok(algo, jid, #[trigger] e1.tasks()[k]) by {
                                if k < n0 {
                                    assert(e1.tasks()[k] == e1.tasks().subrange(0, n0 as int)[k]);
                                } else {
                                    assert(e1.tasks()[n0 + (k - n0)] == e1.tasks()[k]);
                                }
                            }
                            assert forall|c: int| #[trigger] e1.barrier_at(c) == e.barrier_at(c) by {}
                        } else if args@.len() == 0 {
                            assert forall|c: int| #[trigger] e1.barrier_at(c) == e.barrier_at(c) by {}
                        } else {
                            let b = e.next_barrier() as int;
                            e1.lemma_next_barrier_fits();
                            assert forall|k: int| 0 <= k < e1.tasks().len() implies task_channel_ok(algo, jid, #[trigger] e1.tasks()[k]) by {
                                if k >= n0 {
                                    let st = reduce_subtasks::<Arg, Ret, F, J, JA>(t.algo, args@, b as usize);
                                    assert(e1.tasks()[k] == st[k - n0]);
                                }
                            }
                            assert forall|c: int| (#[trigger] e1.barrier_at(c)) is Some implies receiver_channel_ok(jid, e1.barrier_at(c)->0.parent) by {
                                if c != b {
                                    assert(e1.barrier_at(c) == e.barrier_at(c));
                                }
                            }
                        }
                    },
                }
            },
            Event::Join(v, step) => {
                let cj = hs[w]->Joining_0;
                lemma_delivery_channels(algo, jid, e, e1, cj.parent, v, step);
                if cj.parent is Channel {
                    assert(d =~= seq![(jid, v)]);
                } else {
                    assert(d =~= Seq::<(int, Ret)>::empty());
                }
            },
        }
    }
}

/// Delivering to a receiver of the job's channel keeps every channel
/// receiver on that channel, and sends only on it.
proof fn lemma_delivery_channels<Arg, Ret, F, J, JA>(
    algo: Algorithm<F, J, JA>, jid: int,
    e: Scheduler<Arg, Ret, F, J, JA>, e1: Scheduler<Arg, Ret, F, J, JA>,
    r: ResultReceiver<Ret>, v: Ret, step: Step<Ret, J, JA>,
)
    requires
        forall|c: int| (#[trigger] e.barrier_at(c)) is Some ==> receiver_channel_ok(jid, e.barrier_at(c)->0.parent),
        receiver_channel_ok(jid, r),
        Scheduler::delivered(&e, &e1, r, v, step),
    ensures
        forall|c: int| (#[trigger] e1.barrier_at(c)) is Some ==> receiver_channel_ok(jid, e1.barrier_at(c)->0.parent),
        held_channel_ok(algo, jid, held_after::<Arg, Ret, F, J, JA>(step)),
        e1.sent_log() == if r is Channel { e.sent_log().push((jid, v)) } else { e.sent_log() },
{
    match r {
        ResultReceiver::Channel(_) => {
            assert forall|c: int| #[trigger] e1.barrier_at(c) == e.barrier_at(c) by {}
        },
        ResultReceiver::Join(i, b) => {
            assert forall|c: int| (#[trigger] e1.barrier_at(c)) is Some implies receiver_channel_ok(jid, e1.barrier_at(c)->0.parent) by {
                if c != b {
                    assert(e1.barrier_at(c) == e.barrier_at(c));
                }
            }
            if e.waits(b as int, i as int) {
                assert(receiver_channel_ok(jid, e.barrier_at(b as int)->0.parent));
            }
        },
    }
}

/// The values of a record of sends `extra`, all on channel `jid`, add to
/// what channel `jid` got and to nothing else.
pub(crate) proof fn lemma_sent_on_append<Ret>(log: Seq<(int, Ret)>, vals: Seq<Ret>, jid: int, c: int)
    ensures
        sent_on(log + vals.map_values(|v: Ret| (jid, v)), c) == sent_on(log, c) + if c == jid { vals } else { Seq::<Ret>::empty() },
    decreases vals.len(),
{
    let f = |v: Ret| (jid, v);
    if vals.len() == 0 {
        assert(log + vals.map_values(f) =~= log);
        assert(sent_on(log, c) + Seq::<Ret>::empty() =~= sent_on(log, c));
        assert(sent_on(log, c) + vals =~= sent_on(log, c));
    } else {
        let pre = vals.drop_last();
        lemma_sent_on_append(log, pre, jid, c);
        let whole = log + vals.map_values(f);
        assert(whole.drop_last() =~= log + pre.map_values(f));
        assert(whole.last() == (jid, vals.last()));
        if c == jid {
            assert(sent_on(log, c) + pre.push(vals.last()) =~= (sent_on(log, c) + pre).push(vals.last()));
            assert(pre.push(vals.last()) =~= vals);
        }
    }
}

/// In a run, the job's channel gets exactly the values the run hands out,
/// after what it had; every other channel gets nothing.
pub(crate) proof fn lemma_run_sends<Arg, Ret, F, J, JA>(
    algo: Algorithm<F, J, JA>, a: Arg,
    e0: Scheduler<Arg, Ret, F, J, JA>,
    engines: Seq<Scheduler<Arg, Ret, F, J, JA>>,
    helds: Seq<Seq<Held<Arg, Ret, F, J, JA>>>,
    events: Seq<(int, Event<Arg, Ret, J, JA>)>,
    c: int,
)
    where
        F: Fn(Arg) -> TaskResult<Arg, Ret>,
        J: Fn(&[Ret]) -> Ret,
        JA: Fn(&Ret, &[Ret]) -> Ret,
    requires
        is_run(algo, a, e0, engines, helds, events),
    ensures
        sent_on(engines.last().sent_log(), c) == sent_on(e0.sent_log(), c) + if c == engines[0].tasks().last().join->Channel_0.channel_id() {
            handed_values(helds, events, events.len())
        } else {
            Seq::<Ret>::empty()
        },
{
    lemma_run_channels(algo, a, e0, engines, helds, events, events.len());
    assert(engines.last() == engines[events.len() as int]);
    lemma_sent_on_append(e0.sent_log(), handed_values(helds, events, events.len()), engines[0].tasks().last().join->Channel_0.channel_id(), c);
}

} // verus!
