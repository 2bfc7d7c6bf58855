//! What a whole Search computation gives: every leaf value of the problem
//! tree reaches the job's channel, once.
use crate::algorithm::{Algorithm, Task, TaskResult};
use crate::run::{deterministic, handed, handed_values, held_after, is_run, lemma_run_sends, lemma_task_result_is, pool_step, quiet, task_result, Event, Held};
use crate::scheduler::{sent_on, Scheduler, Step};
use vstd::multiset::Multiset;
use vstd::prelude::*;

verus! {

broadcast use vstd::multiset::group_multiset_axioms, vstd::seq_lib::group_to_multiset_ensures;

/// The leaf values of the problem tree below `a`, each as often as its leaf
/// occurs; `None` where the tree is deeper than `depth`.
pub open spec fn tree_leaves<Arg, Ret, F, J, JA>(algo: Algorithm<F, J, JA>, a: Arg, depth: nat) -> Option<Multiset<Ret>>
    where
        F: Fn(Arg) -> TaskResult<Arg, Ret>,
        J: Fn(&[Ret]) -> Ret,
        JA: Fn(&Ret, &[Ret]) -> Ret,
    decreases depth, 0nat, 0nat,
{
    if depth == 0 {
        None
    } else {
        match task_result::<Arg, Ret, F, J, JA>(algo, a) {
            TaskResult::Done(v) => Some(Multiset::singleton(v)),
            TaskResult::Fork(args, _) => subtree_leaves::<Arg, Ret, F, J, JA>(algo, args@, (depth - 1) as nat),
        }
    }
}

/// The leaf values of the subtrees below `args`, each cut at `depth`;
/// `None` where one of them is deeper.
pub open spec fn subtree_leaves<Arg, Ret, F, J, JA>(algo: Algorithm<F, J, JA>, args: Seq<Arg>, depth: nat) -> Option<Multiset<Ret>>
    where
        F: Fn(Arg) -> TaskResult<Arg, Ret>,
        J: Fn(&[Ret]) -> Ret,
        JA: Fn(&Ret, &[Ret]) -> Ret,
    decreases depth, 1nat, args.len(),
{
    if args.len() == 0 {
        Some(Multiset::empty())
    } else {
        match subtree_leaves::<Arg, Ret, F, J, JA>(algo, args.drop_last(), depth) {
            Some(m) => match tree_leaves::<Arg, Ret, F, J, JA>(algo, args.last(), depth) {
                Some(l) => Some(m.add(l)),
                None => None,
            },
            None => None,
        }
    }
}

/// `subtree_leaves` is `Some` exactly when every subtree has leaves.
proof fn lemma_subtree_leaves_some<Arg, Ret, F, J, JA>(algo: Algorithm<F, J, JA>, args: Seq<Arg>, depth: nat)
    where
        F: Fn(Arg) -> TaskResult<Arg, Ret>,
        J: Fn(&[Ret]) -> Ret,
        JA: Fn(&Ret, &[Ret]) -> Ret,
    ensures
        subtree_leaves::<Arg, Ret, F, J, JA>(algo, args, depth) is Some <==> forall|k: int| 0 <= k < args.len() ==> (#[trigger] tree_leaves::<Arg, Ret, F, J, JA>(algo, args[k], depth)) is Some,
    decreases args.len(),
{
    if args.len() > 0 {
        let pre = args.drop_last();
        lemma_subtree_leaves_some::<Arg, Ret, F, J, JA>(algo, pre, depth);
        assert forall|k: int| 0 <= k < pre.len() implies pre[k] == args[k] by {}
        if subtree_leaves::<Arg, Ret, F, J, JA>(algo, args, depth) is None {
            if tree_leaves::<Arg, Ret, F, J, JA>(algo, args.last(), depth) is Some {
                let k = choose|k: int| 0 <= k < pre.len() && !(#[trigger] tree_leaves::<Arg, Ret, F, J, JA>(algo, pre[k], depth) is Some);
                assert(tree_leaves::<Arg, Ret, F, J, JA>(algo, args[k], depth) is None);
            } else {
                assert(tree_leaves::<Arg, Ret, F, J, JA>(algo, args[args.len() - 1], depth) is None);
            }
        }
    }
}

/// A waiting task of a Search run: it runs `algo` and sends to a channel,
/// and its subtree, cut at `d`, has leaves.
spec fn task_fine<Arg, Ret, F, J, JA>(algo: Algorithm<F, J, JA>, t: Task<Arg, Ret, F, J, JA>, d: nat) -> bool
    where
        F: Fn(Arg) -> TaskResult<Arg, Ret>,
        J: Fn(&[Ret]) -> Ret,
        JA: Fn(&Ret, &[Ret]) -> Ret,
{
    &&& t.algo == algo
    &&& t.join is Channel
    &&& tree_leaves::<Arg, Ret, F, J, JA>(algo, t.arg, d) is Some
}

/// The leaves still to come from the tasks `q`, task `k` cut at `ds[k]`.
spec fn queue_leaves<Arg, Ret, F, J, JA>(algo: Algorithm<F, J, JA>, q: Seq<Task<Arg, Ret, F, J, JA>>, ds: Seq<nat>) -> Multiset<Ret>
    where
        F: Fn(Arg) -> TaskResult<Arg, Ret>,
        J: Fn(&[Ret]) -> Ret,
        JA: Fn(&Ret, &[Ret]) -> Ret,
    decreases q.len(),
{
    if q.len() == 0 {
        Multiset::empty()
    } else {
        queue_leaves(algo, q.drop_last(), ds.drop_last()).add(tree_leaves::<Arg, Ret, F, J, JA>(algo, q.last().arg, ds.last())->0)
    }
}

/// The leaves still to come from what one worker holds.
spec fn held_leaves<Arg, Ret, F, J, JA>(algo: Algorithm<F, J, JA>, h: Held<Arg, Ret, F, J, JA>, hd: nat) -> Multiset<Ret>
    where
        F: Fn(Arg) -> TaskResult<Arg, Ret>,
        J: Fn(&[Ret]) -> Ret,
        JA: Fn(&Ret, &[Ret]) -> Ret,
{
    match h {
        Held::Running(t) => tree_leaves::<Arg, Ret, F, J, JA>(algo, t.arg, hd)->0,
        _ => Multiset::empty(),
    }
}

/// The leaves still to come from the tasks the workers hold, worker `u`'s
/// cut at `hds[u]`.
spec fn helds_leaves<Arg, Ret, F, J, JA>(algo: Algorithm<F, J, JA>, hs: Seq<Held<Arg, Ret, F, J, JA>>, hds: Seq<nat>) -> Multiset<Ret>
    where
        F: Fn(Arg) -> TaskResult<Arg, Ret>,
        J: Fn(&[Ret]) -> Ret,
        JA: Fn(&Ret, &[Ret]) -> Ret,
    decreases hs.len(),
{
    if hs.len() == 0 {
        Multiset::empty()
    } else {
        helds_leaves(algo, hs.drop_last(), hds.drop_last()).add(held_leaves(algo, hs.last(), hds.last()))
    }
}

/// What one worker holds in a Search run: nothing, or a task in good
/// standing.
spec fn held_fine<Arg, Ret, F, J, JA>(algo: Algorithm<F, J, JA>, h: Held<Arg, Ret, F, J, JA>, hd: nat) -> bool
    where
        F: Fn(Arg) -> TaskResult<Arg, Ret>,
        J: Fn(&[Ret]) -> Ret,
        JA: Fn(&Ret, &[Ret]) -> Ret,
{
    match h {
        Held::Idle => true,
        Held::Running(t) => task_fine(algo, t, hd),
        Held::Joining(_) => false,
    }
}

/// Every waiting task is in good standing, task `k` cut at `ds[k]`.
spec fn tasks_fine<Arg, Ret, F, J, JA>(algo: Algorithm<F, J, JA>, e: Scheduler<Arg, Ret, F, J, JA>, ds: Seq<nat>) -> bool
    where
        F: Fn(Arg) -> TaskResult<Arg, Ret>,
        J: Fn(&[Ret]) -> Ret,
        JA: Fn(&Ret, &[Ret]) -> Ret,
{
    &&& ds.len() == e.tasks().len()
    &&& forall|k: int| 0 <= k < ds.len() ==> task_fine(algo, #[trigger] e.tasks()[k], ds[k])
}

/// The invariant of a Search run: what was sent, what the waiting tasks
/// and the workers' tasks will send, together are the leaves of the tree.
spec fn search_inv<Arg, Ret, F, J, JA>(
    algo: Algorithm<F, J, JA>, a: Arg, depth: nat,
    e: Scheduler<Arg, Ret, F, J, JA>, hs: Seq<Held<Arg, Ret, F, J, JA>>, ds: Seq<nat>, hds: Seq<nat>, sent: Seq<Ret>,
) -> bool
    where
        F: Fn(Arg) -> TaskResult<Arg, Ret>,
        J: Fn(&[Ret]) -> Ret,
        JA: Fn(&Ret, &[Ret]) -> Ret,
{
    &&& tasks_fine(algo, e, ds)
    &&& hds.len() == hs.len()
    &&& forall|u: int| 0 <= u < hs.len() ==> held_fine(algo, #[trigger] hs[u], hds[u])
    &&& sent.to_multiset().add(queue_leaves(algo, e.tasks(), ds)).add(helds_leaves(algo, hs, hds)) == tree_leaves::<Arg, Ret, F, J, JA>(algo, a, depth)->0
}

/// The leaves of tasks appended to a queue add up to the leaves of their
/// arguments.
proof fn lemma_queue_append<Arg, Ret, F, J, JA>(
    algo: Algorithm<F, J, JA>, q: Seq<Task<Arg, Ret, F, J, JA>>, ds: Seq<nat>,
    q1: Seq<Task<Arg, Ret, F, J, JA>>, args: Seq<Arg>, d: nat, m: nat,
)
    where
        F: Fn(Arg) -> TaskResult<Arg, Ret>,
        J: Fn(&[Ret]) -> Ret,
        JA: Fn(&Ret, &[Ret]) -> Ret,
    requires
        q.len() == ds.len(),
        q1.len() == q.len() + args.len(),
        q1.subrange(0, q.len() as int) == q,
        forall|k: int| 0 <= k < args.len() ==> (#[trigger] q1[q.len() + k]).arg == args[k],
        forall|k: int| 0 <= k < args.len() ==> (#[trigger] tree_leaves::<Arg, Ret, F, J, JA>(algo, args[k], d)) is Some,
        m <= args.len(),
    ensures
        subtree_leaves::<Arg, Ret, F, J, JA>(algo, args.take(m as int), d) is Some,
        queue_leaves(algo, q1.take((q.len() + m) as int), (ds + Seq::new(args.len(), |_k: int| d)).take((q.len() + m) as int))
            =~= queue_leaves(algo, q, ds).add(subtree_leaves::<Arg, Ret, F, J, JA>(algo, args.take(m as int), d)->0),
    decreases m,
{
    let ds1 = ds + Seq::new(args.len(), |_k: int| d);
    let l0 = q.len();
    lemma_subtree_leaves_some::<Arg, Ret, F, J, JA>(algo, args.take(m as int), d);
    if m == 0 {
        assert(q1.take(l0 as int) =~= q);
        assert(ds1.take(l0 as int) =~= ds);
        assert(args.take(0) =~= Seq::<Arg>::empty());
    } else {
        lemma_queue_append(algo, q, ds, q1, args, d, (m - 1) as nat);
        assert(q1.take((l0 + m) as int).drop_last() =~= q1.take(l0 + m - 1));
        assert(ds1.take((l0 + m) as int).drop_last() =~= ds1.take(l0 + m - 1));
        assert(args.take(m as int).drop_last() =~= args.take(m - 1));
        assert(q1.take((l0 + m) as int).last() == q1[l0 + (m - 1)]);
        assert(ds1.take((l0 + m) as int).last() == d);
        assert(args.take(m as int).last() == args[m - 1]);
    }
}

/// Changing what one worker holds changes the workers' leaves by as much.
proof fn lemma_helds_update<Arg, Ret, F, J, JA>(
    algo: Algorithm<F, J, JA>, hs: Seq<Held<Arg, Ret, F, J, JA>>, hds: Seq<nat>, w: int, h: Held<Arg, Ret, F, J, JA>, d: nat,
)
    where
        F: Fn(Arg) -> TaskResult<Arg, Ret>,
        J: Fn(&[Ret]) -> Ret,
        JA: Fn(&Ret, &[Ret]) -> Ret,
    requires
        hds.len() == hs.len(),
        0 <= w < hs.len(),
    ensures
        helds_leaves(algo, hs.update(w, h), hds.update(w, d)).add(held_leaves(algo, hs[w], hds[w]))
            =~= helds_leaves(algo, hs, hds).add(held_leaves(algo, h, d)),
    decreases hs.len(),
{
    let hs1 = hs.update(w, h);
    let hds1 = hds.update(w, d);
    if w == hs.len() - 1 {
        assert(hs1.drop_last() =~= hs.drop_last());
        assert(hds1.drop_last() =~= hds.drop_last());
        assert(hs1.last() == h);
        assert(hds1.last() == d);
        assert(hs.last() == hs[w]);
        assert(hds.last() == hds[w]);
        let base = helds_leaves(algo, hs.drop_last(), hds.drop_last());
        assert(helds_leaves(algo, hs1, hds1) == base.add(held_leaves(algo, h, d)));
        assert(helds_leaves(algo, hs, hds) == base.add(held_leaves(algo, hs[w], hds[w])));
        assert(base.add(held_leaves(algo, h, d)).add(held_leaves(algo, hs[w], hds[w])) =~= base.add(held_leaves(algo, hs[w], hds[w])).add(held_leaves(algo, h, d)));
    } else {
        assert(hs1.drop_last() =~= hs.drop_last().update(w, h));
        assert(hds1.drop_last() =~= hds.drop_last().update(w, d));
        assert(hs1.last() == hs.last());
        assert(hds1.last() == hds.last());
        assert(hs.drop_last()[w] == hs[w]);
        assert(hds.drop_last()[w] == hds[w]);
        lemma_helds_update(algo, hs.drop_last(), hds.drop_last(), w, h, d);
        let upd = helds_leaves(algo, hs.drop_last().update(w, h), hds.drop_last().update(w, d));
        let base = helds_leaves(algo, hs.drop_last(), hds.drop_last());
        let l = held_leaves(algo, hs.last(), hds.last());
        assert(helds_leaves(algo, hs1, hds1) == upd.add(l));
        assert(helds_leaves(algo, hs, hds) == base.add(l));
        assert(upd.add(held_leaves(algo, hs[w], hds[w])) =~= base.add(held_leaves(algo, h, d)));
        let x = held_leaves(algo, hs[w], hds[w]);
        let y = held_leaves(algo, h, d);
        assert forall|v: Ret| #[trigger] upd.add(l).add(x).count(v) == base.add(l).add(y).count(v) by {
            assert(upd.add(x).count(v) == base.add(y).count(v));
        }
        assert(upd.add(l).add(x) =~= base.add(l).add(y));
    }
}

/// Taking a task moves its leaves out of the queue.
proof fn lemma_search_take<Arg, Ret, F, J, JA>(
    algo: Algorithm<F, J, JA>,
    e0: Scheduler<Arg, Ret, F, J, JA>, e1: Scheduler<Arg, Ret, F, J, JA>, t: Task<Arg, Ret, F, J, JA>, ds: Seq<nat>,
)
    where
        F: Fn(Arg) -> TaskResult<Arg, Ret>,
        J: Fn(&[Ret]) -> Ret,
        JA: Fn(&Ret, &[Ret]) -> Ret,
    requires
        tasks_fine(algo, e0, ds),
        Scheduler::took(&e0, &e1, Some(t)),
    ensures
        ds.len() > 0,
        tasks_fine(algo, e1, ds.drop_last()),
        task_fine(algo, t, ds.last()),
        queue_leaves(algo, e0.tasks(), ds) == queue_leaves(algo, e1.tasks(), ds.drop_last()).add(tree_leaves::<Arg, Ret, F, J, JA>(algo, t.arg, ds.last())->0),
{
    let n = e0.tasks().len();
    assert(n > 0);
    assert(t == e0.tasks()[n - 1]);
    assert forall|k: int| 0 <= k < n - 1 implies #[trigger] e1.tasks()[k] == e0.tasks()[k] && ds.drop_last()[k] == ds[k] by {}
}

/// Running a task of a Search run: a leaf's value is sent, a fork's
/// arguments become tasks with the fork's leaves.
proof fn lemma_search_run<Arg, Ret, F, J, JA>(
    algo: Algorithm<F, J, JA>,
    e0: Scheduler<Arg, Ret, F, J, JA>, e1: Scheduler<Arg, Ret, F, J, JA>, t: Task<Arg, Ret, F, J, JA>,
    ds: Seq<nat>, hd: nat, r: TaskResult<Arg, Ret>, step: Step<Ret, J, JA>, sent: Seq<Ret>,
) -> (ds1: Seq<nat>)
    where
        F: Fn(Arg) -> TaskResult<Arg, Ret>,
        J: Fn(&[Ret]) -> Ret,
        JA: Fn(&Ret, &[Ret]) -> Ret,
    requires
        deterministic::<Arg, Ret, F, J, JA>(algo),
        algo.style is Search,
        tasks_fine(algo, e0, ds),
        task_fine(algo, t, hd),
        call_ensures(t.algo.fun, (t.arg,), r),
        Scheduler::handled(&e0, &e1, t.algo, t.join, r, step),
    ensures
        tasks_fine(algo, e1, ds1),
        held_after::<Arg, Ret, F, J, JA>(step) is Idle,
        (sent + handed(Held::Running(t), Event::Run(r, step))).to_multiset().add(queue_leaves(algo, e1.tasks(), ds1))
            =~= sent.to_multiset().add(queue_leaves(algo, e0.tasks(), ds)).add(tree_leaves::<Arg, Ret, F, J, JA>(algo, t.arg, hd)->0),
{
    lemma_task_result_is::<Arg, Ret, F, J, JA>(algo, t.arg, r);
    let q = queue_leaves(algo, e0.tasks(), ds);
    match r {
        TaskResult::Done(v) => {
            let s1 = sent + handed(Held::Running(t), Event::Run(r, step));
            assert(s1 =~= sent.push(v));
            assert(s1.to_multiset() =~= sent.to_multiset().insert(v));
            assert(tree_leaves::<Arg, Ret, F, J, JA>(algo, t.arg, hd) == Some(Multiset::singleton(v)));
            ds
        },
        TaskResult::Fork(args, x) => {
            let s1 = sent + handed(Held::Running(t), Event::Run(r, step));
            assert(s1 =~= sent);
            let n0 = e0.tasks().len();
            let d1 = (hd - 1) as nat;
            let ds1 = ds + Seq::new(args@.len(), |_k: int| d1);
            lemma_subtree_leaves_some::<Arg, Ret, F, J, JA>(algo, args@, d1);
            lemma_queue_append(algo, e0.tasks(), ds, e1.tasks(), args@, d1, args@.len());
            assert(e1.tasks().take(e1.tasks().len() as int) =~= e1.tasks());
            assert(ds1.take(ds1.len() as int) =~= ds1);
            assert(args@.take(args@.len() as int) =~= args@);
            assert forall|k: int| 0 <= k < ds1.len() implies task_fine(algo, #[trigger] e1.tasks()[k], ds1[k]) by {
                if k < n0 {
                    assert(e1.tasks()[k] == e1.tasks().subrange(0, n0 as int)[k]);
                } else {
                    assert(e1.tasks()[n0 + (k - n0)] == e1.tasks()[k]);
                    assert(tree_leaves::<Arg, Ret, F, J, JA>(algo, args@[k - n0], d1) is Some);
                }
            }
            ds1
        },
    }
}

/// The invariant holds after every prefix of a Search run.
proof fn lemma_search_prefix<Arg, Ret, F, J, JA>(
    algo: Algorithm<F, J, JA>, a: Arg, depth: nat,
    e0: Scheduler<Arg, Ret, F, J, JA>,
    engines: Seq<Scheduler<Arg, Ret, F, J, JA>>,
    helds: Seq<Seq<Held<Arg, Ret, F, J, JA>>>,
    events: Seq<(int, Event<Arg, Ret, J, JA>)>,
    n: nat,
) -> (res: (Seq<nat>, Seq<nat>))
    where
        F: Fn(Arg) -> TaskResult<Arg, Ret>,
        J: Fn(&[Ret]) -> Ret,
        JA: Fn(&Ret, &[Ret]) -> Ret,
    requires
        algo.style is Search,
        deterministic::<Arg, Ret, F, J, JA>(algo),
        tree_leaves::<Arg, Ret, F, J, JA>(algo, a, depth) is Some,
        is_run(algo, a, e0, engines, helds, events),
        n <= events.len(),
    ensures
        search_inv(algo, a, depth, engines[n as int], helds[n as int], res.0, res.1, handed_values(helds, events, n)),
    decreases n,
{
    if n == 0 {
        let e = engines[0];
        let hs = helds[0];
        assert(e.tasks().len() == 1);
        assert(e.tasks()[0] == e.tasks().last());
        let ds = seq![depth];
        let hds = Seq::new(hs.len(), |_u: int| 0nat);
        let l = tree_leaves::<Arg, Ret, F, J, JA>(algo, a, depth)->0;
        assert(e.tasks().drop_last() =~= Seq::empty());
        assert(ds.drop_last() =~= Seq::empty());
        assert(queue_leaves(algo, e.tasks().drop_last(), ds.drop_last()) == Multiset::<Ret>::empty());
        assert(e.tasks().last().arg == a);
        assert(ds.last() == depth);
        assert(queue_leaves(algo, e.tasks(), ds) =~= Multiset::empty().add(l));
        assert(Seq::<Ret>::empty().to_multiset() =~= Multiset::empty());
        lemma_idle_leaves(algo, hs, hds);
        assert(handed_values(helds, events, 0).to_multiset().add(queue_leaves(algo, e.tasks(), ds)).add(helds_leaves(algo, hs, hds)) =~= l);
        (ds, hds)
    } else {
        let i = n - 1;
        let (ds, hds) = lemma_search_prefix(algo, a, depth, e0, engines, helds, events, (n - 1) as nat);
        let sent = handed_values(helds, events, (n - 1) as nat);
        let hs = helds[i];
        let w = events[i].0;
        let ev = events[i].1;
        let total = tree_leaves::<Arg, Ret, F, J, JA>(algo, a, depth)->0;
        assert(handed_values(helds, events, n) == sent + handed(hs[w], ev));
        assert(pool_step(engines[i], hs, w, ev, engines[i + 1], helds[i + 1]));
        assert(helds[n as int] =~= hs.update(w, helds[n as int][w]));
        assert(held_fine(algo, hs[w], hds[w]));
        match ev {
            Event::Take => {
                assert(sent + handed(hs[w], ev) =~= sent);
                let t = helds[n as int][w]->Running_0;
                lemma_search_take(algo, engines[i], engines[n as int], t, ds);
                let hds1 = hds.update(w, ds.last());
                lemma_helds_update(algo, hs, hds, w, Held::Running(t), ds.last());
                let q1 = queue_leaves(algo, engines[n as int].tasks(), ds.drop_last());
                let hl1 = helds_leaves(algo, helds[n as int], hds1);
                let hl = helds_leaves(algo, hs, hds);
                let q = queue_leaves(algo, engines[i].tasks(), ds);
                let l = tree_leaves::<Arg, Ret, F, J, JA>(algo, t.arg, ds.last())->0;
                assert(held_leaves(algo, hs[w], hds[w]) == Multiset::<Ret>::empty());
                assert forall|v: Ret| #[trigger] sent.to_multiset().add(q1).add(hl1).count(v) == total.count(v) by {
                    assert(hl1.add(Multiset::empty()).count(v) == hl.add(l).count(v));
                    assert(total.count(v) == sent.to_multiset().add(q).add(hl).count(v));
                }
                assert(sent.to_multiset().add(q1).add(hl1) =~= total);
                assert forall|u: int| 0 <= u < hs.len() implies held_fine(algo, #[trigger] helds[n as int][u], hds1[u]) by {
                    if u != w {
                        assert(helds[n as int][u] == hs[u]);
                        assert(held_fine(algo, hs[u], hds[u]));
                    }
                }
                (ds.drop_last(), hds1)
            },
            Event::Run(r, step) => {
                let t = hs[w]->Running_0;
                let ds1 = lemma_search_run(algo, engines[i], engines[n as int], t, ds, hds[w], r, step, sent);
                let hds1 = hds.update(w, 0);
                lemma_helds_update(algo, hs, hds, w, Held::Idle, 0);
                let s1 = handed_values(helds, events, n);
                let q1 = queue_leaves(algo, engines[n as int].tasks(), ds1);
                let hl1 = helds_leaves(algo, helds[n as int], hds1);
                let hl = helds_leaves(algo, hs, hds);
                let q = queue_leaves(algo, engines[i].tasks(), ds);
                let l = tree_leaves::<Arg, Ret, F, J, JA>(algo, t.arg, hds[w])->0;
                assert(held_leaves(algo, hs[w], hds[w]) == l);
                assert(held_leaves(algo, Held::<Arg, Ret, F, J, JA>::Idle, 0) == Multiset::<Ret>::empty());
                assert forall|v: Ret| #[trigger] s1.to_multiset().add(q1).add(hl1).count(v) == total.count(v) by {
                    assert(hl1.add(l).count(v) == hl.add(Multiset::empty()).count(v));
                    assert(s1.to_multiset().add(q1).count(v) == sent.to_multiset().add(q).add(l).count(v));
                    assert(total.count(v) == sent.to_multiset().add(q).add(hl).count(v));
                }
                assert(s1.to_multiset().add(q1).add(hl1) =~= total);
                assert forall|u: int| 0 <= u < hs.len() implies held_fine(algo, #[trigger] helds[n as int][u], hds1[u]) by {
                    if u != w {
                        assert(helds[n as int][u] == hs[u]);
                        assert(held_fine(algo, hs[u], hds[u]));
                    }
                }
                (ds1, hds1)
            },
            Event::Join(_, _) => {
                (ds, hds)
            },
        }
    }
}

/// Workers that hold nothing hold no leaves.
proof fn lemma_idle_leaves<Arg, Ret, F, J, JA>(algo: Algorithm<F, J, JA>, hs: Seq<Held<Arg, Ret, F, J, JA>>, hds: Seq<nat>)
    where
        F: Fn(Arg) -> TaskResult<Arg, Ret>,
        J: Fn(&[Ret]) -> Ret,
        JA: Fn(&Ret, &[Ret]) -> Ret,
    requires
        forall|u: int| 0 <= u < hs.len() ==> (#[trigger] hs[u]) is Idle,
    ensures
        helds_leaves(algo, hs, hds) =~= Multiset::empty(),
    decreases hs.len(),
{
    if hs.len() > 0 {
        assert(hs.last() == hs[hs.len() - 1]);
        assert forall|u: int| 0 <= u < hs.drop_last().len() implies (#[trigger] hs.drop_last()[u]) is Idle by {
            assert(hs.drop_last()[u] == hs[u]);
        }
        lemma_idle_leaves(algo, hs.drop_last(), hds.drop_last());
    }
}

/// A whole `Search` computation sends every leaf value of its problem tree
/// to the job, once.
///
/// Take a computation of a `Search` algorithm on `a`, submitted to an empty
/// engine and run by any number of workers, each of which takes tasks,
/// runs the task function and hands results to the engine, their steps on
/// the engine interleaved in any order. If the task function is
/// deterministic and the problem tree below `a` is finite, then along every
/// run each value handed to the job's channel is the value of a leaf of the
/// tree, no leaf's value more often than the leaf occurs; once no task
/// waits and no worker holds anything, the values handed are exactly the
/// leaf values, as a multiset: none lost, none invented. A fork with no
/// arguments sends nothing. The values handed are exactly what the engine
/// sends on the job's channel (the one `submit` gave the computation's
/// first task and its job); it sends nothing on any other channel.
pub proof fn law_search_run_hands_every_leaf_once<Arg, Ret, F, J, JA>(
    algo: Algorithm<F, J, JA>,
    a: Arg,
    depth: nat,
    e0: Scheduler<Arg, Ret, F, J, JA>,
    engines: Seq<Scheduler<Arg, Ret, F, J, JA>>,
    helds: Seq<Seq<Held<Arg, Ret, F, J, JA>>>,
    events: Seq<(int, Event<Arg, Ret, J, JA>)>,
)
    where
        F: Fn(Arg) -> TaskResult<Arg, Ret>,
        J: Fn(&[Ret]) -> Ret,
        JA: Fn(&Ret, &[Ret]) -> Ret,
    requires
        algo.style is Search,
        deterministic::<Arg, Ret, F, J, JA>(algo),
        tree_leaves::<Arg, Ret, F, J, JA>(algo, a, depth) is Some,
        is_run(algo, a, e0, engines, helds, events),
    ensures
        forall|v: Ret| #[trigger] handed_values(helds, events, events.len()).to_multiset().count(v)
            <= tree_leaves::<Arg, Ret, F, J, JA>(algo, a, depth)->0.count(v),
        quiet(engines.last(), helds.last()) ==> handed_values(helds, events, events.len()).to_multiset()
            == tree_leaves::<Arg, Ret, F, J, JA>(algo, a, depth)->0,
        forall|c: int| #[trigger] sent_on(engines.last().sent_log(), c) == sent_on(e0.sent_log(), c) + if c == engines[0].tasks().last().join->Channel_0.channel_id() {
            handed_values(helds, events, events.len())
        } else {
            Seq::<Ret>::empty()
        },
{
    assert forall|c: int| #[trigger] sent_on(engines.last().sent_log(), c) == sent_on(e0.sent_log(), c) + if c == engines[0].tasks().last().join->Channel_0.channel_id() {
        handed_values(helds, events, events.len())
    } else {
        Seq::<Ret>::empty()
    } by {
        lemma_run_sends(algo, a, e0, engines, helds, events, c);
    }
    let (ds, hds) = lemma_search_prefix(algo, a, depth, e0, engines, helds, events, events.len());
    let e = engines.last();
    let hs = helds.last();
    assert(e == engines[events.len() as int]);
    assert(hs == helds[events.len() as int]);
    let sent = handed_values(helds, events, events.len());
    if quiet(e, hs) {
        assert(queue_leaves(algo, e.tasks(), ds) == Multiset::<Ret>::empty());
        lemma_idle_leaves(algo, hs, hds);
        assert(sent.to_multiset() =~= sent.to_multiset().add(Multiset::empty()).add(Multiset::empty()));
    }
}

} // verus!
