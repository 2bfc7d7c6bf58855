//! Join barriers: where the results of the subtasks of one fork are
//! collected until all of them have arrived.
use crate::algorithm::ReduceStyle;
use crate::channel::{channel_clone_sender, ChannelSender};
use vstd::prelude::*;

verus! {

/// Where the result of a task or of a join barrier goes.
#[verifier::reject_recursive_types(Ret)]
pub enum ResultReceiver<Ret> {
    /// Into slot `.0` of the join barrier numbered `.1`.
    Join(usize, usize),
    /// Straight to the `Job` that reads the other end of this channel.
    Channel(ChannelSender<Ret>),
}

impl<Ret> ResultReceiver<Ret> {
    /// Another receiver for the same channel. A slot of a join barrier has a
    /// single writer, so only a channel receiver can be duplicated.
    pub fn clone(&self) -> (r: ResultReceiver<Ret>)
        requires
            self is Channel,
        ensures
            r is Channel,
            r->Channel_0.channel_id() == self->Channel_0.channel_id(),
    {
        match self {
            ResultReceiver::Channel(c) => ResultReceiver::Channel(channel_clone_sender(c)),
            ResultReceiver::Join(_, _) => unreached(),
        }
    }
}

/// The collection point of the results of the subtasks of one fork.
#[verifier::reject_recursive_types(Ret)]
pub struct JoinBarrier<Ret, J, JA> {
    /// How many subtask results are still missing before the join can run.
    pub ret_counter: usize,
    /// The function to run once all results have arrived.
    pub joinfun: ReduceStyle<J, JA>,
    /// The extra value for a `ReduceStyle::Arg` join function.
    pub joinarg: Option<Ret>,
    /// One slot per subtask, in fork order; `None` until its result arrives.
    pub joinfunarg: Vec<Option<Ret>>,
    /// Where the result of the join goes.
    pub parent: ResultReceiver<Ret>,
}

/// A join barrier whose results have all arrived: everything needed to run
/// the join function and to pass its result on.
#[verifier::reject_recursive_types(Ret)]
pub struct CompletedJoin<Ret, J, JA> {
    pub joinfun: ReduceStyle<J, JA>,
    pub joinarg: Option<Ret>,
    /// The results of the subtasks, in fork order.
    pub values: Vec<Ret>,
    pub parent: ResultReceiver<Ret>,
}

impl<Ret, J, JA> CompletedJoin<Ret, J, JA> {
    /// `v` is a value the join function gives on the collected results,
    /// together with the extra value for a `ReduceStyle::Arg` join.
    pub open spec fn gives(&self, v: Ret) -> bool
        where
            J: Fn(&[Ret]) -> Ret,
            JA: Fn(&Ret, &[Ret]) -> Ret,
    {
        match self.joinfun {
            ReduceStyle::NoArg(f) => exists|s: &[Ret]|
                #![trigger call_ensures(f, (s,), v)]
                s@ == self.values@ && call_ensures(f, (s,), v),
            ReduceStyle::Arg(f) => exists|s: &[Ret]|
                #![trigger call_ensures(f, (&self.joinarg->0, s), v)]
                s@ == self.values@ && call_ensures(f, (&self.joinarg->0, s), v),
        }
    }

    /// Run the join function on the collected results, together with the
    /// extra value for a `ReduceStyle::Arg` join; the joined value goes to
    /// `self.parent`.
    pub fn run(&self) -> (v: Ret)
        where
            J: Fn(&[Ret]) -> Ret,
            JA: Fn(&Ret, &[Ret]) -> Ret,
        requires
            self.joinfun matches ReduceStyle::NoArg(f) ==> forall|s: &[Ret]| call_requires(f, (s,)),
            self.joinfun matches ReduceStyle::Arg(f) ==> {
                &&& self.joinarg is Some
                &&& forall|a: &Ret, s: &[Ret]| call_requires(f, (a, s))
            },
        ensures
            self.gives(v),
    {
        let values = self.values.as_slice();
        match &self.joinfun {
            ReduceStyle::NoArg(f) => {
                let v = f(values);
                assert(values@ == self.values@ && call_ensures(*f, (values,), v));
                v
            },
            ReduceStyle::Arg(f) => {
                match &self.joinarg {
                    Some(a) => {
                        let v = f(a, values);
                        assert(values@ == self.values@ && call_ensures(*f, (a, values), v));
                        v
                    },
                    None => unreached(),
                }
            },
        }
    }
}

/// The number of slots that hold no result yet.
pub open spec fn empty_slots<T>(s: Seq<Option<T>>) -> nat
    decreases s.len(),
{
    if s.len() == 0 {
        0
    } else {
        empty_slots(s.drop_last()) + if s.last() is None { 1nat } else { 0nat }
    }
}

/// The results held by slots that are all filled, in slot order.
pub open spec fn slot_values<T>(s: Seq<Option<T>>) -> Seq<T> {
    s.map_values(|o: Option<T>| o->0)
}

impl<Ret, J, JA> JoinBarrier<Ret, J, JA> {
    /// The counter counts exactly the slots still waiting for a result, and
    /// a barrier that is kept is still waiting for at least one.
    pub open spec fn wf(&self) -> bool {
        &&& self.ret_counter == empty_slots(self.joinfunarg@)
        &&& self.ret_counter > 0
    }

    /// `self` is `old` after the result `v` arrived in slot `i`.
    pub open spec fn filled_from(&self, old: &Self, i: int, v: Ret) -> bool {
        &&& self.ret_counter == old.ret_counter - 1
        &&& self.joinfunarg@ == old.joinfunarg@.update(i, Some(v))
        &&& self.joinfun == old.joinfun
        &&& self.joinarg == old.joinarg
        &&& self.parent == old.parent
    }

    /// Slot `i` of this barrier exists and waits for its result.
    pub open spec fn waits_at(&self, i: int) -> bool {
        &&& 0 <= i < self.joinfunarg@.len()
        &&& self.joinfunarg@[i] is None
    }
}

/// Filling a waiting slot leaves one slot fewer waiting.
pub proof fn lemma_empty_slots_fill<T>(s: Seq<Option<T>>, i: int, v: T)
    requires
        0 <= i < s.len(),
        s[i] is None,
    ensures
        empty_slots(s.update(i, Some(v))) + 1 == empty_slots(s),
    decreases s.len(),
{
    let t = s.update(i, Some(v));
    if i == s.len() - 1 {
        assert(t.drop_last() =~= s.drop_last());
    } else {
        assert(t.drop_last() =~= s.drop_last().update(i, Some(v)));
        lemma_empty_slots_fill(s.drop_last(), i, v);
    }
}

/// When no slot waits, every slot holds a result.
pub proof fn lemma_empty_slots_zero<T>(s: Seq<Option<T>>)
    requires
        empty_slots(s) == 0,
    ensures
        forall|i: int| 0 <= i < s.len() ==> (#[trigger] s[i]) is Some,
    decreases s.len(),
{
    if s.len() > 0 {
        lemma_empty_slots_zero(s.drop_last());
        assert forall|i: int| 0 <= i < s.len() implies (#[trigger] s[i]) is Some by {
            if i < s.len() - 1 {
                assert(s[i] == s.drop_last()[i]);
            }
        }
    }
}

/// Slots that all wait count as many as there are.
pub proof fn lemma_empty_slots_all_empty<T>(n: nat)
    ensures
        empty_slots(Seq::new(n, |_i: int| None::<T>)) == n,
    decreases n,
{
    if n > 0 {
        let s = Seq::new(n, |_i: int| None::<T>);
        assert(s.drop_last() =~= Seq::new((n - 1) as nat, |_i: int| None::<T>));
        lemma_empty_slots_all_empty::<T>((n - 1) as nat);
    }
}

/// The slots `slots` after the results `vals[order[0]]`, `vals[order[1]]`,
/// ... arrived, in that order, each in the slot of its own number.
pub open spec fn fill_in_order<T>(slots: Seq<Option<T>>, order: Seq<int>, vals: Seq<T>) -> Seq<Option<T>>
    decreases order.len(),
{
    if order.len() == 0 {
        slots
    } else {
        let k = order.last();
        fill_in_order(slots, order.drop_last(), vals).update(k, Some(vals[k]))
    }
}

/// The slots of a barrier just created for `n` subtasks.
pub open spec fn fresh_slots<T>(n: nat) -> Seq<Option<T>> {
    Seq::new(n, |_k: int| None::<T>)
}

/// `order` lists each of the numbers `0..n` exactly once.
pub open spec fn is_permutation(order: Seq<int>, n: nat) -> bool {
    &&& order.len() == n
    &&& forall|k: int| 0 <= k < order.len() ==> 0 <= #[trigger] order[k] < n
    &&& forall|j: int, k: int| 0 <= j < k < order.len() ==> order[j] != order[k]
    &&& forall|i: int| 0 <= i < n ==> #[trigger] order.contains(i)
}

proof fn lemma_fill_in_order_contents<T>(order: Seq<int>, vals: Seq<T>, k: int)
    requires
        0 <= k <= order.len(),
        forall|j: int| 0 <= j < order.len() ==> 0 <= #[trigger] order[j] < vals.len(),
        forall|a: int, b: int| 0 <= a < b < order.len() ==> order[a] != order[b],
    ensures
        fill_in_order(fresh_slots::<T>(vals.len()), order.take(k), vals).len() == vals.len(),
        forall|i: int| 0 <= i < vals.len() ==> (#[trigger] fill_in_order(fresh_slots::<T>(vals.len()), order.take(k), vals)[i])
            == if order.take(k).contains(i) { Some(vals[i]) } else { None },
        empty_slots(fill_in_order(fresh_slots::<T>(vals.len()), order.take(k), vals)) + k == vals.len(),
    decreases k,
{
    let n = vals.len();
    let cur = fill_in_order(fresh_slots::<T>(n), order.take(k), vals);
    if k == 0 {
        assert(order.take(0) =~= Seq::<int>::empty());
        lemma_empty_slots_all_empty::<T>(n);
    } else {
        lemma_fill_in_order_contents(order, vals, k - 1);
        let tk = order.take(k);
        let tp = order.take(k - 1);
        let x = order[k - 1];
        let prev = fill_in_order(fresh_slots::<T>(n), tp, vals);
        assert(tk.drop_last() =~= tp);
        assert(tk.last() == x);
        assert(cur == prev.update(x, Some(vals[x])));
        assert(!tp.contains(x)) by {
            if tp.contains(x) {
                let j = choose|j: int| 0 <= j < tp.len() && #[trigger] tp[j] == x;
                assert(order[j] == x);
            }
        }
        assert(prev[x] is None);
        lemma_empty_slots_fill(prev, x, vals[x]);
        assert forall|i: int| 0 <= i < n implies (#[trigger] cur[i])
            == if tk.contains(i) { Some(vals[i]) } else { None } by {
            if i == x {
                assert(tk[k - 1] == i);
            } else {
                if tk.contains(i) {
                    let j = choose|j: int| 0 <= j < tk.len() && #[trigger] tk[j] == i;
                    assert(tp[j] == i);
                }
                if tp.contains(i) {
                    let j = choose|j: int| 0 <= j < tp.len() && #[trigger] tp[j] == i;
                    assert(tk[j] == i);
                }
            }
        }
    }
}

/// Whatever order the subtasks of a fork complete in, each result finds
/// its own slot still waiting, the barrier's counter before the `k`-th
/// arrival is `n - k` (so the join is due exactly at the last arrival), and
/// the join receives the results in fork order.
pub proof fn law_join_collects_in_fork_order<T>(vals: Seq<T>, order: Seq<int>)
    requires
        is_permutation(order, vals.len()),
    ensures
        forall|k: int| 0 <= k < order.len() ==> {
            let before = #[trigger] fill_in_order(fresh_slots::<T>(vals.len()), order.take(k), vals);
            &&& 0 <= order[k] < before.len()
            &&& before[order[k]] is None
            &&& empty_slots(before) == vals.len() - k
        },
        empty_slots(fill_in_order(fresh_slots::<T>(vals.len()), order, vals)) == 0,
        slot_values(fill_in_order(fresh_slots::<T>(vals.len()), order, vals)) == vals,
{
    let n = vals.len();
    assert forall|k: int| 0 <= k < order.len() implies {
        let before = #[trigger] fill_in_order(fresh_slots::<T>(n), order.take(k), vals);
        &&& 0 <= order[k] < before.len()
        &&& before[order[k]] is None
        &&& empty_slots(before) == n - k
    } by {
        lemma_fill_in_order_contents(order, vals, k);
        let before = fill_in_order(fresh_slots::<T>(n), order.take(k), vals);
        assert(0 <= order[k] < n);
        let tk = order.take(k);
        if tk.contains(order[k]) {
            let j = choose|j: int| 0 <= j < tk.len() && #[trigger] tk[j] == order[k];
            assert(order[j] == order[k]);
        }
    }
    lemma_fill_in_order_contents(order, vals, n as int);
    assert(order.take(n as int) =~= order);
    let fin = fill_in_order(fresh_slots::<T>(n), order, vals);
    assert forall|i: int| 0 <= i < n implies #[trigger] fin[i] == Some(vals[i]) by {
        assert(order.contains(i));
        let k = choose|k: int| 0 <= k < order.len() && #[trigger] order[k] == i;
        assert(order.take(n as int)[k] == i);
    }
    assert(slot_values(fin) =~= vals);
}

} // verus!
