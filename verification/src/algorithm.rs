//! What a computation is made of: the algorithm that every task runs, the
//! result a task gives back, and the task itself.
use crate::barrier::ResultReceiver;
use vstd::prelude::*;

verus! {

/// What a task function gives back: a computed value or a fork.
pub enum TaskResult<Arg, Ret> {
    /// A computed value: a leaf in the problem tree of the computation.
    ///
    /// In a `Search` algorithm the value goes straight to the `Job` of the
    /// submitter. In a `Reduce` algorithm it is stored in the join barrier of
    /// the parent task and handed to the join function once all subtasks
    /// have completed.
    Done(Ret),
    /// A fork: one subtask is created for each argument. The second value is
    /// handed to the join function of a `ReduceStyle::Arg` algorithm; there
    /// it must be `Some`.
    Fork(Vec<Arg>, Option<Ret>),
}

/// Which join function a `Reduce` algorithm uses. `J` joins the results of
/// the subtasks alone, `JA` joins them together with an extra value sent by
/// the forking task.
#[derive(Copy)]
pub enum ReduceStyle<J, JA> {
    /// Only the results of all subtasks are passed to the join function.
    NoArg(J),
    /// The join function also receives the value the forking task sent along.
    Arg(JA),
}

/// The style of an algorithm.
#[derive(Copy)]
pub enum AlgoStyle<J, JA> {
    /// The results of the nodes of the problem tree are joined into one
    /// result for the whole computation.
    Reduce(ReduceStyle<J, JA>),
    /// Every `Done` value is sent to the submitter directly.
    Search,
}

/// An algorithm: the function that every task and subtask runs, and what is
/// done with the results of subtasks.
#[derive(Copy)]
pub struct Algorithm<F, J, JA> {
    /// The function executed by all the tasks and subtasks.
    pub fun: F,
    /// What is done with results of subtasks forked by this algorithm.
    pub style: AlgoStyle<J, JA>,
}

/// A unit of work: an argument to run the algorithm's function on, and where
/// its result goes.
#[verifier::reject_recursive_types(Ret)]
pub struct Task<Arg, Ret, F, J, JA> {
    pub algo: Algorithm<F, J, JA>,
    pub arg: Arg,
    pub join: ResultReceiver<Ret>,
}

impl<J: Copy, JA: Copy> Clone for ReduceStyle<J, JA> {
    /// A copy: the same style with the same join function.
    fn clone(&self) -> (r: Self)
        ensures
            r == *self,
    {
        *self
    }
}

impl<J: Copy, JA: Copy> Clone for AlgoStyle<J, JA> {
    /// A copy: the same style with the same join function.
    fn clone(&self) -> (r: Self)
        ensures
            r == *self,
    {
        *self
    }
}

impl<F: Copy, J: Copy, JA: Copy> Clone for Algorithm<F, J, JA> {
    /// A copy: the same task function and the same style.
    fn clone(&self) -> (r: Self)
        ensures
            r == *self,
    {
        *self
    }
}

impl<Arg, Ret, F, J, JA> Task<Arg, Ret, F, J, JA> {
    /// Run the algorithm's function on the task's argument; give back the
    /// algorithm, the receiver of the task's result, and what the function
    /// returned.
    pub fn run(self) -> (r: (Algorithm<F, J, JA>, ResultReceiver<Ret>, TaskResult<Arg, Ret>))
        where
            F: Fn(Arg) -> TaskResult<Arg, Ret>,
        requires
            call_requires(self.algo.fun, (self.arg,)),
        ensures
            r.0 == self.algo,
            r.1 == self.join,
            call_ensures(self.algo.fun, (self.arg,), r.2),
    {
        let Task { algo, arg, join } = self;
        let result = (algo.fun)(arg);
        (algo, join, result)
    }
}

} // verus!
