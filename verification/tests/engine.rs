use forkjoin::{
    open_channel, recv_result, try_recv_result, AlgoStyle, Algorithm, Received, ReduceStyle,
    ResultError, ResultReceiver, Scheduler, Step, Task, TaskResult,
};

type Algo<Arg, Ret> =
    Algorithm<fn(Arg) -> TaskResult<Arg, Ret>, fn(&[Ret]) -> Ret, fn(&Ret, &[Ret]) -> Ret>;
type Sched<Arg, Ret> =
    Scheduler<Arg, Ret, fn(Arg) -> TaskResult<Arg, Ret>, fn(&[Ret]) -> Ret, fn(&Ret, &[Ret]) -> Ret>;

/// Run every task of the engine, one after the other, joining as results complete.
fn run_to_end<Arg, Ret>(sched: &mut Sched<Arg, Ret>) {
    while let Some(task) = sched.next_task() {
        let (algo, join, result) = task.run();
        let mut step = sched.handle_result(algo, join, result);
        while let Step::Joinable(cj) = step {
            let v = cj.run();
            step = sched.deliver(cj.parent, v);
        }
    }
}

struct Tree {
    value: usize,
    children: Vec<Tree>,
}

fn create_tree() -> Tree {
    Tree {
        value: 100,
        children: vec![Tree {
            value: 250,
            children: vec![
                Tree { value: 500, children: vec![] },
                Tree { value: 10, children: vec![] },
            ],
        }],
    }
}

fn sum_tree_seq(t: &Tree) -> usize {
    t.value + t.children.iter().fold(0, |acc, t2| acc + sum_tree_seq(t2))
}

fn sum_tree_task(t: &Tree) -> TaskResult<&Tree, usize> {
    if t.children.is_empty() {
        TaskResult::Done(t.value)
    } else {
        let mut fork_args: Vec<&Tree> = vec![];
        for c in t.children.iter() {
            fork_args.push(c);
        }
        TaskResult::Fork(fork_args, Some(t.value))
    }
}

fn sum_tree_join(value: &usize, values: &[usize]) -> usize {
    *value + values.iter().fold(0, |acc, &v| acc + v)
}

fn no_join(_: &[usize]) -> usize {
    unreachable!()
}

fn no_join_arg(_: &usize, _: &[usize]) -> usize {
    unreachable!()
}

#[test]
fn sum_tree() {
    let tree = create_tree();
    let mut sched: Sched<&Tree, usize> = Scheduler::new();
    let algo: Algo<&Tree, usize> = Algorithm {
        fun: sum_tree_task,
        style: AlgoStyle::Reduce(ReduceStyle::Arg(sum_tree_join)),
    };
    let job = sched.submit(algo, &tree);
    run_to_end(&mut sched);
    let seq_sum = sum_tree_seq(&tree);
    assert_eq!(860, seq_sum);
    assert_eq!(Ok(seq_sum), job.recv());
    // a reduce computation sends exactly one result
    assert_eq!(Err(ResultError::Completed), job.recv());
}

fn fib_task(n: usize) -> TaskResult<usize, usize> {
    if n < 2 {
        TaskResult::Done(1)
    } else {
        TaskResult::Fork(vec![n - 1, n - 2], None)
    }
}

fn fib_join(values: &[usize]) -> usize {
    values.iter().fold(0, |acc, &v| acc + v)
}

#[test]
fn fib_30_reduces_to_1346269() {
    let mut sched: Sched<usize, usize> = Scheduler::new();
    let algo: Algo<usize, usize> = Algorithm {
        fun: fib_task,
        style: AlgoStyle::Reduce(ReduceStyle::NoArg(fib_join)),
    };
    let job = sched.submit(algo, 30);
    run_to_end(&mut sched);
    assert_eq!(Ok(1346269), job.recv());
    assert_eq!(Err(ResultError::Completed), job.try_recv());
}

type Board = Vec<usize>;

fn ok(q: &[usize]) -> bool {
    for (x1, &y1) in q.iter().enumerate() {
        for (x2, &y2) in q.iter().enumerate() {
            if x2 > x1 {
                let xd = x2 - x1;
                if y1 == y2 || y1 == y2 + xd || (y2 >= xd && y1 == y2 - xd) {
                    return false;
                }
            }
        }
    }
    true
}

fn nqueens_task((q, n): (Board, usize)) -> TaskResult<(Board, usize), Board> {
    if q.len() == n {
        TaskResult::Done(q)
    } else {
        let mut fork_args: Vec<(Board, usize)> = vec![];
        for i in 0..n {
            let mut q2 = q.clone();
            q2.push(i);
            if ok(&q2[..]) {
                fork_args.push((q2, n));
            }
        }
        TaskResult::Fork(fork_args, None)
    }
}

fn no_board_join(_: &[Board]) -> Board {
    unreachable!()
}

fn no_board_join_arg(_: &Board, _: &[Board]) -> Board {
    unreachable!()
}

#[test]
fn search_nqueens_finds_92_solutions() {
    let mut sched: Sched<(Board, usize), Board> = Scheduler::new();
    let algo: Algo<(Board, usize), Board> = Algorithm { fun: nqueens_task, style: AlgoStyle::Search };
    let _ = (no_board_join as fn(&[Board]) -> Board, no_board_join_arg as fn(&Board, &[Board]) -> Board);
    let job = sched.submit(algo, (vec![], 8));
    run_to_end(&mut sched);
    let mut solutions: Vec<Board> = vec![];
    loop {
        match job.recv() {
            Err(..) => break,
            Ok(board) => solutions.push(board),
        };
    }
    assert_eq!(92, solutions.len());
    assert!(solutions.iter().all(|b| b.len() == 8 && ok(b)));
}

#[test]
fn search_job_reports_no_result_then_completed() {
    let mut sched: Sched<(Board, usize), Board> = Scheduler::new();
    let algo: Algo<(Board, usize), Board> = Algorithm { fun: nqueens_task, style: AlgoStyle::Search };
    // no placement of 3 queens on a 3x3 board exists
    let job = sched.submit(algo, (vec![], 3));
    assert_eq!(Err(ResultError::NoResult), job.try_recv());
    run_to_end(&mut sched);
    assert_eq!(Err(ResultError::Completed), job.try_recv());
    assert_eq!(Err(ResultError::Completed), job.recv());
}

#[test]
fn join_receives_results_in_fork_order_whatever_the_arrival_order() {
    let mut sched: Sched<usize, usize> = Scheduler::new();
    let algo: Algo<usize, usize> = Algorithm {
        fun: fib_task,
        style: AlgoStyle::Reduce(ReduceStyle::NoArg(no_join)),
    };
    let (tx, _job) = open_channel();
    let step = sched.fork(algo, ResultReceiver::Channel(tx), vec![7, 8, 9], None);
    assert!(matches!(step, Step::Pending));
    let mut tasks = vec![];
    while let Some(t) = sched.next_task() {
        tasks.push(t);
    }
    // last scheduled first: the subtasks come back in reverse argument order
    assert_eq!(vec![9, 8, 7], tasks.iter().map(|t| t.arg).collect::<Vec<_>>());
    let mut results = vec![];
    for t in tasks {
        let v = t.arg * 10;
        results.push(sched.deliver(t.join, v));
    }
    assert!(matches!(results[0], Step::Pending));
    assert!(matches!(results[1], Step::Pending));
    match results.pop() {
        Some(Step::Joinable(cj)) => {
            assert_eq!(vec![70, 80, 90], cj.values);
            assert!(matches!(cj.parent, ResultReceiver::Channel(_)));
        }
        _ => panic!("the last result completes the join"),
    }
}

#[test]
fn a_slot_takes_one_result_only() {
    let mut sched: Sched<usize, usize> = Scheduler::new();
    let algo: Algo<usize, usize> = Algorithm {
        fun: fib_task,
        style: AlgoStyle::Reduce(ReduceStyle::Arg(no_join_arg)),
    };
    let (tx, _job) = open_channel();
    let _ = sched.fork(algo, ResultReceiver::Channel(tx), vec![1, 2], Some(5));
    assert!(matches!(sched.deliver(ResultReceiver::Join(0, 0), 11), Step::Pending));
    assert!(matches!(sched.deliver(ResultReceiver::Join(0, 0), 12), Step::Rejected(12)));
    assert!(matches!(sched.deliver(ResultReceiver::Join(2, 0), 13), Step::Rejected(13)));
    assert!(matches!(sched.deliver(ResultReceiver::Join(0, 1), 14), Step::Rejected(14)));
    match sched.deliver(ResultReceiver::Join(1, 0), 15) {
        Step::Joinable(cj) => {
            assert_eq!(vec![11, 15], cj.values);
            assert_eq!(Some(5), cj.joinarg);
            assert!(matches!(cj.joinfun, ReduceStyle::Arg(_)));
        }
        _ => panic!("the second result completes the join"),
    }
    // the barrier is gone: its slots take no more results
    assert!(matches!(sched.deliver(ResultReceiver::Join(1, 0), 16), Step::Rejected(16)));
}

#[test]
fn fork_on_no_argument_joins_at_once() {
    let mut sched: Sched<usize, usize> = Scheduler::new();
    let algo: Algo<usize, usize> = Algorithm {
        fun: fib_task,
        style: AlgoStyle::Reduce(ReduceStyle::NoArg(fib_join)),
    };
    let (tx, job) = open_channel();
    match sched.handle_result(algo, ResultReceiver::Channel(tx), TaskResult::Fork(vec![], None)) {
        Step::Joinable(cj) => {
            assert!(cj.values.is_empty());
            assert_eq!(0, cj.run());
            assert!(matches!(sched.deliver(cj.parent, 0), Step::Sent));
        }
        _ => panic!("a fork on no argument is due at once"),
    }
    assert!(sched.next_task().is_none());
    assert_eq!(Ok(0), job.recv());
}

#[test]
fn join_with_arg_adds_the_forking_value() {
    let mut sched: Sched<usize, usize> = Scheduler::new();
    let algo: Algo<usize, usize> = Algorithm {
        fun: fib_task,
        style: AlgoStyle::Reduce(ReduceStyle::Arg(sum_tree_join)),
    };
    let (tx, _job) = open_channel();
    let _ = sched.fork(algo, ResultReceiver::Channel(tx), vec![3], Some(100));
    match sched.deliver(ResultReceiver::Join(0, 0), 7) {
        Step::Joinable(cj) => assert_eq!(107, cj.run()),
        _ => panic!("a single subtask completes the join"),
    }
}

#[test]
fn search_fork_sends_every_result_to_the_job() {
    let mut sched: Sched<usize, usize> = Scheduler::new();
    let algo: Algo<usize, usize> = Algorithm { fun: fib_task, style: AlgoStyle::Search };
    let (tx, job) = open_channel();
    assert!(matches!(sched.fork(algo, ResultReceiver::Channel(tx), vec![4, 5], None), Step::Pending));
    let mut sent = 0;
    while let Some(t) = sched.next_task() {
        assert!(matches!(t.join, ResultReceiver::Channel(_)));
        let v = t.arg;
        assert!(matches!(sched.deliver(t.join, v), Step::Sent));
        sent += 1;
    }
    assert_eq!(2, sent);
    assert_eq!(Ok(5), job.recv());
    assert_eq!(Ok(4), job.recv());
    assert_eq!(Err(ResultError::Completed), job.recv());
}

#[test]
fn sending_to_a_dropped_job_gives_the_value_back() {
    let mut sched: Sched<usize, usize> = Scheduler::new();
    let (tx, job) = open_channel();
    drop(job);
    assert!(matches!(sched.deliver(ResultReceiver::Channel(tx), 3), Step::Undelivered(3)));
}

#[test]
fn submit_schedules_a_root_task_reporting_to_its_job() {
    let mut sched: Sched<usize, usize> = Scheduler::new();
    let algo: Algo<usize, usize> = Algorithm { fun: fib_task, style: AlgoStyle::Search };
    let job = sched.submit(algo, 1);
    let t = sched.next_task().unwrap();
    assert_eq!(1, t.arg);
    assert!(sched.next_task().is_none());
    assert_eq!(Err(ResultError::NoResult), job.try_recv());
    assert!(matches!(sched.deliver(t.join, 6), Step::Sent));
    assert_eq!(Ok(6), job.recv());
    assert_eq!(Err(ResultError::Completed), job.recv());
}

#[test]
fn last_scheduled_runs_first() {
    let mut sched: Sched<usize, usize> = Scheduler::new();
    let algo: Algo<usize, usize> = Algorithm { fun: fib_task, style: AlgoStyle::Search };
    let (tx, _job) = open_channel();
    let r = ResultReceiver::Channel(tx);
    sched.schedule(Task { algo, arg: 1, join: r.clone() });
    sched.schedule(Task { algo, arg: 2, join: r });
    assert_eq!(Some(2), sched.next_task().map(|t| t.arg));
    assert_eq!(Some(1), sched.next_task().map(|t| t.arg));
    assert!(sched.next_task().is_none());
}

#[test]
fn task_run_returns_what_the_function_returns() {
    let algo: Algo<usize, usize> = Algorithm { fun: fib_task, style: AlgoStyle::Search };
    let (tx, _job) = open_channel();
    let (a, join, result) = Task { algo, arg: 5, join: ResultReceiver::Channel(tx) }.run();
    assert!(matches!(a.style, AlgoStyle::Search));
    assert!(matches!(join, ResultReceiver::Channel(_)));
    match result {
        TaskResult::Fork(args, None) => assert_eq!(vec![4, 3], args),
        _ => panic!("fib of 5 forks"),
    }
}

#[test]
fn channel_receiver_clone_reaches_the_same_job() {
    let (tx, job) = open_channel();
    let r: ResultReceiver<usize> = ResultReceiver::Channel(tx);
    let r2 = r.clone();
    let mut sched: Sched<usize, usize> = Scheduler::new();
    assert!(matches!(sched.deliver(r2, 9), Step::Sent));
    drop(r);
    assert_eq!(Ok(9), job.recv());
    assert_eq!(Err(ResultError::Completed), job.recv());
}

#[test]
fn read_outcomes_map_to_result_errors() {
    assert_eq!(Ok(4), try_recv_result(Received::Value(4)));
    assert_eq!(Err(ResultError::NoResult), try_recv_result::<u8>(Received::Empty));
    assert_eq!(Err(ResultError::Completed), try_recv_result::<u8>(Received::Disconnected));
    assert_eq!(Ok(4), recv_result(Some(4)));
    assert_eq!(Err(ResultError::Completed), recv_result::<u8>(None));
}

#[test]
fn result_error_messages() {
    assert_eq!(
        "The job has finished executing, no results left to read",
        ResultError::Completed.message()
    );
    assert_eq!("No results available", ResultError::NoResult.message());
}

#[test]
fn job_try_recv_sees_a_waiting_value() {
    let (tx, job) = open_channel();
    assert_eq!(Err(ResultError::NoResult), job.try_recv());
    let mut sched: Sched<u32, u32> = Scheduler::new();
    assert!(matches!(sched.deliver(ResultReceiver::Channel(tx), 3), Step::Sent));
    assert_eq!(Ok(3), job.try_recv());
    assert_eq!(Err(ResultError::Completed), job.try_recv());
}

#[test]
fn reduce_run_hands_its_job_exactly_one_value() {
    let mut sched: Sched<usize, usize> = Scheduler::new();
    let algo: Algo<usize, usize> = Algorithm {
        fun: fib_task,
        style: AlgoStyle::Reduce(ReduceStyle::NoArg(fib_join)),
    };
    let job = sched.submit(algo, 15);
    run_to_end(&mut sched);
    assert_eq!(Ok(987), job.try_recv());
    assert_eq!(Err(ResultError::Completed), job.try_recv());
    assert_eq!(Err(ResultError::Completed), job.recv());
}

#[test]
fn search_run_hands_every_leaf_once() {
    let mut sched: Sched<usize, usize> = Scheduler::new();
    let algo: Algo<usize, usize> = Algorithm { fun: fib_task, style: AlgoStyle::Search };
    let job = sched.submit(algo, 10);
    run_to_end(&mut sched);
    let mut leaves = 0;
    while let Ok(v) = job.try_recv() {
        assert_eq!(1, v);
        leaves += 1;
    }
    assert_eq!(89, leaves);
    assert_eq!(Err(ResultError::Completed), job.try_recv());
}
