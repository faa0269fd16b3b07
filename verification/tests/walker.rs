use kosu::platform::RawEntry;
use kosu::pool::{
    find_task, new_stacks, next_victim, settle_round, steal_round, stealers_of, victim_at,
    RootedDir, Search, Stolen, TaskQueue, TaskStack,
};
use kosu::walker::{
    flush_local, idle_step, in_flight_change, is_over, optimal_thread_count, performance_cores,
    process_dir, process_size_dir, EntryKind, IdleStep, InFlight, WalkConfig,
};

fn entry(name: &[u8], kind: EntryKind, size: Option<u64>) -> RawEntry {
    RawEntry { name: name.to_vec(), kind, size }
}

fn task(root_idx: u32, path: &[u8]) -> RootedDir {
    RootedDir { root_idx, path: path.to_vec() }
}

fn flat(tasks: &[RootedDir]) -> Vec<(u32, Vec<u8>)> {
    tasks.iter().map(|t| (t.root_idx, t.path.clone())).collect()
}

#[test]
fn thread_counts() {
    assert_eq!(performance_cores(0, 12), Some(12));
    assert_eq!(performance_cores(0, 0), None);
    assert_eq!(performance_cores(-1, 12), None);
    assert_eq!(optimal_thread_count(Some(12), Some(16)), 12);
    assert_eq!(optimal_thread_count(None, Some(16)), 16);
    assert_eq!(optimal_thread_count(None, None), 4);
    let config = WalkConfig::for_machine(None, Some(6));
    assert_eq!(config.threads, 6);
    assert!(!config.follow_symlinks);
    assert_eq!(config.with_threads(None).threads, 6);
    assert_eq!(config.with_threads(Some(0)).threads, 1);
    assert_eq!(config.with_threads(Some(9)).threads, 9);
    assert_eq!(WalkConfig { threads: 0, follow_symlinks: false }.worker_count(), 1);
}

#[test]
fn directories_are_descended_into_unless_skipped() {
    let listing = [
        entry(b"d", EntryKind::Dir, None),
        entry(b"skipped", EntryKind::Dir, None),
        entry(b"f", EntryKind::File, Some(1)),
        entry(b"l", EntryKind::Symlink, None),
        entry(b"o", EntryKind::Other, None),
    ];
    let skips = [false, true, false, false, false];
    let plain = process_dir(&task(3, b"/r"), &listing, &skips, false);
    assert_eq!(flat(&plain), vec![(3, b"/r/d".to_vec())]);
    let followed = process_dir(&task(3, b"/r"), &listing, &skips, true);
    assert_eq!(flat(&followed), vec![(3, b"/r/d".to_vec()), (3, b"/r/l".to_vec())]);
}

#[test]
fn sizes_go_to_the_slot_of_their_root() {
    let listing = [
        entry(b"d", EntryKind::Dir, Some(4)),
        entry(b"f", EntryKind::File, Some(10)),
        entry(b"g", EntryKind::File, None),
    ];
    let mut local = vec![1, 2, 3];
    let children = process_size_dir(&task(1, b"/r"), &listing, &mut local, false);
    assert_eq!(local, vec![1, 16, 3]);
    assert_eq!(flat(&children), vec![(1, b"/r/d".to_vec())]);
}

#[test]
fn totals_are_the_sums_of_all_workers() {
    let mut totals = vec![0, 0, 0];
    flush_local(&mut totals, &[1, 2, 0]);
    flush_local(&mut totals, &[10, 0, 5]);
    assert_eq!(totals, vec![11, 2, 5]);
    flush_local(&mut totals, &[u64::MAX, 0, 0]);
    assert_eq!(totals, vec![10, 2, 5]);
}

#[test]
fn the_counter_of_unfinished_directories() {
    assert_eq!(in_flight_change(0), InFlight::Drop);
    assert_eq!(in_flight_change(1), InFlight::Keep);
    assert_eq!(in_flight_change(5), InFlight::Grow(4));
    assert!(is_over(1));
    assert!(!is_over(2));
}

#[test]
fn idle_workers_yield_and_then_sleep() {
    assert_eq!(idle_step(true, 7), (IdleStep::Stop, 7));
    assert_eq!(idle_step(false, 0), (IdleStep::Yield, 1));
    assert_eq!(idle_step(false, 30), (IdleStep::Yield, 31));
    assert_eq!(idle_step(false, 31), (IdleStep::Sleep, 32));
    assert_eq!(idle_step(false, u32::MAX), (IdleStep::Sleep, u32::MAX));
}

#[test]
fn a_walk_is_over_when_the_counter_says_so() {
    // A tree of three levels, walked by one worker.
    let mut active: usize = 1;
    let mut waiting = vec![2usize];
    let mut over = false;
    let mut reads = 0;
    while let Some(depth) = waiting.pop() {
        assert!(!over);
        reads += 1;
        let added = if depth > 0 { 3 } else { 0 };
        match in_flight_change(added) {
            InFlight::Drop => {
                over = is_over(active);
                active -= 1;
            }
            InFlight::Keep => {}
            InFlight::Grow(by) => active += by,
        }
        for _ in 0..added {
            waiting.push(depth - 1);
        }
    }
    assert!(over);
    assert_eq!(active, 0);
    assert_eq!(reads, 13);
}

#[test]
fn a_stack_gives_the_newest_task_first() {
    let mut stack = TaskStack::new();
    assert!(stack.pop().is_none());
    stack.push(task(0, b"a"));
    stack.push_all(vec![task(1, b"b"), task(2, b"c")]);
    assert_eq!(stack.pop().unwrap().path, b"c".to_vec());
    assert_eq!(stack.pop().unwrap().path, b"b".to_vec());
    let first = stack.pop().unwrap();
    assert_eq!((first.root_idx, first.path), (0, b"a".to_vec()));
    assert!(stack.pop().is_none());
}

#[test]
fn stealing_takes_the_oldest_task() {
    let mut stack = TaskStack::new();
    let stealer = stack.stealer();
    assert!(matches!(stealer.steal(), Stolen::Empty));
    stack.push(task(0, b"old"));
    stack.push(task(1, b"new"));
    match stealer.steal() {
        Stolen::Task(t) => assert_eq!(t.path, b"old".to_vec()),
        other => panic!("{:?}", other),
    }
    assert_eq!(stack.pop().unwrap().path, b"new".to_vec());
    assert!(stack.pop().is_none());
}

#[test]
fn the_queue_holds_the_roots() {
    let queue = TaskQueue::seed(&[b"/a".to_vec(), b"/b".to_vec()]);
    let mut got = Vec::new();
    loop {
        match queue.steal() {
            Stolen::Task(t) => got.push((t.root_idx, t.path)),
            Stolen::Empty => break,
            Stolen::Retry => {}
        }
    }
    assert_eq!(got, vec![(0, b"/a".to_vec()), (1, b"/b".to_vec())]);
}

#[test]
fn a_search_goes_through_stack_queue_and_others() {
    let mut stacks = new_stacks(3);
    let stealers = stealers_of(&stacks);
    assert_eq!(stealers.len(), 3);
    let queue = TaskQueue::seed(&[b"/root".to_vec()]);
    stacks[2].push(task(7, b"/two"));
    stacks[0].push(task(8, b"/zero"));
    let mut found = Vec::new();
    loop {
        match find_task(&mut stacks[0], &queue, &stealers, 0) {
            Search::Found(t) => found.push(t.path),
            Search::Contended => {}
            Search::Exhausted => break,
        }
    }
    assert_eq!(found, vec![b"/zero".to_vec(), b"/root".to_vec(), b"/two".to_vec()]);
    assert!(matches!(steal_round(&queue, &stealers, 1), Search::Exhausted));
}

#[test]
fn rounds_are_settled_by_the_first_task() {
    let found = settle_round(
        Stolen::Empty,
        vec![Stolen::Retry, Stolen::Task(task(1, b"x")), Stolen::Task(task(2, b"y"))],
    );
    match found {
        Search::Found(t) => assert_eq!(t.path, b"x".to_vec()),
        other => panic!("{:?}", other),
    }
    assert!(matches!(settle_round(Stolen::Empty, vec![Stolen::Retry]), Search::Contended));
    assert!(matches!(settle_round(Stolen::Empty, vec![Stolen::Empty]), Search::Exhausted));
    assert!(matches!(settle_round(Stolen::Empty, vec![]), Search::Exhausted));
    assert!(matches!(
        settle_round(Stolen::Retry, vec![Stolen::Task(task(1, b"x"))]),
        Search::Contended
    ));
    match settle_round(Stolen::Task(task(9, b"q")), vec![]) {
        Search::Found(t) => assert_eq!(t.root_idx, 9),
        other => panic!("{:?}", other),
    }
}

#[test]
fn a_round_tries_every_other_worker_once() {
    for own in 0..5 {
        let mut tried: Vec<usize> = (1..5).map(|offset| victim_at(own, offset, 5)).collect();
        assert_eq!(tried[0], (own + 1) % 5);
        tried.sort();
        let others: Vec<usize> = (0..5).filter(|&w| w != own).collect();
        assert_eq!(tried, others);
    }
}

#[test]
fn a_queue_without_roots_is_empty() {
    let queue = TaskQueue::seed(&[]);
    assert!(matches!(queue.steal(), Stolen::Empty));
    assert!(matches!(steal_round(&queue, &[], 0), Search::Exhausted));
}

#[test]
fn a_round_goes_on_until_a_task_is_found() {
    // Worker 3 of 4 tries 0, 1 and 2, once the shared queue was empty.
    assert_eq!(next_victim(&Stolen::Empty, &[], 3, 4), Some(0));
    assert_eq!(next_victim(&Stolen::Empty, &[Stolen::Retry], 3, 4), Some(1));
    let two = [Stolen::Retry, Stolen::Empty];
    assert_eq!(next_victim(&Stolen::Empty, &two, 3, 4), Some(2));
    let three = [Stolen::Empty, Stolen::Empty, Stolen::Empty];
    assert_eq!(next_victim(&Stolen::Empty, &three, 3, 4), None);
    let lucky = [Stolen::Empty, Stolen::Task(task(1, b"x"))];
    assert_eq!(next_victim(&Stolen::Empty, &lucky, 3, 4), None);
    assert_eq!(next_victim(&Stolen::Retry, &[], 3, 4), None);
    assert_eq!(next_victim(&Stolen::Task(task(1, b"x")), &[], 3, 4), None);
    assert_eq!(next_victim(&Stolen::Empty, &[], 0, 1), None);
    assert_eq!(next_victim(&Stolen::Empty, &[], 0, 0), None);
}
