use hlsearch::{
    build_shift_table, Checkpoint, Frame, JobOutcome, ParallelInProgress, ParallelProgress,
    ParallelShared, SearchError, SearchMode, SharedResults, State,
};

fn new_state(primes: &[usize], cols: usize) -> State {
    State::new(primes.to_vec(), cols, build_shift_table(primes, cols))
}

fn sorted(list: &Vec<Vec<usize>>) -> Vec<Vec<usize>> {
    let mut list = list.clone();
    list.sort();
    list
}

fn parallel_checkpoint(primes: &[usize], cols: usize, depth: usize) -> Checkpoint {
    Checkpoint {
        mode: SearchMode::Parallel,
        depth,
        primes: primes.to_vec(),
        cols,
        stack: Vec::new(),
        key: Vec::new(),
        max_count: 0,
        results: 0,
        shifts: Vec::new(),
        target_results: 0,
        target_shifts: Vec::new(),
        node_count: 0,
        split_depth: 1,
        completed: Vec::new(),
        in_progress: Vec::new(),
    }
}

fn entry(work_index: usize, stack: Vec<Frame>, key: Vec<usize>) -> ParallelInProgress {
    ParallelInProgress {
        work_index,
        stack,
        key,
    }
}

#[test]
fn sequential_and_parallel_search_find_valid_results() {
    let primes = vec![2, 3];
    let cols = 4;
    let table = build_shift_table(&primes, cols);
    let mut sequential = State::new(primes.clone(), cols, table.clone());
    sequential.search_with_checkpoint(2, None).unwrap();
    let parallel = State::new(primes.clone(), cols, table);
    let result = parallel.search_parallel(2, None).unwrap();

    assert!(sequential.results > 0);
    assert_eq!(result.max_count, sequential.max_count);
    assert_eq!(result.results, sequential.results);
    assert_eq!(result.shifts.len(), result.results);
    for shifts in &result.shifts {
        assert_eq!(shifts.len(), 2);
        for (level, &shift) in shifts.iter().enumerate() {
            assert!(shift < primes[level]);
        }
    }
}

#[test]
fn sequential_and_parallel_search_record_all_best_leaves() {
    let primes = vec![2];
    let cols = 4;
    let table = build_shift_table(&primes, cols);

    let mut sequential = State::new(primes.clone(), cols, table.clone());
    sequential.search_with_checkpoint(1, None).unwrap();

    let parallel = State::new(primes, cols, table);
    let result = parallel.search_parallel(1, None).unwrap();

    assert_eq!(sequential.max_count, 2);
    assert_eq!(sequential.results, 2);
    assert_eq!(sequential.shifts, vec![vec![1], vec![0]]);
    assert_eq!(result.max_count, 2);
    assert_eq!(result.results, 2);
    assert_eq!(result.shifts.len(), 2);
}

#[test]
fn sequential_and_parallel_search_agree_on_a_larger_tree() {
    let primes = [2, 3, 5, 7];
    for target in [None, Some(5)] {
        let mut sequential = new_state(&primes, 30);
        sequential.target = target;
        sequential.search_with_checkpoint(4, None).unwrap();
        assert_eq!(sequential.max_count, 8);
        assert_eq!(sequential.results, 24);

        let mut parallel = new_state(&primes, 30);
        parallel.target = target;
        parallel.checkpoint_interval = 7;
        let result = parallel.search_parallel(4, None).unwrap();
        assert_eq!(result.max_count, sequential.max_count);
        assert_eq!(result.results, sequential.results);
        assert_eq!(sorted(&result.shifts), sorted(&sequential.shifts));
        assert_eq!(result.target_results, sequential.target_results);
        assert_eq!(
            sorted(&result.target_shifts),
            sorted(&sequential.target_shifts)
        );
    }
}

#[test]
fn parallel_checkpoint_write_and_resume_round_trip() {
    let primes = vec![2, 3, 5];
    let cols = 8;
    let depth = 3;
    let table = build_shift_table(&primes, cols);

    let mut state = State::new(primes.clone(), cols, table.clone());
    state.checkpoint_interval = 1;
    let (ctx, jobs) = state.plan_parallel(depth, None).unwrap();
    let outcomes: Vec<JobOutcome> = jobs
        .into_iter()
        .map(|job| state.complete_parallel_job(job, &ctx))
        .collect();
    let expected = state.collect_results(&ctx, &outcomes);
    let checkpoint = state.make_parallel_checkpoint(&ctx, false);

    let resumed = State::new(primes, cols, table);
    let result = resumed.search_parallel(depth, checkpoint).unwrap();

    assert_eq!(result.max_count, expected.max_count);
    assert_eq!(result.results, expected.results);
    assert_eq!(result.shifts.len(), expected.results);
}

#[test]
fn parallel_resume_skips_completed_work_items() {
    let primes = vec![2, 3, 5];
    let cols = 8;
    let depth = 3;
    let table = build_shift_table(&primes, cols);
    let state = State::new(primes.clone(), cols, table.clone());
    let split_depth = state.parallel_split_depth(depth);
    let work_items = state.parallel_work_items(split_depth);
    assert!(!work_items.is_empty());

    let expected = State::new(primes.clone(), cols, table.clone())
        .search_parallel(depth, None)
        .unwrap();

    let completed: Vec<usize> = (0..work_items.len()).collect();
    let checkpoint = Checkpoint {
        mode: SearchMode::Parallel,
        depth,
        primes: primes.clone(),
        cols,
        stack: Vec::new(),
        key: Vec::new(),
        max_count: expected.max_count,
        results: expected.results,
        shifts: expected.shifts.clone(),
        target_results: 0,
        target_shifts: Vec::new(),
        node_count: 42,
        split_depth,
        completed,
        in_progress: Vec::new(),
    };

    let resumed = State::new(primes, cols, table);
    let result = resumed.search_parallel(depth, Some(checkpoint)).unwrap();
    assert_eq!(result.max_count, expected.max_count);
    assert_eq!(result.results, expected.results);
    assert_eq!(result.shifts, expected.shifts);
}

#[test]
fn parallel_search_rejects_sequential_checkpoint() {
    let primes = vec![2];
    let cols = 4;
    let table = build_shift_table(&primes, cols);
    let saved = State::new(primes.clone(), cols, table.clone());
    let checkpoint = saved.make_checkpoint(
        1,
        &vec![Frame {
            level: 0,
            next_idx: 2,
        }],
    );

    let resumed = State::new(primes, cols, table);
    let err = resumed
        .search_parallel(1, Some(checkpoint))
        .unwrap_err()
        .message();
    assert!(err.contains("sequential"));
}

#[test]
fn parallel_search_rejects_inconsistent_checkpoints() {
    let state = new_state(&[2, 3], 4);
    assert_eq!(
        state
            .search_parallel(2, Some(parallel_checkpoint(&[2, 3], 5, 2)))
            .unwrap_err(),
        SearchError::ConfigMismatch { depth: 2, cols: 5 }
    );
    let mut split = parallel_checkpoint(&[2, 3], 4, 2);
    split.split_depth = 3;
    assert_eq!(
        state.search_parallel(2, Some(split)).unwrap_err(),
        SearchError::SplitBelowDepth
    );
    let mut range = parallel_checkpoint(&[2, 3], 4, 2);
    range.in_progress = vec![entry(2, vec![], vec![1])];
    assert_eq!(
        state.search_parallel(2, Some(range)).unwrap_err(),
        SearchError::WorkIndexOutOfRange
    );
    let mut overlap = parallel_checkpoint(&[2, 3], 4, 2);
    overlap.in_progress = vec![entry(1, vec![], vec![1])];
    overlap.completed = vec![1];
    assert_eq!(
        state.search_parallel(2, Some(overlap)).unwrap_err(),
        SearchError::WorkIndexOverlap
    );
}

#[test]
fn jobs_go_on_from_their_positions() {
    // Of the first job, only the node [1, 0] is left; the second has not been started.
    let mut checkpoint = parallel_checkpoint(&[2, 3], 4, 2);
    checkpoint.in_progress = vec![entry(
        0,
        vec![Frame {
            level: 1,
            next_idx: 1,
        }],
        vec![1],
    )];
    let state = new_state(&[2, 3], 4);
    assert!(state.accepts_parallel(2, &None));
    let resume = Some(checkpoint);
    assert!(state.accepts_parallel(2, &resume));
    let result = state.search_parallel(2, resume).unwrap();
    // [1, 1] is missing.
    assert_eq!(result.max_count, 2);
    assert_eq!(result.shifts, vec![vec![0, 2]]);
}

#[test]
fn misplaced_jobs_are_not_accepted() {
    let state = new_state(&[2, 3], 4);
    let mut misplaced = parallel_checkpoint(&[2, 3], 4, 2);
    misplaced.in_progress = vec![entry(
        0,
        vec![Frame {
            level: 1,
            next_idx: 4,
        }],
        vec![1],
    )];
    assert!(!state.accepts_parallel(2, &Some(misplaced)));
    let mut counter = parallel_checkpoint(&[2, 3], 4, 2);
    counter.target_results = 1;
    assert!(!state.accepts_parallel(2, &Some(counter)));
    assert!(state.accepts_parallel(2, &Some(parallel_checkpoint(&[2, 3], 5, 2))));
}

#[test]
fn every_parallel_checkpoint_leads_to_the_same_result() {
    let primes = [2, 3, 5, 7];
    let mut whole = new_state(&primes, 30);
    whole.target = Some(5);
    whole.search_with_checkpoint(4, None).unwrap();

    let mut state = new_state(&primes, 30);
    state.target = Some(5);
    state.checkpoint_interval = 4;
    state.parallel_tasks_per_thread = 1;
    let (ctx, jobs) = state.plan_parallel(4, None).unwrap();
    let mut outcomes: Vec<JobOutcome> = Vec::new();
    for job in jobs {
        let index = job.index;
        let mut active = state.start_parallel_job(job, &ctx);
        loop {
            let done = state.run_parallel_job(&mut active, &ctx);
            let checkpoint = state.make_parallel_checkpoint(&ctx, false).unwrap();
            assert_eq!(checkpoint.mode, SearchMode::Parallel);
            assert_eq!(checkpoint.split_depth, ctx.split_depth);
            assert_eq!(checkpoint.completed.contains(&index), done);
            let resume = Some(checkpoint);
            let mut resumed = new_state(&primes, 30);
            resumed.target = Some(5);
            assert!(resumed.accepts_parallel(4, &resume));
            let result = resumed.search_parallel(4, resume).unwrap();
            assert_eq!(result.max_count, whole.max_count);
            assert_eq!(sorted(&result.shifts), sorted(&whole.shifts));
            assert_eq!(sorted(&result.target_shifts), sorted(&whole.target_shifts));
            if done {
                break;
            }
        }
        outcomes.push(active.outcome(&ctx));
    }
    let result = state.collect_results(&ctx, &outcomes);
    assert_eq!(sorted(&result.shifts), sorted(&whole.shifts));
}

#[test]
fn parallel_checkpoints_wait_for_the_interval() {
    let mut state = new_state(&[2, 3, 5], 8);
    state.checkpoint_interval = 3;
    state.parallel_tasks_per_thread = 0;
    let (ctx, mut jobs) = state.plan_parallel(3, None).unwrap();
    assert_eq!(ctx.split_depth, 1);
    assert_eq!(jobs.len(), 2);
    assert!(state.make_parallel_checkpoint(&ctx, true).is_none());
    assert!(state.make_parallel_checkpoint(&ctx, false).is_some());
    let mut active = state.start_parallel_job(jobs.remove(0), &ctx);
    assert!(!state.run_parallel_job(&mut active, &ctx));
    let checkpoint = state.make_parallel_checkpoint(&ctx, true).unwrap();
    assert_eq!(checkpoint.node_count, 3);
    // The nodes were [1, 2], [1, 2, 4] and [1, 2, 3].
    assert_eq!(checkpoint.max_count, 3);
    assert_eq!(checkpoint.shifts, vec![vec![1, 2, 3]]);
    assert_eq!(checkpoint.in_progress.len(), 1);
    assert_eq!(checkpoint.in_progress[0].work_index, 0);
    assert_eq!(checkpoint.in_progress[0].key, vec![1, 2]);
    assert_eq!(
        checkpoint.in_progress[0].stack,
        vec![
            Frame {
                level: 1,
                next_idx: 2
            },
            Frame {
                level: 2,
                next_idx: 3
            }
        ]
    );
    ctx.mark_checkpoint(checkpoint.node_count);
    assert!(state.make_parallel_checkpoint(&ctx, true).is_none());
}

#[test]
fn split_depth_follows_the_number_of_tasks() {
    let state = new_state(&[2, 3, 5], 8);
    assert_eq!(state.split_depth_for(3, 0), 1);
    assert_eq!(state.split_depth_for(3, 2), 1);
    assert_eq!(state.split_depth_for(3, 3), 2);
    assert_eq!(state.split_depth_for(3, 6), 2);
    assert_eq!(state.split_depth_for(3, 7), 3);
    assert_eq!(state.split_depth_for(3, 30), 3);
    assert_eq!(state.split_depth_for(3, 31), 3);
    assert_eq!(state.split_depth_for(0, 31), 0);
    let threads = rayon::current_num_threads();
    assert_eq!(
        state.parallel_split_depth(3),
        state.split_depth_for(3, threads * 4)
    );
}

#[test]
fn work_items_are_the_nodes_at_the_split() {
    let state = new_state(&[2, 3, 5], 8);
    let items = state.parallel_work_items(2);
    let keys: Vec<Vec<usize>> = items.iter().map(|item| item.key.clone()).collect();
    assert_eq!(
        keys,
        vec![
            vec![1, 2],
            vec![1, 1],
            vec![1, 0],
            vec![0, 2],
            vec![0, 1],
            vec![0, 0]
        ]
    );
    let counts: Vec<usize> = items
        .iter()
        .map(|item| item.base_mask.count_ones())
        .collect();
    assert_eq!(counts, vec![3, 3, 2, 3, 2, 3]);
    let root = state.parallel_work_items(0);
    assert_eq!(root.len(), 1);
    assert!(root[0].key.is_empty());
    assert_eq!(root[0].base_mask.count_ones(), 8);
}

#[test]
fn jobs_in_progress_come_before_fresh_ones() {
    let state = new_state(&[2, 3], 4);
    let items = state.parallel_work_items(2);
    let progress = ParallelProgress::from_lists(
        &vec![4, 0],
        &vec![entry(3, vec![], vec![0, 2]), entry(1, vec![], vec![1, 1])],
    );
    let jobs = state.parallel_jobs(&items, &progress).unwrap();
    let indices: Vec<usize> = jobs.iter().map(|job| job.index).collect();
    assert_eq!(indices, vec![1, 3, 2, 5]);
    assert_eq!(jobs[0].resume, Some((vec![], vec![1, 1])));
    assert_eq!(jobs[2].resume, None);
    assert_eq!(jobs[2].work_item.key, vec![1, 0]);
}

#[test]
fn progress_lists_are_sorted_and_keep_the_last_entry() {
    let mut progress = ParallelProgress::from_lists(
        &vec![5, 2, 5],
        &vec![entry(7, vec![], vec![1]), entry(7, vec![], vec![0])],
    );
    assert_eq!(progress.completed, vec![2, 5]);
    assert_eq!(progress.in_progress.len(), 1);
    assert_eq!(progress.in_progress[0].key, vec![0]);
    progress.store(entry(3, vec![], vec![1]));
    progress.store(entry(9, vec![], vec![]));
    let indices: Vec<usize> = progress
        .in_progress
        .iter()
        .map(|item| item.work_index)
        .collect();
    assert_eq!(indices, vec![3, 7, 9]);
    progress.remove(7);
    progress.remove(8);
    assert!(!progress.is_in_progress(7));
    assert!(progress.is_in_progress(3));
    progress.complete(7);
    progress.complete(7);
    assert_eq!(progress.completed, vec![2, 5, 7]);
    assert!(progress.is_completed(7));
    assert!(!progress.is_completed(3));
}

#[test]
fn best_leaves_are_listed_once() {
    let mut results = SharedResults::default();
    results.record_best(None, 2, &vec![1, 0]);
    results.record_best(None, 2, &vec![1, 0]);
    results.record_best(None, 1, &vec![0, 0]);
    results.record_best(None, 2, &vec![0, 1]);
    assert_eq!(results.max_count, 2);
    assert_eq!(results.results, 2);
    assert_eq!(results.shifts, vec![vec![1, 0], vec![0, 1]]);
    results.record_best(Some(3), 3, &vec![0, 2]);
    assert_eq!(results.max_count, 3);
    assert_eq!(results.results, 1);
    assert_eq!(results.target_shifts, vec![vec![0, 2]]);
    results.record_best(Some(3), 3, &vec![0, 2]);
    assert_eq!(results.target_results, 1);
    assert_eq!(results.results, 1);
}

#[test]
fn findings_are_merged() {
    let mut results = SharedResults::default();
    results.record_best(Some(1), 1, &vec![0]);
    results.record_best(Some(1), 2, &vec![1]);
    let mut other = SharedResults::default();
    other.record_best(Some(1), 1, &vec![3]);
    other.record_best(Some(1), 2, &vec![2]);
    other.record_best(Some(1), 2, &vec![1]);
    results.absorb(Some(1), &other);
    assert_eq!(results.max_count, 2);
    assert_eq!(results.shifts, vec![vec![1], vec![2]]);
    assert_eq!(results.target_shifts, vec![vec![0], vec![3]]);
    let copy = results.clone();
    assert_eq!(copy.results, 2);
    assert_eq!(copy.target_results, 2);
}

#[test]
fn shared_state_starts_from_the_checkpoint() {
    let empty = ParallelShared::at_start(&None);
    assert_eq!(empty.results.max_count, 0);
    assert_eq!(empty.node_count, 0);
    assert!(empty.progress.completed.is_empty());
    assert!(empty.progress.in_progress.is_empty());

    let mut checkpoint = parallel_checkpoint(&[2, 3], 4, 2);
    checkpoint.max_count = 2;
    checkpoint.results = 1;
    checkpoint.shifts = vec![vec![1, 1]];
    checkpoint.node_count = 9;
    checkpoint.completed = vec![1];
    checkpoint.in_progress = vec![entry(0, vec![], vec![1])];
    let shared = ParallelShared::at_start(&Some(checkpoint));
    assert_eq!(shared.results.max_count, 2);
    assert_eq!(shared.results.shifts, vec![vec![1, 1]]);
    assert_eq!(shared.node_count, 9);
    assert_eq!(shared.last_checkpoint_nodes, 9);
    assert!(shared.progress.is_completed(1));
    assert!(shared.progress.is_in_progress(0));
}

#[test]
fn shared_state_follows_a_job() {
    let mut state = new_state(&[2, 3], 4);
    state.checkpoint_interval = 2;
    state.parallel_tasks_per_thread = 0;
    let (ctx, mut jobs) = state.plan_parallel(2, None).unwrap();
    let mut active = state.start_parallel_job(jobs.remove(0), &ctx);
    assert_eq!(active.walk.key, vec![1]);
    assert_eq!(
        active.walk.stack,
        vec![Frame {
            level: 1,
            next_idx: 3
        }]
    );
    assert!(!state.run_parallel_job(&mut active, &ctx));
    active.local_nodes = 2;

    let mut shared = ParallelShared::at_start(&None);
    shared.node_count = u64::MAX;
    shared.note_position(None, &active);
    // The nodes were [1, 2] and [1, 1].
    assert_eq!(shared.results.max_count, 2);
    assert_eq!(shared.results.shifts, vec![vec![1, 1]]);
    assert_eq!(shared.node_count, 1);
    assert!(shared.progress.completed.is_empty());
    assert_eq!(shared.progress.in_progress.len(), 1);
    assert_eq!(shared.progress.in_progress[0].key, vec![1]);
    assert_eq!(
        shared.progress.in_progress[0].stack,
        vec![Frame {
            level: 1,
            next_idx: 1
        }]
    );
    shared.note_completed(None, &active);
    assert_eq!(shared.results.results, 1);
    assert_eq!(shared.node_count, 3);
    assert_eq!(shared.progress.completed, vec![0]);
    assert!(shared.progress.in_progress.is_empty());
    shared.note_position(None, &active);
    assert!(shared.progress.in_progress.is_empty());
}

#[test]
fn every_split_finds_the_same() {
    let primes = [2, 3, 5, 7];
    let mut sequential = new_state(&primes, 30);
    sequential.search_with_checkpoint(4, None).unwrap();
    let state = new_state(&primes, 30);
    for split_depth in 0..=4 {
        let mut checkpoint = parallel_checkpoint(&primes, 30, 4);
        checkpoint.split_depth = split_depth;
        let result = state.search_parallel(4, Some(checkpoint)).unwrap();
        assert_eq!(result.max_count, 8);
        assert_eq!(sorted(&result.shifts), sorted(&sequential.shifts));
    }
}

#[test]
fn checkpoints_hold_the_shared_state_they_are_made_of() {
    let mut state = new_state(&[2, 3], 4);
    state.checkpoint_interval = 5;
    let (ctx, _) = state.plan_parallel(2, None).unwrap();
    let mut shared = ParallelShared::at_start(&None);
    shared.results.record_best(None, 2, &vec![1, 1]);
    shared.progress.complete(3);
    shared.progress.complete(1);
    shared.progress.store(entry(2, vec![], vec![1]));
    shared.progress.store(entry(0, vec![], vec![0]));
    shared.node_count = 9;
    shared.last_checkpoint_nodes = 5;
    assert!(state.checkpoint_of(&ctx, &shared, true).is_none());
    shared.note_written(4);
    assert_eq!(shared.last_checkpoint_nodes, 4);
    assert_eq!(shared.node_count, 9);
    for require_interval in [false, true] {
        let checkpoint = state
            .checkpoint_of(&ctx, &shared, require_interval)
            .unwrap();
        assert_eq!(checkpoint.mode, SearchMode::Parallel);
        assert_eq!(checkpoint.depth, 2);
        assert_eq!(checkpoint.primes, vec![2, 3]);
        assert_eq!(checkpoint.cols, 4);
        assert!(checkpoint.stack.is_empty());
        assert!(checkpoint.key.is_empty());
        assert_eq!(checkpoint.node_count, 9);
        assert_eq!(checkpoint.split_depth, ctx.split_depth);
        assert_eq!(checkpoint.max_count, 2);
        assert_eq!(checkpoint.results, 1);
        assert_eq!(checkpoint.shifts, vec![vec![1, 1]]);
        assert_eq!(checkpoint.completed, vec![1, 3]);
        let indices: Vec<usize> = checkpoint
            .in_progress
            .iter()
            .map(|item| item.work_index)
            .collect();
        assert_eq!(indices, vec![0, 2]);
    }
    // A node number that has fallen behind counts as no progress.
    shared.node_count = 3;
    assert!(state.checkpoint_of(&ctx, &shared, true).is_none());
}

#[test]
fn resumed_lists_keep_their_order() {
    let state = new_state(&[2, 3], 4);
    let mut checkpoint = parallel_checkpoint(&[2, 3], 4, 2);
    checkpoint.max_count = 2;
    checkpoint.results = 1;
    checkpoint.shifts = vec![vec![0, 2]];
    checkpoint.completed = vec![1];
    let result = state.search_parallel(2, Some(checkpoint)).unwrap();
    assert_eq!(result.shifts, vec![vec![0, 2], vec![1, 1]]);
}

#[test]
fn jobs_pause_whenever_their_nodes_reach_the_interval() {
    let mut state = new_state(&[2, 3, 5], 8);
    state.checkpoint_interval = 5;
    state.parallel_tasks_per_thread = 0;
    let (ctx, mut jobs) = state.plan_parallel(3, None).unwrap();
    let mut active = state.start_parallel_job(jobs.remove(0), &ctx);
    let mut pauses = 0;
    while !state.run_parallel_job(&mut active, &ctx) {
        pauses += 1;
        assert_eq!(active.local_nodes, 0);
        let checkpoint = state.make_parallel_checkpoint(&ctx, false).unwrap();
        assert_eq!(checkpoint.node_count, 5 * pauses);
    }
    // There are 13 nodes below [1] that are visited.
    assert_eq!(pauses, 2);
    let checkpoint = state.make_parallel_checkpoint(&ctx, false).unwrap();
    assert_eq!(checkpoint.node_count, 13);
}

#[test]
fn refusals_come_before_misplaced_jobs() {
    let state = new_state(&[2, 3], 4);
    let misplaced = vec![Frame {
        level: 1,
        next_idx: 4,
    }];
    let mut range = parallel_checkpoint(&[2, 3], 4, 2);
    range.in_progress = vec![
        entry(0, misplaced.clone(), vec![1]),
        entry(2, vec![], vec![1]),
    ];
    let range = Some(range);
    assert!(state.accepts_parallel(2, &range));
    assert_eq!(
        state.search_parallel(2, range).unwrap_err(),
        SearchError::WorkIndexOutOfRange
    );
    let mut overlap = parallel_checkpoint(&[2, 3], 4, 2);
    overlap.in_progress = vec![entry(0, misplaced, vec![1])];
    overlap.completed = vec![0];
    let overlap = Some(overlap);
    assert!(state.accepts_parallel(2, &overlap));
    assert_eq!(
        state.search_parallel(2, overlap).unwrap_err(),
        SearchError::WorkIndexOverlap
    );
}

#[test]
fn plans_list_every_job_that_is_not_completed_once() {
    let state = new_state(&[2, 3], 4);
    let mut checkpoint = parallel_checkpoint(&[2, 3], 4, 2);
    checkpoint.split_depth = 2;
    checkpoint.completed = vec![5, 1, 9];
    // The job has nothing left to do, but is not completed.
    checkpoint.in_progress = vec![entry(3, vec![], vec![0, 2])];
    let (ctx, jobs) = state.plan_parallel(2, Some(checkpoint)).unwrap();
    assert_eq!(ctx.split_depth, 2);
    let mut indices: Vec<usize> = jobs.iter().map(|job| job.index).collect();
    assert_eq!(indices[0], 3);
    assert_eq!(jobs[0].resume, Some((vec![], vec![0, 2])));
    indices.sort();
    assert_eq!(indices, vec![0, 2, 3, 4]);
}

#[test]
fn order_of_recording_does_not_matter() {
    let calls = [
        (1, vec![0, 0]),
        (3, vec![0, 1]),
        (2, vec![1, 0]),
        (3, vec![1, 1]),
    ];
    for first in 0..4 {
        for step in [1, 3] {
            let mut results = SharedResults::default();
            for i in 0..4 {
                let (count, key) = &calls[(first + i * step) % 4];
                results.record_best(Some(2), *count, key);
            }
            assert_eq!(results.max_count, 3);
            assert_eq!(results.results, 2);
            assert_eq!(sorted(&results.shifts), vec![vec![0, 1], vec![1, 1]]);
            assert_eq!(results.target_shifts, vec![vec![1, 0]]);
        }
    }
}
