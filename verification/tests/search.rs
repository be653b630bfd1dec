use hlsearch::{
    build_shift_table, BitMask, Checkpoint, Frame, ParallelInProgress, SearchError, SearchMode,
    State,
};

fn new_state(primes: &[usize], cols: usize) -> State {
    State::new(primes.to_vec(), cols, build_shift_table(primes, cols))
}

fn sequential_checkpoint(primes: &[usize], cols: usize, depth: usize) -> Checkpoint {
    Checkpoint {
        mode: SearchMode::Sequential,
        depth,
        primes: primes.to_vec(),
        cols,
        stack: vec![Frame {
            level: 0,
            next_idx: primes[0],
        }],
        key: Vec::new(),
        max_count: 0,
        results: 0,
        shifts: Vec::new(),
        target_results: 0,
        target_shifts: Vec::new(),
        node_count: 0,
        split_depth: 0,
        completed: Vec::new(),
        in_progress: Vec::new(),
    }
}

#[test]
fn build_shift_table_creates_expected_complement_masks() {
    let table = build_shift_table(&[2], 6);
    assert_eq!(table.len(), 1);
    assert_eq!(table[0].len(), 2);
    assert_eq!(table[0][0].count_ones(), 3);
    assert_eq!(table[0][1].count_ones(), 3);
}

#[test]
fn shifted_rows_cover_every_pth_column_from_the_shift_on() {
    let table = build_shift_table(&[3, 5], 70);
    assert_eq!(table[0].len(), 3);
    assert_eq!(table[1].len(), 5);
    // 3 covers 0, 3, .., 69 and, moved by two, 2, 5, .., 68.
    assert_eq!(table[0][0].count_ones(), 70 - 24);
    assert_eq!(table[0][2].count_ones(), 70 - 23);
    // 5 covers 0, 5, .., 65.
    assert_eq!(table[1][0].count_ones(), 70 - 14);
    assert_eq!(table[1][4].count_ones(), 70 - 14);
    assert!(table.iter().flatten().all(|mask| mask.size() == 70));
}

#[test]
fn table_of_no_primes_or_no_columns() {
    assert!(build_shift_table(&[], 4).is_empty());
    let table = build_shift_table(&[2], 0);
    assert_eq!(table[0].len(), 2);
    assert_eq!(table[0][0].size(), 0);
    assert_eq!(table[0][0].count_ones(), 0);
    // Every number has the remainder 0 when divided by 1.
    assert_eq!(build_shift_table(&[1], 6)[0][0].count_ones(), 6);
}

#[test]
fn checkpoint_interval_defaults_to_100k() {
    let table = build_shift_table(&[2], 4);
    let state = State::new(vec![2], 4, table);
    assert_eq!(state.checkpoint_interval, 100_000);
}

#[test]
fn checkpoint_interval_can_be_set() {
    let table = build_shift_table(&[2], 4);
    let mut state = State::new(vec![2], 4, table);
    state.checkpoint_interval = 5_000;
    assert_eq!(state.checkpoint_interval, 5_000);
}

#[test]
fn new_states_have_found_nothing() {
    let state = new_state(&[2, 3], 7);
    assert_eq!(state.primes, vec![2, 3]);
    assert_eq!(state.zero_mask.size(), 7);
    assert_eq!(state.zero_mask.count_ones(), 7);
    assert!(state.key.is_empty());
    assert_eq!(state.max_count, 0);
    assert_eq!(state.results, 0);
    assert!(state.shifts.is_empty());
    assert_eq!(state.target, None);
    assert_eq!(state.node_count, 0);
    assert_eq!(state.parallel_tasks_per_thread, 4);
}

#[test]
fn restore_stack_recovers_search_position() {
    let primes = vec![2, 3];
    let cols = 4;
    let table = build_shift_table(&primes, cols);
    let mut state = State::new(primes.clone(), cols, table);

    state.key = vec![1, 0];
    state.node_count = 10;
    state.max_count = 2;
    state.results = 0;

    let saved_stack = vec![Frame {
        level: 1,
        next_idx: 2,
    }];

    let rebuilt_stack = state.restore_stack(&saved_stack).unwrap();

    assert_eq!(rebuilt_stack.len(), 1);
    assert_eq!(rebuilt_stack[0].level, 1);
    assert_eq!(rebuilt_stack[0].next_idx, 2);
    assert_eq!(rebuilt_stack[0].level, 1);
}

#[test]
fn frames_below_the_last_level_are_refused() {
    let state = new_state(&[2, 3], 4);
    let saved_stack = vec![
        Frame {
            level: 0,
            next_idx: 1,
        },
        Frame {
            level: 2,
            next_idx: 1,
        },
    ];
    assert_eq!(
        state.restore_stack(&saved_stack),
        Err(SearchError::InvalidFrameLevel)
    );
}

#[test]
fn multiple_keys_rebuild_to_correct_masks() {
    let primes = vec![2, 3, 5];
    let cols = 8;
    let table = build_shift_table(&primes, cols);
    let mut state = State::new(primes.clone(), cols, table);

    state.key = vec![1, 2, 1];

    let saved_stack = vec![Frame {
        level: 2,
        next_idx: 3,
    }];

    let rebuilt = state.restore_stack(&saved_stack).unwrap();
    assert_eq!(rebuilt.len(), 1);
    assert_eq!(rebuilt[0].level, 2);

    let masks = state.rebuild_masks(3, &state.key);
    assert_eq!(masks[3].count_ones(), 2);
}

#[test]
fn masks_below_the_key_are_full() {
    let state = new_state(&[2, 3, 5], 8);
    let masks = state.rebuild_masks(3, &vec![1]);
    let counts: Vec<usize> = masks.iter().map(|mask| mask.count_ones()).collect();
    assert_eq!(counts, vec![8, 4, 8, 8]);
}

#[test]
fn leaves_are_recorded_by_their_count() {
    let mut state = new_state(&[2, 3], 4);
    state.target = Some(1);
    state.aggregate_leaf_result(2, &vec![1, 1]);
    state.aggregate_leaf_result(1, &vec![1, 0]);
    state.aggregate_leaf_result(2, &vec![0, 2]);
    assert_eq!(state.max_count, 2);
    assert_eq!(state.results, 2);
    assert_eq!(state.shifts, vec![vec![1, 1], vec![0, 2]]);
    assert_eq!(state.target_results, 1);
    assert_eq!(state.target_shifts, vec![vec![1, 0]]);
    state.aggregate_leaf_result(3, &vec![0, 0]);
    assert_eq!(state.max_count, 3);
    assert_eq!(state.results, 1);
    assert_eq!(state.shifts, vec![vec![0, 0]]);
    assert_eq!(state.target_results, 1);
}

#[test]
fn sequential_search_lists_best_leaves_in_descending_order() {
    let mut state = new_state(&[2, 3, 5], 8);
    assert_eq!(state.search_with_checkpoint(3, None), Ok(()));
    assert_eq!(state.max_count, 3);
    assert_eq!(state.results, 8);
    assert_eq!(
        state.shifts,
        vec![
            vec![1, 2, 3],
            vec![1, 2, 2],
            vec![1, 1, 4],
            vec![1, 1, 3],
            vec![0, 2, 4],
            vec![0, 2, 0],
            vec![0, 0, 4],
            vec![0, 0, 3]
        ]
    );
    assert!(state.target_shifts.is_empty());
    assert_eq!(state.node_count, 28);
    assert!(state.key.is_empty());
}

#[test]
fn shallow_search_uses_the_first_primes() {
    let mut state = new_state(&[2, 3, 5], 8);
    assert_eq!(state.search_with_checkpoint(2, None), Ok(()));
    assert_eq!(state.max_count, 3);
    assert_eq!(
        state.shifts,
        vec![vec![1, 2], vec![1, 1], vec![0, 2], vec![0, 0]]
    );
    assert_eq!(state.node_count, 8);
}

#[test]
fn target_leaves_are_recorded_besides_the_best() {
    let mut state = new_state(&[2, 3, 5], 8);
    state.target = Some(1);
    assert_eq!(state.search_with_checkpoint(3, None), Ok(()));
    assert_eq!(state.max_count, 3);
    assert_eq!(state.results, 8);
    assert_eq!(state.target_results, 4);
    assert_eq!(
        state.target_shifts,
        vec![
            vec![1, 0, 4],
            vec![1, 0, 2],
            vec![0, 1, 3],
            vec![0, 1, 0]
        ]
    );
    // Nodes that reach the target are visited though they cannot be best.
    assert_eq!(state.node_count, 38);
}

#[test]
fn pausing_happens_at_multiples_of_the_interval() {
    let mut state = new_state(&[2, 3, 5], 8);
    state.checkpoint_interval = 3;
    let mut walk = state.begin_search(3, None).unwrap();
    assert!(!state.advance(3, &mut walk));
    assert_eq!(state.node_count, 3);
    assert_eq!(state.max_count, 2);
    assert_eq!(state.shifts, vec![vec![1, 2, 4]]);
    let checkpoint = state.make_checkpoint(3, &walk.stack);
    assert_eq!(checkpoint.mode, SearchMode::Sequential);
    assert_eq!(checkpoint.depth, 3);
    assert_eq!(checkpoint.primes, vec![2, 3, 5]);
    assert_eq!(checkpoint.cols, 8);
    assert_eq!(checkpoint.key, vec![1, 2]);
    assert_eq!(
        checkpoint.stack,
        vec![
            Frame {
                level: 0,
                next_idx: 1
            },
            Frame {
                level: 1,
                next_idx: 2
            },
            Frame {
                level: 2,
                next_idx: 4
            }
        ]
    );
    assert_eq!(checkpoint.max_count, 2);
    assert_eq!(checkpoint.results, 1);
    assert_eq!(checkpoint.shifts, vec![vec![1, 2, 4]]);
    assert_eq!(checkpoint.node_count, 3);
    let mut pauses = 1;
    while !state.advance(3, &mut walk) {
        pauses += 1;
        assert_eq!(state.node_count, 3 * pauses);
    }
    assert_eq!(pauses, 9);
    assert_eq!(state.node_count, 28);
}

#[test]
fn every_checkpoint_leads_to_the_same_end() {
    let mut whole = new_state(&[2, 3, 5], 8);
    whole.target = Some(1);
    whole.search_with_checkpoint(3, None).unwrap();

    let mut state = new_state(&[2, 3, 5], 8);
    state.target = Some(1);
    state.checkpoint_interval = 1;
    let mut walk = state.begin_search(3, None).unwrap();
    while !state.advance(3, &mut walk) {
        let checkpoint = Some(state.make_checkpoint(3, &walk.stack));
        let mut resumed = new_state(&[2, 3, 5], 8);
        resumed.target = Some(1);
        assert!(resumed.accepts(3, &checkpoint));
        resumed.search_with_checkpoint(3, checkpoint).unwrap();
        assert_eq!(resumed.max_count, whole.max_count);
        assert_eq!(resumed.results, whole.results);
        assert_eq!(resumed.shifts, whole.shifts);
        assert_eq!(resumed.target_results, whole.target_results);
        assert_eq!(resumed.target_shifts, whole.target_shifts);
        assert_eq!(resumed.node_count, whole.node_count);
        assert_eq!(resumed.key, whole.key);
    }
    assert_eq!(state.shifts, whole.shifts);
}

#[test]
fn finished_searches_resume_to_the_same_results() {
    let mut state = new_state(&[2], 4);
    let mut walk = state.begin_search(1, None).unwrap();
    assert!(state.advance(1, &mut walk));
    let checkpoint = state.make_checkpoint(1, &walk.stack);
    assert!(checkpoint.stack.is_empty());
    let mut resumed = new_state(&[2], 4);
    resumed.search_with_checkpoint(1, Some(checkpoint)).unwrap();
    assert_eq!(resumed.shifts, vec![vec![1], vec![0]]);
    assert_eq!(resumed.node_count, 2);
}

#[test]
fn node_numbers_wrap_around() {
    let mut checkpoint = sequential_checkpoint(&[2], 4, 1);
    checkpoint.node_count = u64::MAX;
    let mut state = new_state(&[2], 4);
    state.search_with_checkpoint(1, Some(checkpoint)).unwrap();
    assert_eq!(state.node_count, 1);
    assert_eq!(state.results, 2);
}

#[test]
fn sequential_search_rejects_parallel_checkpoint() {
    let primes = vec![2, 3];
    let cols = 4;
    let depth = 2;
    let table = build_shift_table(&primes, cols);
    let checkpoint = Checkpoint {
        mode: SearchMode::Parallel,
        depth,
        primes: primes.clone(),
        cols,
        stack: Vec::new(),
        key: Vec::new(),
        max_count: 0,
        results: 0,
        shifts: Vec::new(),
        target_results: 0,
        target_shifts: Vec::new(),
        node_count: 0,
        split_depth: 1,
        completed: Vec::new(),
        in_progress: Vec::new(),
    };

    let mut resumed = State::new(primes, cols, table);
    let err = resumed
        .search_with_checkpoint(depth, Some(checkpoint))
        .unwrap_err()
        .message();
    assert!(err.contains("parallel"));
}

#[test]
fn sequential_search_rejects_other_settings() {
    for (depth, cols, primes) in [
        (1, 4, vec![2, 3]),
        (2, 5, vec![2, 3]),
        (2, 4, vec![2, 5]),
        (2, 4, vec![2, 3, 5]),
    ] {
        let checkpoint = sequential_checkpoint(&primes, cols, depth);
        let mut state = new_state(&[2, 3], 4);
        assert_eq!(
            state.search_with_checkpoint(2, Some(checkpoint)),
            Err(SearchError::ConfigMismatch { depth, cols })
        );
        assert_eq!(state.node_count, 0);
    }
}

#[test]
fn sequential_search_rejects_frames_below_the_last_level() {
    let mut checkpoint = sequential_checkpoint(&[2, 3], 4, 2);
    checkpoint.stack[0].level = 2;
    checkpoint.node_count = 7;
    let mut state = new_state(&[2, 3], 4);
    assert_eq!(
        state.search_with_checkpoint(2, Some(checkpoint)),
        Err(SearchError::InvalidFrameLevel)
    );
    assert_eq!(state.node_count, 7);
}

#[test]
fn messages_name_the_fault() {
    assert_eq!(
        SearchError::ConfigMismatch {
            depth: 12,
            cols: 3159
        }
        .message(),
        "チェックポイントの探索設定が現在の設定と一致しません (depth=12, cols=3159)"
    );
    assert_eq!(
        SearchError::InvalidFrameLevel.message(),
        "Invalid stack frame level"
    );
    assert_eq!(
        SearchError::ParallelCheckpoint.message(),
        "並列モードのチェックポイントは --mode parallel でのみ再開できます"
    );
    assert_eq!(
        SearchError::SequentialCheckpoint.message(),
        "逐次モードのチェックポイントは --mode sequential でのみ再開できます"
    );
    assert_eq!(
        SearchError::SplitBelowDepth.message(),
        "チェックポイントの split_depth が depth を超えています"
    );
    assert_eq!(
        SearchError::WorkIndexOutOfRange.message(),
        "チェックポイントの work_index が範囲外です"
    );
    assert_eq!(
        SearchError::WorkIndexOverlap.message(),
        "チェックポイントで完了済みと実行中の work_index が重複しています"
    );
}

#[test]
fn positions_are_told_from_other_stacks_and_keys() {
    let state = new_state(&[2, 3, 5], 8);
    let frame = |level: usize, next_idx: usize| Frame { level, next_idx };
    assert!(state.is_position(3, &vec![], &vec![]));
    assert!(state.is_position(3, &vec![], &vec![1, 2, 4]));
    assert!(state.is_position(3, &vec![frame(0, 2)], &vec![]));
    assert!(state.is_position(3, &vec![frame(1, 3)], &vec![1]));
    assert!(state.is_position(3, &vec![frame(0, 0), frame(1, 1)], &vec![1]));
    // A shift that the level lacks.
    assert!(!state.is_position(3, &vec![], &vec![2]));
    // A key that is too long, or too long for a frame below it.
    assert!(!state.is_position(3, &vec![], &vec![1, 2, 4, 0]));
    assert!(!state.is_position(3, &vec![frame(2, 1)], &vec![1, 2, 4]));
    // A frame on another level than the key leads to, or two on one.
    assert!(!state.is_position(3, &vec![frame(1, 1)], &vec![]));
    assert!(!state.is_position(3, &vec![frame(1, 1), frame(1, 1)], &vec![1]));
    assert!(!state.is_position(3, &vec![frame(0, 1), frame(0, 1)], &vec![]));
    // More children than the level has.
    assert!(!state.is_position(3, &vec![frame(0, 3)], &vec![]));
}

#[test]
fn inconsistent_checkpoints_are_not_accepted() {
    let state = new_state(&[2, 3], 4);
    assert!(state.accepts(2, &None));
    assert!(!state.accepts(0, &None));
    assert!(state.accepts(2, &Some(sequential_checkpoint(&[2, 3], 4, 2))));
    let mut counter = sequential_checkpoint(&[2, 3], 4, 2);
    counter.results = 1;
    assert!(!state.accepts(2, &Some(counter)));
    let mut position = sequential_checkpoint(&[2, 3], 4, 2);
    position.key = vec![1];
    assert!(!state.accepts(2, &Some(position)));
    // These are refused with an error of their own.
    assert!(state.accepts(2, &Some(sequential_checkpoint(&[2, 3], 5, 2))));
    let mut level = sequential_checkpoint(&[2, 3], 4, 2);
    level.stack[0].level = 2;
    assert!(state.accepts(2, &Some(level)));
}

#[test]
fn entries_of_jobs_keep_their_positions_when_cloned() {
    let item = ParallelInProgress {
        work_index: 3,
        stack: vec![Frame {
            level: 1,
            next_idx: 2,
        }],
        key: vec![1],
    };
    let copy = item.clone();
    assert_eq!(copy.work_index, 3);
    assert_eq!(copy.stack, item.stack);
    assert_eq!(copy.key, item.key);
    assert_eq!(SearchMode::default(), SearchMode::Parallel);
}

/// How many of `cols` columns no shifted row covers.
fn open_columns(primes: &[usize], path: &[usize], cols: usize) -> usize {
    (0..cols)
        .filter(|col| {
            primes
                .iter()
                .zip(path)
                .all(|(p, shift)| col < shift || (col - shift) % p != 0)
        })
        .count()
}

#[test]
fn pruned_search_finds_what_an_exhaustive_one_finds() {
    let primes = [2, 3, 5, 7];
    let cols = 30;
    let mut leaves: Vec<Vec<usize>> = vec![vec![]];
    for &p in &primes {
        leaves = leaves
            .iter()
            .flat_map(|path| {
                (0..p).rev().map(move |shift| {
                    let mut longer = path.clone();
                    longer.push(shift);
                    longer
                })
            })
            .collect();
    }
    assert_eq!(leaves.len(), 210);
    let best = leaves
        .iter()
        .map(|leaf| open_columns(&primes, leaf, cols))
        .max()
        .unwrap();
    let counting_to = |count: usize| -> Vec<Vec<usize>> {
        leaves
            .iter()
            .filter(|leaf| open_columns(&primes, leaf, cols) == count)
            .cloned()
            .collect()
    };

    let mut state = new_state(&primes, cols);
    state.target = Some(6);
    state.search_with_checkpoint(4, None).unwrap();
    assert_eq!(best, 8);
    assert_eq!(state.max_count, best);
    assert_eq!(state.shifts, counting_to(best));
    assert_eq!(state.target_shifts, counting_to(6));
    for leaf in &leaves {
        let masks = state.rebuild_masks(4, leaf);
        assert_eq!(masks[4].count_ones(), open_columns(&primes, leaf, cols));
    }
}

#[test]
fn shifted_rows_cover_residue_classes() {
    for (p, shifts) in [2usize, 3, 5]
        .into_iter()
        .zip(build_shift_table(&[2, 3, 5], 70))
    {
        for (shift, mask) in shifts.into_iter().enumerate() {
            let mut alone = BitMask::new_ones(70);
            for col in 0..70 {
                alone.set(col, col % p != shift);
            }
            let mut both = BitMask::new_ones(70);
            assert_eq!(both.bitand_into_count(&mask, &alone), mask.count_ones());
            assert_eq!(mask.count_ones(), alone.count_ones());
        }
    }
}
