use pumpkin_core::assignments::{Assignments, EnqueueDecision, Inconsistency};
use pumpkin_core::dimacs::{
    parse_cnf, parse_wcnf, CNFHeader, DimacsFormat, DimacsParseError, DimacsParser, Literal,
    SolverArgs, SolverDimacsSink, WCNFHeader,
};
use pumpkin_core::options::DisjunctivePropagatorOptions;
use pumpkin_core::propagator::DetectablePrecedencesPropagator;
use pumpkin_core::task::{ArgTaskDisj, TaskDisj};
use pumpkin_core::timeline::{RevTimeline, Timeline};
use pumpkin_core::union_find::UnionFind;

// A timeline with nothing scheduled reports completion time zero.
#[test]
fn empty_timeline_reports_zero() {
    let mut solver = Assignments::new();
    let x = solver.new_variable(5, 8);
    let tasks = vec![TaskDisj {
        starting_time: x,
        duration: 2,
        local_id: 0,
    }];
    let timeline = Timeline::new(&tasks, &solver);
    assert_eq!(timeline.earliest_completion_time(), 0);
}

// After scheduling a single task, the completion time is EST + duration.
#[test]
fn single_task_completion_time() {
    let mut solver = Assignments::new();
    let x = solver.new_variable(5, 8);
    let tasks = vec![TaskDisj {
        starting_time: x,
        duration: 2,
        local_id: 0,
    }];
    let mut timeline = Timeline::new(&tasks, &solver);
    timeline.schedule_task(&tasks[0]);
    assert_eq!(timeline.earliest_completion_time(), 7);
}

// A single task with slack keeps its bounds: no push, no conflict.
#[test]
fn single_task_pass_through() {
    let mut solver = Assignments::new();
    let x = solver.new_variable(5, 8);
    let propagator = DetectablePrecedencesPropagator::new(vec![ArgTaskDisj {
        starting_time: x,
        duration: 2,
    }]);
    let result = propagator.propagate(&mut solver);
    assert!(result.is_ok());
    assert_eq!(solver.lower_bound(x), 5);
    assert_eq!(solver.upper_bound(x), 8);
}

// Pouring 3 units into capacities [2, 4, 6] consumes the first slice,
// merges it into the second, takes one unit there, and moves the
// envelope to slice 1: completion is the right edge 9 minus 3 left.
#[test]
fn slice_merge_advances_envelope() {
    let mut solver = Assignments::new();
    let a = solver.new_variable(3, 3);
    let b = solver.new_variable(5, 5);
    let c = solver.new_variable(9, 9);
    let tasks = vec![
        TaskDisj {
            starting_time: a,
            duration: 3,
            local_id: 0,
        },
        TaskDisj {
            starting_time: b,
            duration: 1,
            local_id: 1,
        },
        TaskDisj {
            starting_time: c,
            duration: 1,
            local_id: 2,
        },
    ];
    let mut timeline = Timeline::new(&tasks, &solver);
    assert_eq!(timeline.t, vec![3, 5, 9, 15]);
    assert_eq!(timeline.c, vec![2, 4, 6]);
    timeline.schedule_task(&tasks[0]);
    assert_eq!(timeline.c, vec![0, 3, 6]);
    assert_eq!(timeline.e, 1);
    assert_eq!(timeline.earliest_completion_time(), 6);
}

// The union-find contract: find is idempotent, and after union(i, i+1)
// both elements answer with one representative.
#[test]
fn union_find_merges_consecutive() {
    let mut uf = UnionFind::new(4);
    assert_eq!(uf.size(), 4);
    assert_eq!(uf.find(2), 2);
    assert!(uf.union(0, 1));
    assert_eq!(uf.find(0), uf.find(1));
    assert!(!uf.union(0, 1));
    assert!(uf.union(1, 2));
    assert_eq!(uf.find(0), uf.find(2));
    let r = uf.find(0);
    assert_eq!(uf.find(r), r);
    assert_eq!(uf.find(3), 3);
}

// Negating the time axis (start <- -start - duration) and swapping
// Timeline and RevTimeline yields mirrored results: the latest start of
// the original is minus the earliest completion of the negated instance.
#[test]
fn rev_timeline_mirrors_negated_forward() {
    let mut solver = Assignments::new();
    let w = solver.new_variable(0, 15);
    let x = solver.new_variable(2, 13);
    let y = solver.new_variable(9, 23);
    let z = solver.new_variable(12, 14);
    let tasks = vec![
        TaskDisj {
            starting_time: w,
            duration: 4,
            local_id: 0,
        },
        TaskDisj {
            starting_time: x,
            duration: 9,
            local_id: 1,
        },
        TaskDisj {
            starting_time: y,
            duration: 7,
            local_id: 2,
        },
        TaskDisj {
            starting_time: z,
            duration: 6,
            local_id: 3,
        },
    ];
    let mut neg_solver = Assignments::new();
    for task in &tasks {
        let lb = solver.lower_bound(task.starting_time);
        let ub = solver.upper_bound(task.starting_time);
        let _ = neg_solver.new_variable(-ub - task.duration, -lb - task.duration);
    }
    let mut rev = RevTimeline::new(&tasks, &solver);
    let mut fwd = Timeline::new(&tasks, &neg_solver);
    for k in 0..rev.t.len() {
        assert_eq!(fwd.t[k], -rev.t[k]);
    }
    assert_eq!(fwd.c, rev.c);
    assert_eq!(fwd.m, rev.m);
    rev.schedule_task(&tasks[2]);
    fwd.schedule_task(&tasks[2]);
    assert_eq!(fwd.earliest_completion_time(), -rev.latest_starting_time());
    rev.schedule_task(&tasks[1]);
    fwd.schedule_task(&tasks[1]);
    assert_eq!(rev.latest_starting_time(), 13);
    assert_eq!(fwd.earliest_completion_time(), -13);
}

// Re-invoking the propagator on a feasible instance never conflicts and
// reaches quiescence: after finitely many calls the bounds stop moving.
#[test]
fn propagate_reaches_quiescence() {
    let mut solver = Assignments::new();
    let w = solver.new_variable(0, 15);
    let x = solver.new_variable(2, 13);
    let y = solver.new_variable(9, 23);
    let z = solver.new_variable(12, 14);
    let tasks = vec![
        ArgTaskDisj {
            starting_time: w,
            duration: 4,
        },
        ArgTaskDisj {
            starting_time: x,
            duration: 9,
        },
        ArgTaskDisj {
            starting_time: y,
            duration: 7,
        },
        ArgTaskDisj {
            starting_time: z,
            duration: 6,
        },
    ];
    let propagator = DetectablePrecedencesPropagator::new(tasks);
    let mut previous: Vec<(i32, i32)> = (0..4)
        .map(|v| (solver.lower_bound(v), solver.upper_bound(v)))
        .collect();
    let mut stable = false;
    for _ in 0..16 {
        propagator.propagate(&mut solver).expect("feasible");
        let current: Vec<(i32, i32)> = (0..4)
            .map(|v| (solver.lower_bound(v), solver.upper_bound(v)))
            .collect();
        if current == previous {
            stable = true;
            break;
        }
        previous = current;
    }
    assert!(stable);
    assert_eq!(previous[2].0, 19);
    assert_eq!(previous[3].0, 13);
}

// Two identical instances propagate to identical bounds.
#[test]
fn propagate_is_deterministic() {
    let mut run_bounds: Vec<Vec<(i32, i32)>> = Vec::new();
    for _ in 0..2 {
        let mut solver = Assignments::new();
        let w = solver.new_variable(0, 4);
        let x = solver.new_variable(3, 5);
        let y = solver.new_variable(7, 10);
        let z = solver.new_variable(4, 18);
        let tasks = vec![
            ArgTaskDisj {
                starting_time: w,
                duration: 2,
            },
            ArgTaskDisj {
                starting_time: x,
                duration: 5,
            },
            ArgTaskDisj {
                starting_time: y,
                duration: 5,
            },
            ArgTaskDisj {
                starting_time: z,
                duration: 2,
            },
        ];
        let propagator = DetectablePrecedencesPropagator::new(tasks);
        propagator.propagate(&mut solver).expect("feasible");
        run_bounds.push(
            (0..4)
                .map(|v| (solver.lower_bound(v), solver.upper_bound(v)))
                .collect(),
        );
    }
    assert_eq!(run_bounds[0], run_bounds[1]);
}

// The oracle reports the first task whose earliest completion passed its
// latest completion, with the one-predicate reason `start >= LST - 1`.
#[test]
fn oracle_reports_emptied_interval() {
    let solver = Assignments {
        bounds: vec![(5, 3)],
    };
    let propagator = DetectablePrecedencesPropagator::new(vec![ArgTaskDisj {
        starting_time: 0,
        duration: 2,
    }]);
    let result = propagator.debug_propagate_from_scratch(&solver);
    match result {
        Err(Inconsistency::Conflict(c)) => {
            assert_eq!(c.atoms.len(), 1);
            assert_eq!(c.atoms[0].var, 0);
            assert_eq!(c.atoms[0].value, 2);
        }
        Ok(()) => panic!("expected a conflict"),
    }
}

#[test]
fn oracle_accepts_consistent_bounds() {
    let mut solver = Assignments::new();
    let x = solver.new_variable(3, 8);
    let propagator = DetectablePrecedencesPropagator::new(vec![ArgTaskDisj {
        starting_time: x,
        duration: 2,
    }]);
    assert!(propagator.debug_propagate_from_scratch(&solver).is_ok());
}

// Two overlapping tight windows conflict.
#[test]
fn overlapping_tight_windows_conflict() {
    let mut solver = Assignments::new();
    let a = solver.new_variable(0, 1);
    let b = solver.new_variable(0, 1);
    let c = solver.new_variable(0, 20);
    let tasks = vec![
        ArgTaskDisj {
            starting_time: a,
            duration: 5,
        },
        ArgTaskDisj {
            starting_time: b,
            duration: 5,
        },
        ArgTaskDisj {
            starting_time: c,
            duration: 1,
        },
    ];
    let propagator = DetectablePrecedencesPropagator::new(tasks);
    let result = propagator.propagate(&mut solver);
    assert!(matches!(result, Err(Inconsistency::Conflict(_))));
}

#[test]
fn propagator_constants() {
    let propagator = DetectablePrecedencesPropagator::new(vec![ArgTaskDisj {
        starting_time: 0,
        duration: 1,
    }]);
    assert_eq!(propagator.priority(), 3);
    assert_eq!(propagator.name(), "DisDetectablePrecedences");
    assert!(matches!(propagator.notify(0), EnqueueDecision::Enqueue));
    propagator.notify_backtrack(0);
}

#[test]
fn missing_header_is_reported() {
    let err = parse_cnf("1 -2 0".as_bytes()).expect_err("no header");
    assert!(matches!(err, DimacsParseError::MissingHeader));
}

#[test]
fn empty_source_misses_header() {
    let err = parse_cnf("".as_bytes()).expect_err("no header");
    assert!(matches!(err, DimacsParseError::MissingHeader));
}

#[test]
fn invalid_header_is_reported() {
    let err = parse_cnf("p dnf 2 2\n1 -2 0\n-1 2 0".as_bytes()).expect_err("bad header");
    assert!(matches!(err, DimacsParseError::InvalidHeader(_)));
}

#[test]
fn header_with_extra_component_is_invalid() {
    let err = parse_cnf("p cnf 2 2 7\n1 -2 0\n-1 2 0".as_bytes()).expect_err("bad header");
    assert!(matches!(err, DimacsParseError::InvalidHeader(_)));
}

#[test]
fn duplicate_header_is_reported() {
    let err = parse_cnf("p cnf 2 2\np cnf 2 2\n1 -2 0\n-1 2 0".as_bytes()).expect_err("two headers");
    assert!(matches!(err, DimacsParseError::DuplicateHeader));
}

#[test]
fn oversized_literal_is_invalid() {
    let err = parse_cnf("p cnf 2 1\n99999999999 0".as_bytes()).expect_err("overflow");
    assert!(matches!(err, DimacsParseError::InvalidLiteral(_)));
}

#[test]
fn wcnf_negative_weight_is_invalid() {
    let err = parse_wcnf("p wcnf 2 1 3\n-3 1 0".as_bytes()).expect_err("bad weight");
    assert!(matches!(err, DimacsParseError::InvalidLiteral(_)));
}

#[test]
fn wcnf_top_weight_marks_hard_clauses() {
    let formula = parse_wcnf("p wcnf 2 2 5\n5 1 2 0\n3 -1 0".as_bytes()).expect("valid");
    assert_eq!(formula.num_variables, 2);
    assert_eq!(formula.hard, vec![vec![1, 2]]);
    assert_eq!(formula.soft, vec![(3, vec![-1])]);
}

#[test]
fn cnf_header_from_str_parses() {
    let h = CNFHeader::from_str(&b"p cnf 11 2".to_vec()).expect("valid header");
    assert_eq!(h.num_variables, 11);
    assert_eq!(h.num_clauses, 2);
    assert!(CNFHeader::from_str(&b"p cnf 11".to_vec()).is_err());
    assert!(CNFHeader::from_str(&b"q cnf 11 2".to_vec()).is_err());
}

#[test]
fn wcnf_header_from_str_parses() {
    let h = WCNFHeader::from_str(&b"p wcnf 2 4 3".to_vec()).expect("valid header");
    assert_eq!(h.num_variables, 2);
    assert_eq!(h.num_clauses, 4);
    assert_eq!(h.top_weight, 3);
    assert!(WCNFHeader::from_str(&b"p wcnf 2 4".to_vec()).is_err());
}

#[test]
fn sink_maps_codes_to_literals() {
    let sink = SolverDimacsSink {
        variables: vec![
            Literal {
                index: 0,
                positive: true,
            },
            Literal {
                index: 1,
                positive: true,
            },
        ],
    };
    let mapped = sink.mapped_clause(&vec![1, -2]);
    assert_eq!(mapped.len(), 2);
    assert_eq!(mapped[0].index, 0);
    assert!(mapped[0].positive);
    assert_eq!(mapped[1].index, 1);
    assert!(!mapped[1].positive);
}

#[test]
fn solver_args_carry_options() {
    let args = SolverArgs::new(DisjunctivePropagatorOptions::default());
    let _ = args.solver_options;
}

// Chunk boundaries may fall inside a clause, a literal or the header.
#[test]
fn chunks_may_split_anywhere() {
    let source = "p cnf 2 2\n1 -2 0\n-1 2 0";
    let bytes = source.as_bytes();
    for split in 0..bytes.len() {
        let mut parser = DimacsParser::new(DimacsFormat::Cnf);
        parser.parse_chunk(&bytes[..split]).expect("valid prefix");
        parser.parse_chunk(&bytes[split..]).expect("valid suffix");
        let formula = parser.complete().expect("valid dimacs");
        assert_eq!(formula.hard, vec![vec![1, -2], vec![-1, 2]]);
    }
}

// Header numbers follow `str::parse`, which allows a leading plus.
#[test]
fn header_numbers_may_carry_a_plus() {
    let formula = parse_cnf("p cnf +2 +1\n1 -2 0".as_bytes()).expect("valid dimacs");
    assert_eq!(formula.num_variables, 2);
    assert_eq!(formula.hard, vec![vec![1, -2]]);
}

// A blocking collision is explained by the two windows involved.
#[test]
fn conflict_reason_names_two_windows() {
    let mut solver = Assignments::new();
    let a = solver.new_variable(0, 1);
    let b = solver.new_variable(0, 1);
    let c = solver.new_variable(0, 20);
    let tasks = vec![
        ArgTaskDisj {
            starting_time: a,
            duration: 5,
        },
        ArgTaskDisj {
            starting_time: b,
            duration: 5,
        },
        ArgTaskDisj {
            starting_time: c,
            duration: 1,
        },
    ];
    let propagator = DetectablePrecedencesPropagator::new(tasks);
    match propagator.propagate(&mut solver) {
        Err(Inconsistency::Conflict(reason)) => {
            assert_eq!(reason.atoms.len(), 4);
            assert_eq!(reason.atoms[0].var, a);
            assert_eq!(reason.atoms[2].var, b);
        }
        Ok(()) => panic!("expected a conflict"),
    }
}

// A single task passes through untouched even on negative time values:
// the empty timeline records no push.
#[test]
fn single_task_negative_window_passes_through() {
    let mut solver = Assignments::new();
    let x = solver.new_variable(-10, -5);
    let propagator = DetectablePrecedencesPropagator::new(vec![ArgTaskDisj {
        starting_time: x,
        duration: 1,
    }]);
    assert!(propagator.propagate(&mut solver).is_ok());
    assert_eq!(solver.lower_bound(x), -10);
    assert_eq!(solver.upper_bound(x), -5);
}

// The negated four-task instance receives exactly the mirrored pushes:
// upper bounds move where the original's lower bounds moved.
#[test]
fn negated_instance_gets_mirrored_pushes() {
    let mut solver = Assignments::new();
    let w = solver.new_variable(-19, -4);
    let x = solver.new_variable(-22, -11);
    let y = solver.new_variable(-30, -16);
    let z = solver.new_variable(-20, -18);
    let tasks = vec![
        ArgTaskDisj {
            starting_time: w,
            duration: 4,
        },
        ArgTaskDisj {
            starting_time: x,
            duration: 9,
        },
        ArgTaskDisj {
            starting_time: y,
            duration: 7,
        },
        ArgTaskDisj {
            starting_time: z,
            duration: 6,
        },
    ];
    let propagator = DetectablePrecedencesPropagator::new(tasks);
    propagator.propagate(&mut solver).expect("feasible");
    assert_eq!(solver.upper_bound(x), -11);
    assert_eq!(solver.upper_bound(y), -26);
    assert_eq!(solver.upper_bound(z), -19);
}

// A conflict keeps no partial pushes: the bounds are as at entry.
#[test]
fn conflict_leaves_bounds_untouched() {
    let mut solver = Assignments::new();
    let a = solver.new_variable(0, 1);
    let b = solver.new_variable(0, 1);
    let c = solver.new_variable(0, 20);
    let tasks = vec![
        ArgTaskDisj {
            starting_time: a,
            duration: 5,
        },
        ArgTaskDisj {
            starting_time: b,
            duration: 5,
        },
        ArgTaskDisj {
            starting_time: c,
            duration: 1,
        },
    ];
    let propagator = DetectablePrecedencesPropagator::new(tasks);
    let result = propagator.propagate(&mut solver);
    assert!(result.is_err());
    for v in 0..3 {
        assert_eq!(solver.lower_bound(v), 0);
    }
    assert_eq!(solver.upper_bound(a), 1);
    assert_eq!(solver.upper_bound(b), 1);
    assert_eq!(solver.upper_bound(c), 20);
}
