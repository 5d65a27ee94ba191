use pumpkin_core::assignments::{Assignments, PropagatorInitialisationContext};
use pumpkin_core::propagator::DetectablePrecedencesPropagator;
use pumpkin_core::task::ArgTaskDisj;

#[test]
fn test_debug_propagate() {
    let mut solver = Assignments::new();
    let x = solver.new_variable(5, 8);

    let propagator = DetectablePrecedencesPropagator::new(vec![ArgTaskDisj {
        starting_time: x,
        duration: 2,
    }]);
    let mut init = PropagatorInitialisationContext::new();
    propagator.initialise_at_root(&mut init).expect("fail");
    let result = propagator.propagate(&mut solver);
    assert!(result.is_ok());
}

#[test]
fn test_debug_propagate_fail() {
    let mut solver = Assignments::new();
    let x = solver.new_variable(3, 8);

    let propagator = DetectablePrecedencesPropagator::new(vec![ArgTaskDisj {
        starting_time: x,
        duration: 2,
    }]);
    let mut init = PropagatorInitialisationContext::new();
    propagator.initialise_at_root(&mut init).expect("fail");
    let _ = solver.remove(x, 3);
    let _ = solver.remove(x, 4);
    let _result = propagator.propagate(&mut solver);
}

#[test]
fn test_prop() {
    let mut solver = Assignments::new();
    let w = solver.new_variable(0, 15);
    let x = solver.new_variable(2, 13);
    let y = solver.new_variable(9, 23);
    let z = solver.new_variable(12, 14);
    let tasks = vec![
        ArgTaskDisj {
            starting_time: w,
            duration: 4,
        },
        ArgTaskDisj {
            starting_time: x,
            duration: 9,
        },
        ArgTaskDisj {
            starting_time: y,
            duration: 7,
        },
        ArgTaskDisj {
            starting_time: z,
            duration: 6,
        },
    ];
    assert!(solver.lower_bound(y) == 9);
    assert!(solver.lower_bound(z) == 12);
    let propagator = DetectablePrecedencesPropagator::new(tasks);
    let mut init = PropagatorInitialisationContext::new();
    propagator.initialise_at_root(&mut init).expect("fail");
    propagator.propagate(&mut solver).expect("fail");
    assert!(solver.lower_bound(x) == 2);
    assert!(solver.lower_bound(y) == 19);
    assert!(solver.lower_bound(z) == 13);
}

#[test]
fn test_prop_example() {
    let mut solver = Assignments::new();
    let w = solver.new_variable(0, 4);
    let x = solver.new_variable(3, 5);
    let y = solver.new_variable(7, 10);
    let z = solver.new_variable(4, 18);
    let tasks = vec![
        ArgTaskDisj {
            starting_time: w,
            duration: 2,
        },
        ArgTaskDisj {
            starting_time: x,
            duration: 5,
        },
        ArgTaskDisj {
            starting_time: y,
            duration: 5,
        },
        ArgTaskDisj {
            starting_time: z,
            duration: 2,
        },
    ];
    let propagator = DetectablePrecedencesPropagator::new(tasks);
    let mut init = PropagatorInitialisationContext::new();
    propagator.initialise_at_root(&mut init).expect("fail");
    propagator.propagate(&mut solver).expect("fail");
    assert!(solver.lower_bound(w) == 0);
    assert!(solver.lower_bound(x) == 3);
    assert!(solver.lower_bound(y) == 8);
    assert!(solver.lower_bound(z) == 8);
}
