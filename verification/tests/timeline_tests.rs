use pumpkin_core::assignments::Assignments;
use pumpkin_core::task::TaskDisj;
use pumpkin_core::timeline::{RevTimeline, Timeline};

#[test]
fn test_constructor() {
    let mut solver = Assignments::new();
    let x = solver.new_variable(4, 10);
    let y = solver.new_variable(1, 4);
    let z = solver.new_variable(5, 6);
    let tasks = vec![
        TaskDisj {
            starting_time: x,
            duration: 5,
            local_id: 0,
        },
        TaskDisj {
            starting_time: y,
            duration: 6,
            local_id: 1,
        },
        TaskDisj {
            starting_time: z,
            duration: 2,
            local_id: 2,
        },
    ];
    let mut timeline = Timeline::new(&tasks, &solver);
    timeline.schedule_task(&tasks[0].clone());
    assert!(timeline.earliest_completion_time() == 9);
    timeline.schedule_task(&tasks[1].clone());
    assert!(timeline.earliest_completion_time() == 12);
    timeline.schedule_task(&tasks[2].clone());
    assert!(timeline.earliest_completion_time() == 14);
}

#[test]
fn test_rev() {
    let mut solver = Assignments::new();
    let w = solver.new_variable(0, 15);
    let x = solver.new_variable(2, 13);
    let y = solver.new_variable(9, 23);
    let z = solver.new_variable(12, 14);
    let tasks = vec![
        TaskDisj {
            starting_time: w,
            duration: 4,
            local_id: 0,
        },
        TaskDisj {
            starting_time: x,
            duration: 9,
            local_id: 1,
        },
        TaskDisj {
            starting_time: y,
            duration: 7,
            local_id: 2,
        },
        TaskDisj {
            starting_time: z,
            duration: 6,
            local_id: 3,
        },
    ];
    let mut timeline = RevTimeline::new(&tasks, &solver);

    timeline.schedule_task(&tasks[2].clone());
    assert!(timeline.latest_starting_time() == 23);
    timeline.schedule_task(&tasks[1].clone());
    assert!(timeline.latest_starting_time() == 13);
}
