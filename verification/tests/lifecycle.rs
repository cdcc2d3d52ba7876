use swarm::config::{Config, RequestData, RequestDetails, Schedule, Task, Url as TaskUrl, Workload};
use swarm::message::UserStatus;
use swarm::supervisor::{spawn_count, RunnerState};
use swarm::user::{expand_schedule, PlanStep};

#[test]
fn counter_is_created_minus_finished() {
    let mut state = RunnerState::new();
    state.apply_status(UserStatus::Created);
    state.apply_status(UserStatus::Created);
    state.apply_status(UserStatus::Created);
    state.apply_status(UserStatus::Finished(Ok(Vec::new())));
    // Three creations and one completion observed: the snapshot reports 2.
    let msg = state.take_report(1);
    assert_eq!(msg.current_users, 2);
    assert_eq!(msg.results.len(), 1);
    assert_eq!(msg.duration, 1);
    // The buffer was drained; the counter is untouched.
    let msg2 = state.take_report(2);
    assert_eq!(msg2.current_users, 2);
    assert_eq!(msg2.results.len(), 0);
}

#[test]
fn finished_outcomes_are_buffered_in_order() {
    let mut state = RunnerState::new();
    state.apply_status(UserStatus::Created);
    state.apply_status(UserStatus::Created);
    state.apply_status(UserStatus::Finished(Err("a".to_string())));
    state.apply_status(UserStatus::Finished(Err("b".to_string())));
    let msg = state.take_report(0);
    assert_eq!(msg.current_users, 0);
    assert_eq!(msg.results.len(), 2);
    assert_eq!(msg.results[0].as_ref().unwrap_err(), "a");
    assert_eq!(msg.results[1].as_ref().unwrap_err(), "b");
}

#[test]
fn spawn_count_fills_the_shortfall_capped_at_twenty() {
    assert_eq!(spawn_count(10, 3), 7);
    assert_eq!(spawn_count(50, 0), 20);
    assert_eq!(spawn_count(3, 5), 0);
    assert_eq!(spawn_count(4, 4), 0);
    assert_eq!(spawn_count(24, 4), 20);
}

#[test]
fn empty_schedule_expands_to_no_steps() {
    // A zero-user constant workload over an empty script: nothing to walk.
    let plan = expand_schedule(&Schedule { tasks: Vec::new() });
    assert!(plan.is_empty());
}

#[test]
fn repeat_count_fans_out_requests() {
    let schedule = Schedule {
        tasks: vec![Task::Request(RequestDetails {
            url: TaskUrl { url: "http://host/x".to_string(), args: Vec::new() },
            method: swarm::config::HttpMethod::GET,
            data: None,
            repeat: Some(5),
        })],
    };
    let plan = expand_schedule(&schedule);
    assert_eq!(plan.len(), 5);
    for step in &plan {
        assert_eq!(*step, PlanStep::Request { task_index: 0, data_index: None });
    }
}

#[test]
fn waits_and_parameter_sets_expand_in_script_order() {
    let data = RequestData { params: None, query: None, body: None, headers: None };
    let schedule = Schedule {
        tasks: vec![
            Task::Wait(3),
            Task::Request(RequestDetails {
                url: TaskUrl { url: "http://host/x".to_string(), args: Vec::new() },
                method: swarm::config::HttpMethod::GET,
                data: Some(vec![data.clone(), data]),
                repeat: Some(2),
            }),
        ],
    };
    let plan = expand_schedule(&schedule);
    assert_eq!(
        plan,
        vec![
            PlanStep::Wait(3),
            PlanStep::Request { task_index: 1, data_index: Some(0) },
            PlanStep::Request { task_index: 1, data_index: Some(1) },
            PlanStep::Request { task_index: 1, data_index: Some(0) },
            PlanStep::Request { task_index: 1, data_index: Some(1) },
        ]
    );
}

#[test]
fn built_in_config_shape() {
    let config = Config::new();
    match config.workload {
        Workload::Constant { duration, max_users } => {
            assert_eq!(duration, 30);
            assert_eq!(max_users, 10);
        }
        _ => panic!("expected a constant workload"),
    }
    assert_eq!(config.schedule.tasks.len(), 4);
    match &config.schedule.tasks[0] {
        Task::Request(details) => {
            assert_eq!(details.url.url, "https://sosnowski.dev");
            assert_eq!(details.repeat, Some(10));
        }
        Task::Wait(_) => panic!("expected a request"),
    }
}
