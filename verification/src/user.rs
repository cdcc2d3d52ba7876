use vstd::prelude::*;

use crate::config::{RequestData, Schedule, Task};
use crate::message::{ErrorType, TaskResult};
use crate::message::task_result_wf;

verus! {

/// Whether an HTTP status code counts as success (the 2xx class).
pub open spec fn spec_status_success(status: u16) -> bool {
    200 <= status < 300
}

/// The error kind a non-success status code is classified under: the 4xx
/// class, the 5xx class, or any other status.
pub open spec fn spec_status_error_type(status: u16) -> ErrorType {
    if 400 <= status < 500 {
        ErrorType::Request4xx
    } else if 500 <= status < 600 {
        ErrorType::Request5xx
    } else {
        ErrorType::RequestOther
    }
}

/// The task result recorded for a response with the given status code:
/// success exactly for the 2xx class, the error kind classified from the
/// status class.
pub fn response_outcome(id: &String, url: &String, duration: usize, status: u16) -> (r: TaskResult)
    ensures
        r.id@ == id@,
        r.url@ == url@,
        r.duration == duration,
        r.success == spec_status_success(status),
        r.error == !spec_status_success(status),
        r.error_type == spec_status_error_type(status),
        task_result_wf(r),
{
    let success = 200 <= status && status < 300;
    let error_type = if 400 <= status && status < 500 {
        ErrorType::Request4xx
    } else if 500 <= status && status < 600 {
        ErrorType::Request5xx
    } else {
        ErrorType::RequestOther
    };
    TaskResult { id: id.clone(), url: url.clone(), success, error: !success, error_type, duration }
}

/// The task result recorded when no response arrived: a timeout after the
/// per-request cap, or a transport failure.
pub fn transport_outcome(id: &String, url: &String, duration: usize, timed_out: bool) -> (r:
    TaskResult)
    ensures
        r.id@ == id@,
        r.url@ == url@,
        r.duration == duration,
        !r.success,
        r.error,
        r.error_type == (if timed_out {
            ErrorType::Timeout
        } else {
            ErrorType::Connection
        }),
        task_result_wf(r),
{
    TaskResult {
        id: id.clone(),
        url: url.clone(),
        success: false,
        error: true,
        error_type: if timed_out {
            ErrorType::Timeout
        } else {
            ErrorType::Connection
        },
        duration,
    }
}

/// One step of a user's flattened script: pause, or perform the request of
/// the given task, with the parameter set at `data_index` (or the empty
/// default when the task declares none).
#[derive(Clone, Copy, Debug, PartialEq, Eq, Structural)]
pub enum PlanStep {
    Wait(usize),
    Request { task_index: usize, data_index: Option<usize> },
}

/// The parameter set the script interpreter falls back on when a request
/// declares none: everything absent.
pub fn default_request_data() -> (d: RequestData)
    ensures
        d.params is None,
        d.query is None,
        d.body is None,
        d.headers is None,
{
    RequestData { params: None, query: None, body: None, headers: None }
}

/// `s` repeated `n` times, in order.
pub open spec fn repeat_seq(s: Seq<PlanStep>, n: int) -> Seq<PlanStep>
    decreases n,
{
    if n <= 0 {
        Seq::empty()
    } else {
        s + repeat_seq(s, n - 1)
    }
}

/// How often a request task runs: its repeat count, one run when it
/// declares none.
pub open spec fn spec_repeat_of(t: Task) -> int {
    match t {
        Task::Request(details) => match details.repeat {
            Some(v) => v as int,
            None => 1,
        },
        Task::Wait(_) => 1,
    }
}

/// The steps one pass over a single repeat of task `ti` produces: a wait
/// step, or one request step per declared parameter set (one with the
/// default set when none are declared).
pub open spec fn one_pass(t: Task, ti: int) -> Seq<PlanStep> {
    match t {
        Task::Wait(secs) => seq![PlanStep::Wait(secs)],
        Task::Request(details) => match details.data {
            Some(d) => Seq::new(
                d@.len(),
                |l: int|
                    PlanStep::Request { task_index: ti as usize, data_index: Some(l as usize) },
            ),
            None => seq![PlanStep::Request { task_index: ti as usize, data_index: None }],
        },
    }
}

/// Everything task `ti` contributes to the plan: its single pass, repeated.
pub open spec fn expand_task(t: Task, ti: int) -> Seq<PlanStep> {
    match t {
        Task::Wait(_) => one_pass(t, ti),
        Task::Request(_) => repeat_seq(one_pass(t, ti), spec_repeat_of(t)),
    }
}

/// The flattened script from task `i` on.
pub open spec fn expand_from(tasks: Seq<Task>, i: int) -> Seq<PlanStep>
    decreases tasks.len() - i,
{
    if i < 0 || i >= tasks.len() {
        Seq::empty()
    } else {
        expand_task(tasks[i], i) + expand_from(tasks, i + 1)
    }
}

/// The whole schedule, flattened into the ordered steps one virtual user
/// walks: each task in order, requests repeated per their repeat count and
/// fanned out over their parameter sets.
pub open spec fn spec_expand_schedule(tasks: Seq<Task>) -> Seq<PlanStep> {
    expand_from(tasks, 0)
}

/// Flatten the schedule into the ordered steps one virtual user walks.
/// Steps name tasks and parameter sets by index, so the walker reads the
/// schedule itself for the details.
pub fn expand_schedule(schedule: &Schedule) -> (plan: Vec<PlanStep>)
    ensures
        plan@ == spec_expand_schedule(schedule.tasks@),
{
    let tasks = &schedule.tasks;
    let n = tasks.len();
    let mut plan: Vec<PlanStep> = Vec::new();
    proof {
        assert(plan@ + expand_from(tasks@, 0) =~= expand_from(tasks@, 0));
    }
    let mut i: usize = 0;
    while i < n
        invariant
            n == tasks@.len(),
            0 <= i <= n,
            tasks == &schedule.tasks,
            plan@ + expand_from(tasks@, i as int) == expand_from(tasks@, 0),
        decreases n - i,
    {
        let ghost plan0 = plan@;
        match &tasks[i] {
            Task::Wait(secs) => {
                plan.push(PlanStep::Wait(*secs));
                proof {
                    assert(plan@ =~= plan0 + one_pass(tasks@[i as int], i as int));
                }
            },
            Task::Request(details) => {
                let reps: usize = match details.repeat {
                    Some(v) => v,
                    None => 1,
                };
                let ghost pass = one_pass(tasks@[i as int], i as int);
                let mut rep: usize = 0;
                while rep < reps
                    invariant
                        0 <= rep <= reps,
                        i < tasks@.len(),
                        tasks == &schedule.tasks,
                        tasks@[i as int] is Request,
                        pass == one_pass(tasks@[i as int], i as int),
                        (match tasks@[i as int] {
                            Task::Request(d) => d,
                            Task::Wait(_) => arbitrary(),
                        }) == *details,
                        plan@ == plan0 + repeat_seq(pass, rep as int),
                    decreases reps - rep,
                {
                    let ghost before_pass = plan@;
                    match &details.data {
                        Some(d) => {
                            let m = d.len();
                            let mut l: usize = 0;
                            while l < m
                                invariant
                                    m == d@.len(),
                                    0 <= l <= m,
                                    i < tasks@.len(),
                                    pass == Seq::new(
                                        d@.len(),
                                        |x: int|
                                            PlanStep::Request {
                                                task_index: i as usize,
                                                data_index: Some(x as usize),
                                            },
                                    ),
                                    plan@ == before_pass + pass.take(l as int),
                                decreases m - l,
                            {
                                plan.push(
                                    PlanStep::Request { task_index: i, data_index: Some(l) },
                                );
                                proof {
                                    assert(plan@ =~= before_pass + pass.take(l as int + 1));
                                }
                                l = l + 1;
                            }
                            proof {
                                assert(pass.take(m as int) =~= pass);
                            }
                        },
                        None => {
                            plan.push(PlanStep::Request { task_index: i, data_index: None });
                            proof {
                                assert(plan@ =~= before_pass + pass);
                            }
                        },
                    }
                    proof {
                        lemma_repeat_snoc(pass, rep as int);
                        assert(before_pass + pass =~= plan0 + (repeat_seq(pass, rep as int)
                            + pass));
                    }
                    rep = rep + 1;
                }
                proof {
                    assert(spec_repeat_of(tasks@[i as int]) == reps as int);
                    assert(plan@ == plan0 + expand_task(tasks@[i as int], i as int));
                }
            },
        }
        proof {
            assert(expand_from(tasks@, i as int) == expand_task(tasks@[i as int], i as int)
                + expand_from(tasks@, i as int + 1));
            assert((plan0 + expand_task(tasks@[i as int], i as int)) + expand_from(
                tasks@,
                i as int + 1,
            ) =~= plan0 + (expand_task(tasks@[i as int], i as int) + expand_from(
                tasks@,
                i as int + 1,
            )));
        }
        i = i + 1;
    }
    proof {
        assert(plan@ + Seq::<PlanStep>::empty() =~= plan@);
    }
    plan
}

/// Repeating once more appends one more pass.
proof fn lemma_repeat_snoc(s: Seq<PlanStep>, n: int)
    requires
        n >= 0,
    ensures
        repeat_seq(s, n + 1) == repeat_seq(s, n) + s,
    decreases n,
{
    if n == 0 {
        assert(repeat_seq(s, 1) == s + repeat_seq(s, 0));
        assert(s + Seq::<PlanStep>::empty() =~= s);
        assert(Seq::<PlanStep>::empty() + s =~= s);
    } else {
        lemma_repeat_snoc(s, n - 1);
        assert(repeat_seq(s, n + 1) == s + repeat_seq(s, n));
        assert(repeat_seq(s, n) == s + repeat_seq(s, n - 1));
        assert(s + (repeat_seq(s, n - 1) + s) =~= (s + repeat_seq(s, n - 1)) + s);
    }
}

} // verus!
