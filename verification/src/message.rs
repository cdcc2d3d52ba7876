use vstd::prelude::*;

verus! {

/// How a single HTTP request failed, recorded on its result.
#[derive(Clone, Copy, Debug, PartialEq, Eq, Structural)]
pub enum ErrorType {
    Request5xx,
    Request4xx,
    RequestOther,
    Timeout,
    Connection,
    Internal,
}

/// The outcome of one dispatched request: the endpoint id it counts
/// towards, the concrete URL, the wall-clock duration in milliseconds, and
/// the success / error classification.
#[derive(Clone, Debug)]
pub struct TaskResult {
    pub id: String,
    pub url: String,
    pub success: bool,
    pub error: bool,
    pub error_type: ErrorType,
    pub duration: usize,
}

/// A result is classified exactly one way: success and error exclude each
/// other.
pub open spec fn task_result_wf(r: TaskResult) -> bool {
    r.success == !r.error
}

/// A virtual user's terminal report: the full ordered result vector, or the
/// reason it failed before producing any result.
pub type UserResult = Result<Vec<TaskResult>, String>;

/// The snapshot a supervisor tick sends to the aggregator.
#[derive(Debug)]
pub struct ReportMessage {
    pub current_users: usize,
    pub results: Vec<UserResult>,
    pub duration: usize,
}

/// A lifecycle event a virtual user sends to the supervisor.
#[derive(Debug)]
pub enum UserStatus {
    Created,
    Finished(UserResult),
}

} // verus!
