use vstd::prelude::*;

verus! {

/// A request body together with the content type it implies.
#[derive(Clone, Debug)]
pub enum Body {
    Json(String),
    Text(String),
}

/// One parameter set for a templated request: placeholder values, query
/// pairs, a body and extra headers. Mappings are kept as ordered lists of
/// `(key, value)` pairs.
#[derive(Clone, Debug)]
pub struct RequestData {
    pub params: Option<Vec<(String, String)>>,
    pub query: Option<Vec<(String, String)>>,
    pub body: Option<Body>,
    pub headers: Option<Vec<(String, String)>>,
}

/// A URL template and the names of the placeholders it declares.
#[derive(Clone, Debug)]
pub struct Url {
    pub url: String,
    pub args: Vec<String>,
}

/// A scripted request: templated URL, method, optional parameter sets and an
/// optional repeat count (one execution when absent).
#[derive(Clone, Debug)]
pub struct RequestDetails {
    pub url: Url,
    pub method: HttpMethod,
    pub data: Option<Vec<RequestData>>,
    pub repeat: Option<usize>,
}

/// One step of a user's script: perform a request or pause for whole seconds.
#[derive(Clone, Debug)]
pub enum Task {
    Request(RequestDetails),
    Wait(usize),
}

/// The ordered script each virtual user walks once.
#[derive(Clone, Debug)]
pub struct Schedule {
    pub tasks: Vec<Task>,
}

#[derive(Clone, Copy, Debug, PartialEq, Eq, Structural)]
pub enum HttpMethod {
    GET,
    POST,
    PUT,
    DELETE,
}

/// The time-varying target population of concurrent virtual users.
/// Durations are whole seconds; user counts are absolute populations.
#[derive(Clone, Copy, Debug)]
pub enum Workload {
    Constant {
        duration: usize,
        max_users: usize,
    },
    Linear {
        duration: usize,
        max_users: usize,
        ramp_up_time: usize,
    },
    EaseOut {
        duration: usize,
        max_users: usize,
        ramp_up_time: usize,
    },
    Sin {
        duration: usize,
        max_users: usize,
        min_users: usize,
        cycle_time: usize,
    },
}

/// The full run description: a workload shape plus the script.
#[derive(Clone, Debug)]
pub struct Config {
    pub workload: Workload,
    pub schedule: Schedule,
}

/// What one of the built-in script entries looks like: a plain GET of the
/// given URL with no placeholders, no parameter sets, and the given repeat
/// count.
pub open spec fn plain_get(t: Task, url: Seq<char>, repeat: Option<usize>) -> bool {
    &&& t matches Task::Request(d)
    &&& ({
        let d = t->Request_0;
        &&& d.method is GET
        &&& d.url.url@ == url
        &&& d.url.args@.len() == 0
        &&& d.data is None
        &&& d.repeat == repeat
    })
}

impl Config {
    /// The built-in run description: thirty seconds of ten constant users,
    /// each walking a script of four plain GETs.
    pub fn new() -> (c: Config)
        ensures
            c.workload == (Workload::Constant { duration: 30, max_users: 10 }),
            c.schedule.tasks@.len() == 4,
            plain_get(c.schedule.tasks@[0], "https://sosnowski.dev"@, Some(10usize)),
            plain_get(
                c.schedule.tasks@[1],
                "https://sosnowski.dev/post/monetizing-your-blog-with-cryptocurrencies"@,
                Some(10usize),
            ),
            plain_get(
                c.schedule.tasks@[2],
                "https://sosnowski.dev/post/static-serverless-site-with-nextjs"@,
                Some(10usize),
            ),
            plain_get(
                c.schedule.tasks@[3],
                "https://sosnowski.dev/post/anatomy-of-aws-lambda"@,
                None,
            ),
    {
        let mut tasks: Vec<Task> = Vec::new();
        tasks.push(
            Task::Request(
                RequestDetails {
                    method: HttpMethod::GET,
                    url: Url { url: String::new().concat("https://sosnowski.dev"), args: Vec::new() },
                    data: None,
                    repeat: Some(10),
                },
            ),
        );
        tasks.push(
            Task::Request(
                RequestDetails {
                    method: HttpMethod::GET,
                    url: Url {
                        url: String::new().concat(
                            "https://sosnowski.dev/post/monetizing-your-blog-with-cryptocurrencies",
                        ),
                        args: Vec::new(),
                    },
                    data: None,
                    repeat: Some(10),
                },
            ),
        );
        tasks.push(
            Task::Request(
                RequestDetails {
                    method: HttpMethod::GET,
                    url: Url {
                        url: String::new().concat(
                            "https://sosnowski.dev/post/static-serverless-site-with-nextjs",
                        ),
                        args: Vec::new(),
                    },
                    data: None,
                    repeat: Some(10),
                },
            ),
        );
        tasks.push(
            Task::Request(
                RequestDetails {
                    method: HttpMethod::GET,
                    url: Url {
                        url: String::new().concat(
                            "https://sosnowski.dev/post/anatomy-of-aws-lambda",
                        ),
                        args: Vec::new(),
                    },
                    data: None,
                    repeat: None,
                },
            ),
        );
        Config {
            workload: Workload::Constant { duration: 30, max_users: 10 },
            schedule: Schedule { tasks },
        }
    }
}

} // verus!
