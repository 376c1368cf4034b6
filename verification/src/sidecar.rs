//! What the app knows about the ingestion worker it runs beside it.
//!
//! The worker shares the database and nothing else; if it cannot be started
//! the app keeps working and says why.
use vstd::prelude::*;

verus! {

broadcast use vstd::string::group_string_axioms;

/// One reading engine, as the worker found it on this machine.
#[derive(Debug)]
pub struct EngineStatus {
    pub key: String,
    pub label: String,
    pub available: bool,
    pub engine: String,
    pub note: String,
}

#[derive(Debug)]
pub struct WorkerStatus {
    /// A worker process this app started is alive.
    pub running: bool,
    /// Last time any worker reported in (UTC, from the shared database).
    pub last_heartbeat: Option<String>,
    pub problem: Option<String>,
    /// What that worker can actually read. Empty until a worker has reported.
    pub engines: Vec<EngineStatus>,
}

/// What polling the worker process found.
#[derive(Debug)]
pub enum WorkerPoll {
    /// No worker was started (or it was already reaped).
    NotStarted,
    /// The process is alive.
    Alive,
    /// The process exited; its exit status as the system describes it.
    Exited(String),
    /// The process could not be polled.
    Unknown,
}

/// Whether the worker is running after a poll, and the problem to report:
/// an exit replaces it with a message naming the exit status; otherwise the
/// problem already known stands.
pub fn observe_worker(poll: WorkerPoll, problem: Option<String>) -> (r: (bool, Option<String>))
    ensures
        r.0 == (poll is Alive),
        poll is Exited ==> r.1 is Some && r.1->Some_0@ == "the ingestion worker exited ("@
            + poll->Exited_0@ + ")"@,
        !(poll is Exited) ==> r.1 == problem,
{
    match poll {
        WorkerPoll::Alive => (true, problem),
        WorkerPoll::Exited(status) => {
            let mut m = "the ingestion worker exited (".to_owned();
            m.append(status.as_str());
            m.append(")");
            (false, Some(m))
        },
        WorkerPoll::NotStarted => (false, problem),
        WorkerPoll::Unknown => (false, problem),
    }
}

/// The status reported to the app.
pub fn worker_status(
    poll: WorkerPoll,
    problem: Option<String>,
    last_heartbeat: Option<String>,
    engines: Vec<EngineStatus>,
) -> (r: WorkerStatus)
    ensures
        r.running == (poll is Alive),
        poll is Exited ==> r.problem is Some && r.problem->Some_0@ == "the ingestion worker exited ("@
            + poll->Exited_0@ + ")"@,
        !(poll is Exited) ==> r.problem == problem,
        r.last_heartbeat == last_heartbeat,
        r.engines == engines,
{
    let (running, problem) = observe_worker(poll, problem);
    WorkerStatus { running, last_heartbeat, problem, engines }
}

} // verus!
