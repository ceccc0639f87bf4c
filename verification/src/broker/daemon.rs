//! The broker daemon (`microkitchen broker run`): one per microkitchen home,
//! serving the admin socket and every registered sandbox.

use vstd::prelude::*;

use crate::broker::approval::{ids_of, shown, Outcome};
use crate::broker::protocol::{Data, Mode, Registration, Request, Response};
use crate::broker::registry::{info_of, Broker, BrokerErrorView, Registering, SandboxView};
use crate::paths::{join_paths, path_join};
use crate::state::Home;
use crate::text::{concat, concat3, decimal, decimal_string, views};
use crate::time::Instant;

verus! {

/// The admin socket.
pub fn socket_path(home: &Home) -> (r: String)
    ensures
        r@ == path_join(path_join(home@, "broker"@), "admin.sock"@),
{
    join_paths(home.broker_dir().as_str(), "admin.sock")
}

/// The lock that the one broker of a home holds.
pub fn broker_lock(home: &Home) -> (r: String)
    ensures
        r@ == path_join(path_join(home@, "broker"@), "broker.lock"@),
{
    join_paths(home.broker_dir().as_str(), "broker.lock")
}

/// Why a second broker does not start.
pub fn already_running(home: &Home) -> (r: String)
    ensures
        r@ == "a broker is already running for "@ + home@,
{
    concat("a broker is already running for ", home.root())
}

/// What is left to do for a request.
#[derive(Debug, PartialEq, Eq)]
pub enum Task {
    Nothing,
    /// Save the registry.
    Save,
    /// The sandbox's listeners and flows end, the requests are dropped, and the
    /// registry is saved.
    End { name: String, dropped: Vec<u64> },
    /// The flow that waits for the request gets its outcome.
    Answer { id: u64, outcome: Outcome },
    /// The daemon stops.
    Stop,
}

/// What comes of a request.
#[derive(Debug, PartialEq, Eq)]
pub enum Dispatched {
    Reply { response: Response, task: Task },
    /// The endpoints of a sandbox are to be bound, after the task is done; what
    /// comes of that is the reply.
    Bind {
        name: String,
        kitchen_file: String,
        mode: Mode,
        resolver_port: Option<u16>,
        proxy_port: Option<u16>,
        /// Whether the rate limit of what was registered before has tripped.
        limited: bool,
        task: Task,
    },
}

/// Why an answer came too late.
pub open spec fn no_pending(id: u64) -> Seq<char> {
    "no pending approval "@ + decimal(id as nat)
}

/// The reply to an operation that may fail.
fn reply_to(result: Result<(), crate::broker::registry::BrokerError>, task: Task) -> (r:
    Dispatched)
    ensures
        match result {
            Ok(()) => r matches Dispatched::Reply { response, task: next } && response.succeeds(
                Data::Nothing,
            ) && next == task,
            Err(error) => r matches Dispatched::Reply { response, task: next } && response.fails(
                error@.text(),
            ) && next is Nothing,
        },
{
    match result {
        Ok(()) => Dispatched::Reply { response: Response::success(Data::Nothing), task },
        Err(error) => Dispatched::Reply {
            response: Response::failure(error.to_text()),
            task: Task::Nothing,
        },
    }
}

/// Whether a request was refused for want of a registration.
pub open spec fn unregistered(r: Dispatched, name: Seq<char>) -> bool {
    r matches Dispatched::Reply { response, task } && response.fails(
        BrokerErrorView::NotRegistered(name).text(),
    ) && task is Nothing
}

/// Whether a request succeeded with this data, and leaves this to do.
pub open spec fn replied(r: Dispatched, data: Data, next: Task) -> bool {
    r matches Dispatched::Reply { response, task } && response.succeeds(data) && task == next
}

/// Whether a sandbox is to end, and these requests to be dropped.
pub open spec fn ends(task: Task, sandbox: Seq<char>, ids: Seq<u64>) -> bool {
    task matches Task::End { name, dropped } && name@ == sandbox && dropped@ == ids
}

/// Carry out a request; `pid` is the daemon's process id.
pub fn dispatch(broker: &mut Broker, request: Request, pid: u32, now: Instant) -> (r: Dispatched)
    ensures
        match request {
            Request::Ping => replied(r, Data::Pid(pid), Task::Nothing) && final(broker)@ == old(
                broker,
            )@,
            Request::Register { name, kitchen_file, mode, resolver_port, proxy_port } => {
                let before = old(broker)@;
                if before.keeps(name@, kitchen_file@, resolver_port, proxy_port) {
                    let entry = before.sandboxes[name@];
                    &&& replied(
                        r,
                        Data::Endpoints(
                            Registration {
                                resolver_port: entry.resolver_port,
                                proxy_port: entry.proxy_port,
                            },
                        ),
                        Task::Save,
                    )
                    &&& final(broker)@ == before.with(name@, SandboxView { mode, ..entry })
                } else {
                    &&& final(broker)@ == before.retired(name@)
                    &&& r matches Dispatched::Bind {
                        name: sandbox,
                        kitchen_file: file,
                        mode: wanted,
                        resolver_port: resolver,
                        proxy_port: proxy,
                        limited,
                        task,
                    }
                    &&& limited == before.is_limited(name@)
                    &&& sandbox@ == name@ && file@ == kitchen_file@ && wanted == mode && resolver
                        == resolver_port && proxy == proxy_port
                    &&& if before.sandboxes.contains_key(name@) {
                        ends(task, name@, ids_of(old(broker).requests(), name@))
                    } else {
                        task is Nothing
                    }
                }
            },
            Request::Retire { name } => {
                let before = old(broker)@;
                &&& final(broker)@ == before.retired(name@)
                &&& r matches Dispatched::Reply { response, task }
                &&& response.succeeds(Data::Flag(before.sandboxes.contains_key(name@)))
                &&& if before.sandboxes.contains_key(name@) {
                    ends(task, name@, ids_of(old(broker).requests(), name@))
                } else {
                    task is Nothing
                }
            },
            Request::SetMode { name, mode } => {
                let before = old(broker)@;
                if before.sandboxes.contains_key(name@) {
                    &&& replied(r, Data::Nothing, Task::Save)
                    &&& final(broker)@ == before.with(
                        name@,
                        SandboxView { mode, ..before.sandboxes[name@] },
                    )
                } else {
                    unregistered(r, name@) && final(broker)@ == before
                }
            },
            Request::Grant { name, subject } => {
                let before = old(broker)@;
                match before.granting(name@, subject@, now) {
                    Ok(after) => replied(r, Data::Nothing, Task::Nothing) && final(broker)@
                        == after,
                    Err(error) => {
                        &&& r matches Dispatched::Reply { response, task }
                        &&& response.fails(error.text()) && task is Nothing
                        &&& final(broker)@ == before
                    },
                }
            },
            Request::Resume { name } => {
                let before = old(broker)@;
                if before.sandboxes.contains_key(name@) {
                    &&& replied(
                        r,
                        Data::Flag(before.sandboxes[name@].limited),
                        Task::Save,
                    )
                    &&& final(broker)@ == before.resumed(name@)
                } else {
                    unregistered(r, name@) && final(broker)@ == before
                }
            },
            Request::List => {
                let listed = old(broker).listed();
                &&& final(broker)@ == old(broker)@
                &&& r matches Dispatched::Reply { response, task }
                &&& response.ok && response.error is None && task is Nothing
                &&& response.data matches Data::Sandboxes(found)
                &&& views(found@) == Seq::new(
                    listed.len(),
                    |i: int| info_of(listed[i].0, listed[i].1),
                )
            },
            Request::Pending => {
                let requests = old(broker).requests();
                &&& final(broker)@ == old(broker)@
                &&& r matches Dispatched::Reply { response, task }
                &&& response.ok && response.error is None && task is Nothing
                &&& response.data matches Data::Approvals(found)
                &&& views(found@) == Seq::new(
                    requests.len(),
                    |i: int| shown(requests[i].0, requests[i].1, now),
                )
            },
            Request::Decide { id, answer } => {
                let before = old(broker)@;
                &&& final(broker)@ == before.answered(id)
                &&& if before.queue.pending.contains_key(id) {
                    replied(
                        r,
                        Data::Flag(true),
                        Task::Answer { id, outcome: Outcome::of(answer) },
                    )
                } else {
                    &&& r matches Dispatched::Reply { response, task }
                    &&& response.fails(no_pending(id)) && task is Nothing
                }
            },
            Request::Bindings { name } => {
                &&& final(broker)@ == old(broker)@
                &&& if old(broker)@.sandboxes.contains_key(name@) {
                    &&& r matches Dispatched::Reply { response, task }
                    &&& response.ok && response.error is None && task is Nothing
                    &&& response.data matches Data::Bindings(found)
                    &&& old(broker)@.sandboxes[name@].shows(found@, now)
                } else {
                    unregistered(r, name@)
                }
            },
            Request::Shutdown => replied(r, Data::Flag(true), Task::Stop) && final(broker)@ == old(
                broker,
            )@,
        },
{
    match request {
        Request::Ping => Dispatched::Reply {
            response: Response::success(Data::Pid(pid)),
            task: Task::Nothing,
        },
        Request::Register { name, kitchen_file, mode, resolver_port, proxy_port } => {
            let registering = broker.register(
                name.as_str(),
                kitchen_file.as_str(),
                mode,
                resolver_port,
                proxy_port,
            );
            match registering {
                Registering::Kept(registration) => Dispatched::Reply {
                    response: Response::success(Data::Endpoints(registration)),
                    task: Task::Save,
                },
                Registering::Bind { dropped: gone, limited } => {
                    let task = match gone {
                        Some(dropped) => Task::End { name: name.clone(), dropped },
                        None => Task::Nothing,
                    };
                    Dispatched::Bind {
                        name,
                        kitchen_file,
                        mode,
                        resolver_port,
                        proxy_port,
                        limited,
                        task,
                    }
                },
            }
        },
        Request::Retire { name } => match broker.retire(name.as_str()) {
            Some(dropped) => Dispatched::Reply {
                response: Response::success(Data::Flag(true)),
                task: Task::End { name, dropped },
            },
            None => Dispatched::Reply {
                response: Response::success(Data::Flag(false)),
                task: Task::Nothing,
            },
        },
        Request::SetMode { name, mode } => reply_to(
            broker.set_mode(name.as_str(), mode),
            Task::Save,
        ),
        Request::Grant { name, subject } => reply_to(
            broker.grant(name.as_str(), subject.as_str(), now),
            Task::Nothing,
        ),
        Request::Resume { name } => match broker.resume(name.as_str()) {
            Ok(was_limited) => Dispatched::Reply {
                response: Response::success(Data::Flag(was_limited)),
                task: Task::Save,
            },
            Err(error) => Dispatched::Reply {
                response: Response::failure(error.to_text()),
                task: Task::Nothing,
            },
        },
        Request::List => Dispatched::Reply {
            response: Response::success(Data::Sandboxes(broker.list())),
            task: Task::Nothing,
        },
        Request::Pending => Dispatched::Reply {
            response: Response::success(Data::Approvals(broker.pending(now))),
            task: Task::Nothing,
        },
        Request::Decide { id, answer } => match broker.decide(id, answer) {
            Some(outcome) => Dispatched::Reply {
                response: Response::success(Data::Flag(true)),
                task: Task::Answer { id, outcome },
            },
            None => Dispatched::Reply {
                response: Response::failure(
                    concat("no pending approval ", decimal_string(id).as_str()),
                ),
                task: Task::Nothing,
            },
        },
        Request::Bindings { name } => match broker.bindings(name.as_str(), now) {
            Ok(found) => Dispatched::Reply {
                response: Response::success(Data::Bindings(found)),
                task: Task::Nothing,
            },
            Err(error) => Dispatched::Reply {
                response: Response::failure(error.to_text()),
                task: Task::Nothing,
            },
        },
        Request::Shutdown => Dispatched::Reply {
            response: Response::success(Data::Flag(true)),
            task: Task::Stop,
        },
    }
}

/// The reply to a sandbox without a proxy secret.
pub fn no_secret(name: &str) -> (r: Response)
    ensures
        r.fails("sandbox "@ + name@ + " has no proxy secret"@),
{
    Response::failure(concat3("sandbox ", name, " has no proxy secret"))
}

/// The reply to a line that is no request; `error` says why.
pub fn invalid_request(error: &str) -> (r: Response)
    ensures
        r.fails("invalid request: "@ + error@),
{
    Response::failure(concat("invalid request: ", error))
}

} // verus!
