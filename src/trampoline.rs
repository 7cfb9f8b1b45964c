//! One call from argument values to a reply or a trap, as a state machine.
//!
//! The interpreter and the host live outside this module: whoever drives
//! the call performs each `Action` that `step` returns and reports what
//! happened as the next `Event`.
use vstd::prelude::*;
use vstd::string::*;
use crate::errors::{ErrorModel, RuntimeError};
use crate::methods::ActParam;
use crate::type_node::{ActDataTypeNode, TypeNode, views};
use crate::values::{
    DynModel, DynValue, StaticModel, StaticValue, decode, decode_value, dyns_view, encode_all,
    lemma_dyns_view, lemma_statics_view, statics_view, encode_values,
};

verus! {

#[derive(Clone, Copy, Debug, PartialEq, Eq, Structural)]
pub enum CallState {
    Decoding,
    Invoking,
    Draining,
    Encoding,
    Done,
    Trapped,
}

/// What the interpreter reports of a body's result.
#[derive(Debug)]
pub enum Settlement {
    /// Still waiting on queued asynchronous work.
    Pending,
    Fulfilled(DynValue),
    /// An uncaught exception, with its message.
    Raised(String),
}

#[derive(Debug)]
pub enum Event {
    /// The call begins with these argument values.
    Start(Vec<DynValue>),
    /// The body returned.
    Returned(Settlement),
    /// One queued job ran; the result is as stated afterwards.
    JobRan(Settlement),
    /// The job queue is empty.
    QueueEmpty,
    /// The reply value was written in the wire format.
    Serialized(Vec<u8>),
    /// The wire encoder refused the reply value.
    SerializeFailed(String),
}

#[derive(Debug)]
pub enum Action {
    /// Run the body with these arguments.
    Invoke(Vec<DynValue>),
    /// Run the next queued job.
    RunNextJob,
    /// Write this value in the wire format.
    Serialize(StaticValue),
    /// Send these bytes as the response.
    Reply(Vec<u8>),
    /// Abort the call.
    Trap(RuntimeError),
    /// The call is over; nothing is left to do.
    Idle,
}

pub enum SettlementModel {
    Pending,
    Fulfilled(DynModel),
    Raised(Seq<char>),
}

pub enum EventModel {
    Start(Seq<DynModel>),
    Returned(SettlementModel),
    JobRan(SettlementModel),
    QueueEmpty,
    Serialized(Seq<u8>),
    SerializeFailed(Seq<char>),
}

pub enum ActionModel {
    Invoke(Seq<DynModel>),
    RunNextJob,
    Serialize(StaticModel),
    Reply(Seq<u8>),
    Trap(ErrorModel),
    Idle,
}

pub open spec fn settlement_view(s: Settlement) -> SettlementModel {
    match s {
        Settlement::Pending => SettlementModel::Pending,
        Settlement::Fulfilled(v) => SettlementModel::Fulfilled(v@),
        Settlement::Raised(m) => SettlementModel::Raised(m@),
    }
}

impl View for Event {
    type V = EventModel;

    open spec fn view(&self) -> EventModel {
        match self {
            Event::Start(a) => EventModel::Start(dyns_view(a@)),
            Event::Returned(s) => EventModel::Returned(settlement_view(*s)),
            Event::JobRan(s) => EventModel::JobRan(settlement_view(*s)),
            Event::QueueEmpty => EventModel::QueueEmpty,
            Event::Serialized(b) => EventModel::Serialized(b@),
            Event::SerializeFailed(m) => EventModel::SerializeFailed(m@),
        }
    }
}

impl View for Action {
    type V = ActionModel;

    open spec fn view(&self) -> ActionModel {
        match self {
            Action::Invoke(a) => ActionModel::Invoke(dyns_view(a@)),
            Action::RunNextJob => ActionModel::RunNextJob,
            Action::Serialize(v) => ActionModel::Serialize(v@),
            Action::Reply(b) => ActionModel::Reply(b@),
            Action::Trap(e) => ActionModel::Trap(e@),
            Action::Idle => ActionModel::Idle,
        }
    }
}

pub open spec fn params_view(s: Seq<ActParam>) -> Seq<(Seq<char>, TypeNode)> {
    s.map_values(|p: ActParam| (p.name@, p.data_type@))
}

/// Argument `i`, or `undefined` where the call passed fewer.
pub open spec fn arg_at(args: Seq<DynModel>, i: int) -> DynModel {
    if 0 <= i < args.len() {
        args[i]
    } else {
        DynModel::Undefined
    }
}

/// Each argument decoded against its parameter's type, in order; the first
/// failure ends the extraction and names the parameter and its position.
pub open spec fn extract(
    params: Seq<(Seq<char>, TypeNode)>,
    args: Seq<DynModel>,
    env: Seq<TypeNode>,
) -> Result<Seq<StaticModel>, ErrorModel>
    decreases params.len(),
{
    if params.len() == 0 {
        Ok(Seq::empty())
    } else {
        match extract(params.drop_last(), args, env) {
            Err(e) => Err(e),
            Ok(xs) => {
                let i = params.len() - 1;
                match decode(params.last().1, arg_at(args, i), env, env.len()) {
                    Ok(x) => Ok(xs.push(x)),
                    Err(m) => Err(
                        ErrorModel::ShapeMismatch {
                            expected: m.expected,
                            name: Some(params.last().0),
                            position: Some(i as nat),
                            found: m.found,
                        },
                    ),
                }
            },
        }
    }
}

pub fn extract_args(params: &Vec<ActParam>, args: &Vec<DynValue>, env: &Vec<ActDataTypeNode>) -> (r:
    Result<Vec<StaticValue>, RuntimeError>)
    ensures
        match r {
            Ok(xs) => extract(params_view(params@), dyns_view(args@), views(env@)) == Ok::<Seq<StaticModel>, ErrorModel>(statics_view(xs@)),
            Err(e) => extract(params_view(params@), dyns_view(args@), views(env@)) == Err::<Seq<StaticModel>, ErrorModel>(e@),
        },
{
    let ghost ps = params_view(params@);
    let ghost ds = dyns_view(args@);
    proof {
        lemma_dyns_view(args@);
    }
    let undefined = DynValue::Undefined;
    let mut acc: Vec<StaticValue> = Vec::new();
    let mut failed: Option<RuntimeError> = None;
    let mut i: usize = 0;
    while i < params.len()
        invariant
            i <= params.len(),
            ps == params_view(params@),
            ds == dyns_view(args@),
            ds.len() == args.len(),
            forall|j: int| 0 <= j < args.len() ==> #[trigger] ds[j] == args@[j]@,
            undefined@ == DynModel::Undefined,
            match failed {
                None => extract(ps.subrange(0, i as int), ds, views(env@)) == Ok::<Seq<StaticModel>, ErrorModel>(statics_view(acc@)),
                Some(e) => extract(ps.subrange(0, i as int), ds, views(env@)) == Err::<Seq<StaticModel>, ErrorModel>(e@),
            },
        decreases params.len() - i,
    {
        proof {
            assert(ps.subrange(0, i + 1).drop_last() =~= ps.subrange(0, i as int));
        }
        if failed.is_none() {
            let arg: &DynValue = if i < args.len() {
                &args[i]
            } else {
                &undefined
            };
            match decode_value(&params[i].data_type, arg, env, env.len()) {
                Ok(x) => {
                    let ghost prev = acc@;
                    acc.push(x);
                    proof {
                        assert(acc@.drop_last() == prev);
                    }
                },
                Err(m) => {
                    failed = Some(
                        RuntimeError::ShapeMismatch {
                            expected: m.expected,
                            name: Some(params[i].name.clone()),
                            position: Some(i),
                            found: m.found,
                        },
                    );
                },
            }
        }
        i = i + 1;
    }
    assert(ps.subrange(0, params.len() as int) =~= ps);
    match failed {
        Some(e) => Err(e),
        None => Ok(acc),
    }
}

pub open spec fn never_settled() -> Seq<char> {
    "the call's result never settled"@
}

pub open spec fn unexpected_event() -> Seq<char> {
    "unexpected event"@
}

/// What a settled or pending result leads to.
pub open spec fn settle(ret: Option<TypeNode>, s: SettlementModel, env: Seq<TypeNode>) -> (
    CallState,
    ActionModel,
) {
    match s {
        SettlementModel::Pending => (CallState::Draining, ActionModel::RunNextJob),
        SettlementModel::Raised(m) => (
            CallState::Trapped,
            ActionModel::Trap(ErrorModel::InterpreterException { message: m }),
        ),
        SettlementModel::Fulfilled(v) => match ret {
            None => (CallState::Encoding, ActionModel::Serialize(StaticModel::Null)),
            Some(t) => match decode(t, v, env, env.len()) {
                Ok(x) => (CallState::Encoding, ActionModel::Serialize(x)),
                Err(m) => (
                    CallState::Trapped,
                    ActionModel::Trap(
                        ErrorModel::ShapeMismatch {
                            expected: m.expected,
                            name: m.name,
                            position: None,
                            found: m.found,
                        },
                    ),
                ),
            },
        },
    }
}

/// The next state and action of a call, from its state and what happened.
pub open spec fn next(
    params: Seq<(Seq<char>, TypeNode)>,
    ret: Option<TypeNode>,
    env: Seq<TypeNode>,
    state: CallState,
    event: EventModel,
) -> (CallState, ActionModel) {
    match state {
        CallState::Done => (CallState::Done, ActionModel::Idle),
        CallState::Trapped => (CallState::Trapped, ActionModel::Idle),
        CallState::Decoding => match event {
            EventModel::Start(args) => match extract(params, args, env) {
                Ok(xs) => (CallState::Invoking, ActionModel::Invoke(encode_all(xs))),
                Err(e) => (CallState::Trapped, ActionModel::Trap(e)),
            },
            _ => (
                CallState::Trapped,
                ActionModel::Trap(ErrorModel::InternalInconsistency { detail: unexpected_event() }),
            ),
        },
        CallState::Invoking => match event {
            EventModel::Returned(s) => settle(ret, s, env),
            _ => (
                CallState::Trapped,
                ActionModel::Trap(ErrorModel::InternalInconsistency { detail: unexpected_event() }),
            ),
        },
        CallState::Draining => match event {
            EventModel::JobRan(s) => settle(ret, s, env),
            EventModel::QueueEmpty => (
                CallState::Trapped,
                ActionModel::Trap(ErrorModel::InternalInconsistency { detail: never_settled() }),
            ),
            _ => (
                CallState::Trapped,
                ActionModel::Trap(ErrorModel::InternalInconsistency { detail: unexpected_event() }),
            ),
        },
        CallState::Encoding => match event {
            EventModel::Serialized(b) => (CallState::Done, ActionModel::Reply(b)),
            EventModel::SerializeFailed(m) => (
                CallState::Trapped,
                ActionModel::Trap(ErrorModel::InternalInconsistency { detail: m }),
            ),
            _ => (
                CallState::Trapped,
                ActionModel::Trap(ErrorModel::InternalInconsistency { detail: unexpected_event() }),
            ),
        },
    }
}

pub open spec fn ret_view(r: Option<ActDataTypeNode>) -> Option<TypeNode> {
    match r {
        Some(t) => Some(t@),
        None => None,
    }
}

fn internal(detail: &'static str) -> (r: RuntimeError)
    ensures
        r@ == (ErrorModel::InternalInconsistency { detail: detail@ }),
{
    RuntimeError::InternalInconsistency { detail: String::from_str(detail) }
}

fn settle_exec(ret: &Option<ActDataTypeNode>, s: Settlement, env: &Vec<ActDataTypeNode>) -> (r: (
    CallState,
    Action,
))
    ensures
        (r.0, r.1@) == settle(ret_view(*ret), settlement_view(s), views(env@)),
{
    match s {
        Settlement::Pending => (CallState::Draining, Action::RunNextJob),
        Settlement::Raised(m) => (
            CallState::Trapped,
            Action::Trap(RuntimeError::InterpreterException { message: m }),
        ),
        Settlement::Fulfilled(v) => match ret {
            None => (CallState::Encoding, Action::Serialize(StaticValue::Null)),
            Some(t) => match decode_value(t, &v, env, env.len()) {
                Ok(x) => (CallState::Encoding, Action::Serialize(x)),
                Err(m) => (
                    CallState::Trapped,
                    Action::Trap(
                        RuntimeError::ShapeMismatch {
                            expected: m.expected,
                            name: m.name,
                            position: None,
                            found: m.found,
                        },
                    ),
                ),
            },
        },
    }
}

/// Advances a call by one event.  `params` and `ret` are the entry point's
/// signature and `env` the named types its signature refers to.
pub fn step(
    params: &Vec<ActParam>,
    ret: &Option<ActDataTypeNode>,
    env: &Vec<ActDataTypeNode>,
    state: CallState,
    event: Event,
) -> (r: (CallState, Action))
    ensures
        (r.0, r.1@) == next(params_view(params@), ret_view(*ret), views(env@), state, event@),
{
    match state {
        CallState::Done => (CallState::Done, Action::Idle),
        CallState::Trapped => (CallState::Trapped, Action::Idle),
        CallState::Decoding => match event {
            Event::Start(args) => match extract_args(params, &args, env) {
                Ok(xs) => (CallState::Invoking, Action::Invoke(encode_values(&xs))),
                Err(e) => (CallState::Trapped, Action::Trap(e)),
            },
            _ => (CallState::Trapped, Action::Trap(internal("unexpected event"))),
        },
        CallState::Invoking => match event {
            Event::Returned(s) => settle_exec(ret, s, env),
            _ => (CallState::Trapped, Action::Trap(internal("unexpected event"))),
        },
        CallState::Draining => match event {
            Event::JobRan(s) => settle_exec(ret, s, env),
            Event::QueueEmpty => (
                CallState::Trapped,
                Action::Trap(internal("the call's result never settled")),
            ),
            _ => (CallState::Trapped, Action::Trap(internal("unexpected event"))),
        },
        CallState::Encoding => match event {
            Event::Serialized(b) => (CallState::Done, Action::Reply(b)),
            Event::SerializeFailed(m) => (
                CallState::Trapped,
                Action::Trap(RuntimeError::InternalInconsistency { detail: m }),
            ),
            _ => (CallState::Trapped, Action::Trap(internal("unexpected event"))),
        },
    }
}

/// The state a call reaches and the actions it asks for, event by event.
pub open spec fn run(
    params: Seq<(Seq<char>, TypeNode)>,
    ret: Option<TypeNode>,
    env: Seq<TypeNode>,
    state: CallState,
    events: Seq<EventModel>,
) -> (CallState, Seq<ActionModel>)
    decreases events.len(),
{
    if events.len() == 0 {
        (state, Seq::empty())
    } else {
        let (s1, a1) = next(params, ret, env, state, events[0]);
        let (s2, rest) = run(params, ret, env, s1, events.subrange(1, events.len() as int));
        (s2, seq![a1] + rest)
    }
}

pub open spec fn job_events(jobs: Seq<SettlementModel>) -> Seq<EventModel> {
    jobs.map_values(|j: SettlementModel| EventModel::JobRan(j)) + seq![EventModel::QueueEmpty]
}

pub open spec fn is_job_event(e: EventModel) -> bool {
    e is JobRan || e is QueueEmpty
}

/// Once a call has left draining, further job events never bring it back.
proof fn lemma_after_draining(
    params: Seq<(Seq<char>, TypeNode)>,
    ret: Option<TypeNode>,
    env: Seq<TypeNode>,
    state: CallState,
    events: Seq<EventModel>,
)
    requires
        state == CallState::Encoding || state == CallState::Done || state == CallState::Trapped,
        forall|i: int| 0 <= i < events.len() ==> is_job_event(#[trigger] events[i]),
    ensures
        ({
            let s = run(params, ret, env, state, events).0;
            s == CallState::Encoding || s == CallState::Done || s == CallState::Trapped
        }),
    decreases events.len(),
{
    if events.len() > 0 {
        let tail = events.subrange(1, events.len() as int);
        assert forall|i: int| 0 <= i < tail.len() implies is_job_event(#[trigger] tail[i]) by {
            assert(tail[i] == events[i + 1]);
        }
        assert(is_job_event(events[0]));
        let s1 = next(params, ret, env, state, events[0]).0;
        lemma_after_draining(params, ret, env, s1, tail);
    }
}

/// Draining a finite job queue always ends: whatever each job leaves the
/// result as, once the queue is empty the call has moved on to encoding its
/// reply, or has trapped.  If the result is still pending when the queue
/// runs dry, the call traps with an internal inconsistency.
pub proof fn lemma_draining_ends(
    params: Seq<(Seq<char>, TypeNode)>,
    ret: Option<TypeNode>,
    env: Seq<TypeNode>,
    jobs: Seq<SettlementModel>,
)
    ensures
        ({
            let s = run(params, ret, env, CallState::Draining, job_events(jobs)).0;
            s == CallState::Encoding || s == CallState::Done || s == CallState::Trapped
        }),
        (forall|i: int| 0 <= i < jobs.len() ==> #[trigger] jobs[i] is Pending) ==> {
            let (s, acts) = run(params, ret, env, CallState::Draining, job_events(jobs));
            &&& s == CallState::Trapped
            &&& acts.len() == jobs.len() + 1
            &&& acts.last() == ActionModel::Trap(
                ErrorModel::InternalInconsistency { detail: never_settled() },
            )
        },
    decreases jobs.len(),
{
    let evs = job_events(jobs);
    if jobs.len() == 0 {
        assert(evs =~= seq![EventModel::QueueEmpty]);
        assert(evs.subrange(1, 1) =~= Seq::<EventModel>::empty());
        let a1 = ActionModel::Trap(ErrorModel::InternalInconsistency { detail: never_settled() });
        assert(next(params, ret, env, CallState::Draining, evs[0]) == (CallState::Trapped, a1));
        assert(run(params, ret, env, CallState::Trapped, evs.subrange(1, 1)) == (
            CallState::Trapped,
            Seq::<ActionModel>::empty(),
        ));
        assert(run(params, ret, env, CallState::Draining, evs) == (
            CallState::Trapped,
            seq![a1] + Seq::<ActionModel>::empty(),
        ));
        assert(seq![a1] + Seq::<ActionModel>::empty() =~= seq![a1]);
    } else {
        let tail = jobs.subrange(1, jobs.len() as int);
        assert(evs.subrange(1, evs.len() as int) =~= job_events(tail));
        assert(evs[0] == EventModel::JobRan(jobs[0]));
        lemma_draining_ends(params, ret, env, tail);
        let (s1, a1) = next(params, ret, env, CallState::Draining, evs[0]);
        let (s2, rest) = run(params, ret, env, s1, job_events(tail));
        assert(run(params, ret, env, CallState::Draining, evs) == (s2, seq![a1] + rest));
        if s1 != CallState::Draining {
            assert forall|i: int| 0 <= i < job_events(tail).len() implies is_job_event(
                #[trigger] job_events(tail)[i],
            ) by {
                if i < tail.len() {
                    assert(job_events(tail)[i] == EventModel::JobRan(tail[i]));
                } else {
                    assert(job_events(tail)[i] == EventModel::QueueEmpty);
                }
            }
            lemma_after_draining(params, ret, env, s1, job_events(tail));
        }
        if forall|i: int| 0 <= i < jobs.len() ==> #[trigger] jobs[i] is Pending {
            assert(jobs[0] is Pending);
            assert forall|i: int| 0 <= i < tail.len() implies #[trigger] tail[i] is Pending by {
                assert(tail[i] == jobs[i + 1]);
            }
            assert(s1 == CallState::Draining);
            assert((seq![a1] + rest).last() == rest.last());
        }
    }
}

/// A second call began while one was still running on the interpreter.
#[derive(Debug, PartialEq, Eq, Structural)]
pub struct ReentrantCall;

/// The interpreter's execution context belongs to one call at a time.
pub struct InterpreterLease {
    busy: bool,
}

impl InterpreterLease {
    pub closed spec fn in_call(&self) -> bool {
        self.busy
    }

    pub fn new() -> (r: InterpreterLease)
        ensures
            !r.in_call(),
    {
        InterpreterLease { busy: false }
    }

    /// Takes the context for a new call; refused while another call holds it.
    pub fn begin_call(&mut self) -> (r: Result<(), ReentrantCall>)
        ensures
            old(self).in_call() ==> r == Err::<(), ReentrantCall>(ReentrantCall) && final(self).in_call(),
            !old(self).in_call() ==> r == Ok::<(), ReentrantCall>(()) && final(self).in_call(),
    {
        if self.busy {
            Err(ReentrantCall)
        } else {
            self.busy = true;
            Ok(())
        }
    }

    /// Gives the context back when the call is done or trapped.
    pub fn end_call(&mut self)
        ensures
            !final(self).in_call(),
    {
        self.busy = false;
    }
}

} // verus!
