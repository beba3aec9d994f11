//! The transitions of the replicated state machine: writes to an engine that
//! a cluster agrees on before they are applied.

use crate::engine::{found_view, lookup, KvsEngine};
use crate::error::KvsError;
use vstd::prelude::*;
use vstd::string::StringExecFns;

verus! {

/// What a transition does to the engine.
#[derive(Clone, Debug)]
pub enum DbOpType {
    /// Set the key to the value.
    Put(String, String),
    /// Remove the key.
    Delete(String),
    /// Do nothing.
    Noop,
}

/// A transition of the state machine.
#[derive(Clone, Debug)]
pub struct DbOp {
    /// The number by which the cluster knows the transition.
    pub id: usize,
    /// What the transition does.
    pub op_type: DbOpType,
}

impl DbOp {
    /// The number by which the cluster knows the transition.
    pub fn get_id(&self) -> (id: usize)
        ensures
            id == self.id,
    {
        self.id
    }
}

/// Applies a transition to the engine and hands on what the engine answers.
pub fn apply_transition<E: KvsEngine>(engine: &mut E, transition: DbOp) -> (out: Result<
    (),
    KvsError,
>)
    requires
        old(engine).valid(),
    ensures
        final(engine).valid(),
        match transition.op_type {
            DbOpType::Put(key, value) => match out {
                Ok(()) => final(engine).contents() == old(engine).contents().insert(key@, value@),
                Err(_) => final(engine).contents() == old(engine).contents(),
            },
            DbOpType::Delete(key) => match out {
                Ok(()) => old(engine).contents().contains_key(key@) && final(engine).contents()
                    == old(engine).contents().remove(key@),
                Err(e) => final(engine).contents() == old(engine).contents() && (e is KeyNotFound
                    <==> !old(engine).contents().contains_key(key@)),
            },
            DbOpType::Noop => out is Ok && final(engine).contents() == old(engine).contents(),
        },
{
    match transition.op_type {
        DbOpType::Put(key, value) => engine.set(key, value),
        DbOpType::Delete(key) => engine.remove(key),
        DbOpType::Noop => Ok(()),
    }
}

/// Whether the replica `id` leads once the cluster has registered
/// `leader_id` as its leader.
pub fn is_leader(id: usize, leader_id: Option<usize>) -> (leads: bool)
    ensures
        leads == (leader_id == Some(id)),
{
    match leader_id {
        Some(leader) => leader == id,
        None => false,
    }
}

/// Hands out the transitions that wait to be proposed and leaves none
/// waiting.
pub fn take_pending(pending: &mut Vec<DbOp>) -> (out: Vec<DbOp>)
    ensures
        out@ == old(pending)@,
        final(pending)@.len() == 0,
{
    let mut out: Vec<DbOp> = Vec::new();
    std::mem::swap(pending, &mut out);
    out
}

/// What the control plane answers to a request.
#[derive(Debug, PartialEq, Eq)]
pub enum Reply {
    /// The request was carried out; the text is its result.
    Done(String),
    /// The request lacks a parameter.
    BadRequest,
    /// The engine has failed.
    InternalError,
    /// The transition was not applied in time.
    Timeout,
}

/// A reply by what it holds.
pub enum ReplyView {
    /// The result of a request that was carried out.
    Done(Seq<char>),
    /// The request lacks a parameter.
    BadRequest,
    /// The engine has failed.
    InternalError,
    /// The transition was not applied in time.
    Timeout,
}

impl View for Reply {
    type V = ReplyView;

    open spec fn view(&self) -> ReplyView {
        match *self {
            Reply::Done(text) => ReplyView::Done(text@),
            Reply::BadRequest => ReplyView::BadRequest,
            Reply::InternalError => ReplyView::InternalError,
            Reply::Timeout => ReplyView::Timeout,
        }
    }
}

/// Answers a request for the value of a key from the local engine: the value
/// on a hit, the words `Key not found` on a miss.
pub fn get_reply<E: KvsEngine>(engine: &E, key: Option<String>) -> (reply: Reply)
    requires
        engine.valid(),
    ensures
        match key {
            None => reply@ == ReplyView::BadRequest,
            Some(key) => reply@ is InternalError || reply@ == (match lookup(
                engine.contents(),
                key@,
            ) {
                Some(value) => ReplyView::Done(value),
                None => ReplyView::Done("Key not found"@),
            }),
        },
{
    match key {
        None => Reply::BadRequest,
        Some(key) => match engine.get(key) {
            Ok(Some(value)) => Reply::Done(value),
            Ok(None) => Reply::Done(String::from_str("Key not found")),
            Err(_) => Reply::InternalError,
        },
    }
}

/// What the control plane does with a request to set a key.
#[derive(Debug)]
pub enum SetPlan {
    /// Answer at once.
    Answer(Reply),
    /// Propose the transition to the cluster and wait until it is applied.
    Propose(DbOp),
}

/// Plans a request to set a key.  A replica that does not lead answers `Not
/// leader`; a request without key or value is a bad request; otherwise the
/// write is proposed under the next number of the counter.
pub fn plan_set(leads: bool, key: Option<String>, val: Option<String>, counter: &mut usize) -> (plan:
    SetPlan)
    requires
        *old(counter) < usize::MAX,
    ensures
        match plan {
            SetPlan::Answer(reply) => {
                &&& *final(counter) == *old(counter)
                &&& if !leads {
                    reply@ == ReplyView::Done("Not leader"@)
                } else {
                    reply@ == ReplyView::BadRequest && (key is None || val is None)
                }
            },
            SetPlan::Propose(op) => {
                &&& leads
                &&& *final(counter) == *old(counter) + 1
                &&& op.id == *final(counter)
                &&& key matches Some(k)
                &&& val matches Some(v)
                &&& op.op_type matches DbOpType::Put(key, value)
                &&& key@ == k@
                &&& value@ == v@
            },
        },
{
    if !leads {
        return SetPlan::Answer(Reply::Done(String::from_str("Not leader")));
    }
    match (key, val) {
        (Some(key), Some(val)) => {
            *counter = *counter + 1;
            SetPlan::Propose(DbOp { id: *counter, op_type: DbOpType::Put(key, val) })
        },
        _ => SetPlan::Answer(Reply::BadRequest),
    }
}

/// What a request that waits for its transition learns.
#[derive(Debug)]
pub enum SetEvent {
    /// A transition was applied, or the channel that tells of it has failed.
    Applied(Option<usize>),
    /// The time to wait is over.
    TimedOut,
}

/// What a waiting request answers on an event, `None` where it waits on: it
/// is done once its own transition is applied, and gives up when the time is
/// over.
pub fn set_reply(id: usize, event: SetEvent) -> (reply: Option<Reply>)
    ensures
        match event {
            SetEvent::Applied(applied) => if applied == Some(id) {
                reply matches Some(r) && r@ == ReplyView::Done("OK"@)
            } else {
                reply is None
            },
            SetEvent::TimedOut => reply matches Some(r) && r@ == ReplyView::Timeout,
        },
{
    match event {
        SetEvent::Applied(Some(applied)) => {
            if applied == id {
                Some(Reply::Done(String::from_str("OK")))
            } else {
                None
            }
        },
        SetEvent::Applied(None) => None,
        SetEvent::TimedOut => Some(Reply::Timeout),
    }
}

/// The replicas of the cluster other than `id`, in their order.
pub fn peer_ids(id: usize, replicas: &Vec<usize>) -> (peers: Vec<usize>)
    ensures
        peers@ == replicas@.filter(|replica: usize| replica != id),
{
    let mut peers: Vec<usize> = Vec::new();
    let mut i: usize = 0;
    proof {
        reveal(Seq::filter);
    }
    while i < replicas.len()
        invariant
            i <= replicas.len(),
            peers@ == replicas@.take(i as int).filter(|replica: usize| replica != id),
        decreases replicas.len() - i,
    {
        proof {
            reveal(Seq::filter);
            assert(replicas@.take(i + 1).drop_last() =~= replicas@.take(i as int));
        }
        if replicas[i] != id {
            peers.push(replicas[i]);
        }
        i = i + 1;
    }
    assert(replicas@.take(replicas.len() as int) =~= replicas@);
    peers
}

} // verus!
