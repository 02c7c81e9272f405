//! Small runtime plugins: a finite state machine, a behaviour tree, and
//! request/socket bookkeeping for data bindings.
use vstd::prelude::*;
use vstd::string::StringExecFns;
use crate::value::{owned, str_eq, Keyed};

verus! {

broadcast use vstd::std_specs::vec::group_vec_axioms;

/// One transition of a state machine.
#[derive(Debug)]
pub struct Transition {
    pub from: String,
    pub event: String,
    pub to: String,
}

/// The state a machine moves to from `from` on `event`: the transition added
/// last for that pair.
pub open spec fn next_state(ts: Seq<Transition>, from: Seq<char>, event: Seq<char>) -> Option<Seq<char>>
    decreases ts.len(),
{
    if ts.len() == 0 {
        None
    } else if ts.last().from@ == from && ts.last().event@ == event {
        Some(ts.last().to@)
    } else {
        next_state(ts.drop_last(), from, event)
    }
}

/// A finite state machine over named states and events.
#[derive(Debug)]
pub struct StateMachinePlugin {
    pub current_state: String,
    pub transitions: Vec<Transition>,
}

impl StateMachinePlugin {
    pub fn new(initial: &str) -> (r: StateMachinePlugin)
        ensures
            r.current_state@ == initial@,
            r.transitions@.len() == 0,
    {
        StateMachinePlugin { current_state: owned(initial), transitions: Vec::new() }
    }

    /// Adds (or replaces) the transition from `from` on `event`.
    pub fn add_transition(&mut self, from: &str, event: &str, to: &str)
        ensures
            final(self).current_state == old(self).current_state,
            next_state(final(self).transitions@, from@, event@) == Some(to@),
            forall|f: Seq<char>, e: Seq<char>|
                !(f == from@ && e == event@) ==> #[trigger] next_state(final(self).transitions@, f, e)
                    == next_state(old(self).transitions@, f, e),
    {
        self.transitions.push(Transition { from: owned(from), event: owned(event), to: owned(to) });
        proof {
            assert(self.transitions@.drop_last() =~= old(self).transitions@);
        }
    }

    /// Fires `event`: moves along its transition from the current state, if any.
    pub fn trigger(&mut self, event: &str) -> (r: bool)
        ensures
            final(self).transitions == old(self).transitions,
            r == (next_state(old(self).transitions@, old(self).current_state@, event@) is Some),
            r ==> final(self).current_state@ == next_state(old(self).transitions@, old(self).current_state@, event@)->0,
            !r ==> final(self).current_state == old(self).current_state,
    {
        let ghost ts = self.transitions@;
        let mut i: usize = self.transitions.len();
        proof {
            assert(ts.subrange(0, ts.len() as int) =~= ts);
        }
        while i > 0
            invariant
                ts == self.transitions@,
                self.transitions == old(self).transitions,
                self.current_state == old(self).current_state,
                i <= ts.len(),
                next_state(ts, self.current_state@, event@) == next_state(ts.subrange(0, i as int), self.current_state@, event@),
            decreases i,
        {
            let t = &self.transitions[i - 1];
            proof {
                assert(ts.subrange(0, i as int).drop_last() =~= ts.subrange(0, i - 1));
            }
            if str_eq(t.from.as_str(), self.current_state.as_str()) && str_eq(t.event.as_str(), event) {
                self.current_state = t.to.clone();
                return true;
            }
            i = i - 1;
        }
        proof {
            assert(ts.subrange(0, 0) =~= Seq::<Transition>::empty());
        }
        false
    }
}

/// What a behaviour-tree node reports.
#[derive(Clone, Copy, Debug, PartialEq, Eq, Structural)]
pub enum Status {
    Success,
    Failure,
    Running,
}

/// A leaf: succeeds when its configured result is success, else fails.
#[derive(Debug)]
pub struct Action {
    pub name: String,
    pub result: Status,
}

/// Runs its children in order and stops at the first that does not succeed.
#[derive(Debug)]
pub struct Sequence {
    pub children: Vec<BehaviorNode>,
}

/// A node of a behaviour tree.
#[derive(Debug)]
pub enum BehaviorNode {
    Action(Action),
    Sequence(Sequence),
}

/// What a node reports when ticked.
pub open spec fn tick_of(n: BehaviorNode) -> Status
    decreases n, 0int,
{
    match n {
        BehaviorNode::Action(a) => if a.result == Status::Success {
            Status::Success
        } else {
            Status::Failure
        },
        BehaviorNode::Sequence(s) => sequence_from(s, 0),
    }
}

/// What a sequence reports from its child `i` on.
pub open spec fn sequence_from(s: Sequence, i: int) -> Status
    decreases s, s.children@.len() - i,
{
    if 0 <= i < s.children@.len() {
        let c = tick_of(s.children@[i]);
        if c == Status::Success {
            sequence_from(s, i + 1)
        } else {
            c
        }
    } else {
        Status::Success
    }
}

/// A node that can be ticked.
pub trait Node {
    spec fn status(&self) -> Status;

    fn tick(&self) -> (r: Status)
        ensures
            r == self.status(),
    ;
}

impl Node for Action {
    open spec fn status(&self) -> Status {
        tick_of(BehaviorNode::Action(*self))
    }

    fn tick(&self) -> (r: Status) {
        match self.result {
            Status::Success => Status::Success,
            _ => Status::Failure,
        }
    }
}

impl BehaviorNode {
    /// Ticks this node.
    pub fn tick_node(&self) -> (r: Status)
        ensures
            r == tick_of(*self),
        decreases self, 0int,
    {
        match self {
            BehaviorNode::Action(a) => a.tick(),
            BehaviorNode::Sequence(s) => s.run_from(0),
        }
    }
}

impl Sequence {
    /// Ticks children from `i` on, stopping at the first that does not succeed.
    pub fn run_from(&self, i: usize) -> (r: Status)
        ensures
            r == sequence_from(*self, i as int),
        decreases self, self.children@.len() - i,
    {
        if i >= self.children.len() {
            return Status::Success;
        }
        let c = self.children[i].tick_node();
        if c == Status::Success {
            self.run_from(i + 1)
        } else {
            c
        }
    }
}

impl Node for Sequence {
    open spec fn status(&self) -> Status {
        sequence_from(*self, 0)
    }

    fn tick(&self) -> (r: Status) {
        self.run_from(0)
    }
}

/// Holds the root of a behaviour tree and ticks it.
#[derive(Debug)]
pub struct BehaviorTreePlugin {
    pub root: Option<BehaviorNode>,
}

impl BehaviorTreePlugin {
    pub fn new() -> (r: BehaviorTreePlugin)
        ensures
            r.root is None,
    {
        BehaviorTreePlugin { root: None }
    }

    pub fn set_root(&mut self, node: BehaviorNode)
        ensures
            final(self).root == Some(node),
    {
        self.root = Some(node);
    }

    /// The root's status; none without a root.
    pub fn tick(&self) -> (r: Option<Status>)
        ensures
            r == match self.root {
                Some(n) => Some(tick_of(n)),
                None => None,
            },
    {
        match &self.root {
            Some(n) => Some(n.tick_node()),
            None => None,
        }
    }
}

/// Endpoints bound to data keys, and the responses received for them.
#[derive(Debug)]
pub struct RestAPIPlugin {
    pub endpoints: Keyed<String>,
    pub cache: Keyed<String>,
}

impl RestAPIPlugin {
    pub fn new() -> (r: RestAPIPlugin)
        ensures
            r.endpoints.wf(),
            r.cache.wf(),
            r.endpoints@ == Map::<Seq<char>, Seq<char>>::empty(),
            r.cache@ == Map::<Seq<char>, Seq<char>>::empty(),
    {
        RestAPIPlugin { endpoints: Keyed::new(), cache: Keyed::new() }
    }

    /// Binds `key` to `url`.
    pub fn register_endpoint(&mut self, key: &str, url: &str)
        requires
            old(self).endpoints.wf(),
        ensures
            final(self).endpoints.wf(),
            final(self).endpoints@ == old(self).endpoints@.insert(key@, url@),
            final(self).cache == old(self).cache,
    {
        self.endpoints.insert(owned(key), owned(url));
    }

    /// Records the response for `key`, as if its fetch had completed.
    pub fn mock_fetch_complete(&mut self, key: &str, json_response: &str)
        requires
            old(self).cache.wf(),
        ensures
            final(self).cache.wf(),
            final(self).cache@ == old(self).cache@.insert(key@, json_response@),
            final(self).endpoints == old(self).endpoints,
    {
        self.cache.insert(owned(key), owned(json_response));
    }
}

/// A socket's connection status and the messages sent and received.
#[derive(Debug)]
pub struct WebSocketPlugin {
    pub status: String,
    pub message_queue: Vec<String>,
}

impl WebSocketPlugin {
    pub fn new() -> (r: WebSocketPlugin)
        ensures
            r.status@ == "Disconnected"@,
            r.message_queue@.len() == 0,
    {
        WebSocketPlugin { status: owned("Disconnected"), message_queue: Vec::new() }
    }

    pub fn connect(&mut self, _url: &str)
        ensures
            final(self).status@ == "Connected"@,
            final(self).message_queue == old(self).message_queue,
    {
        self.status = owned("Connected");
    }

    /// Queues "OUT: msg" when connected; does nothing otherwise.
    pub fn send(&mut self, msg: &str)
        ensures
            final(self).status == old(self).status,
            old(self).status@ == "Connected"@ ==> crate::document::strings_view(final(self).message_queue@)
                == crate::document::strings_view(old(self).message_queue@).push("OUT: "@ + msg@),
            old(self).status@ != "Connected"@ ==> final(self).message_queue == old(self).message_queue,
    {
        if str_eq(self.status.as_str(), "Connected") {
            let mut m = owned("OUT: ");
            m.append(msg);
            proof {
                crate::document::lemma_sv_push(self.message_queue@, m);
            }
            self.message_queue.push(m);
        }
    }

    /// Queues "IN: msg".
    pub fn receive_mock(&mut self, msg: &str)
        ensures
            final(self).status == old(self).status,
            crate::document::strings_view(final(self).message_queue@) == crate::document::strings_view(
                old(self).message_queue@,
            ).push("IN: "@ + msg@),
    {
        let mut m = owned("IN: ");
        m.append(msg);
        proof {
            crate::document::lemma_sv_push(self.message_queue@, m);
        }
        self.message_queue.push(m);
    }
}

} // verus!
