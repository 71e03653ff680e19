use vstd::prelude::*;

use crate::conf::Child;

verus! {

/// A request sent to an agent.
#[derive(Clone, Debug)]
pub enum Message {
    /// Polite shutdown: the agent acknowledges, then ends the connection.
    Stop,
    /// Get the value carried by this agent.
    ///
    /// Response is `Response::Certificate(Certificate)`.
    GetValue,
    /// Ask the agent to canvass the listed peers and return its allies.
    ///
    /// Response is `Response::Quorum(...)`.
    Campaign(Vec<Child>),
}

/// An agent's answer to a `Message`.
#[derive(Clone, Debug)]
pub enum Response {
    Stop,
    Certificate(Certificate),
    Quorum(Vec<Certificate>),
}

/// Representation of an unforgeable response: `issuer` answered `value`.
///
/// Unforgeability is a property of the transport and is not checked here; the
/// consensus laws take it as a hypothesis (every certificate of a party is one
/// that an agent of the configuration actually issues).
#[derive(Clone, Copy, Debug, PartialEq, Eq, Structural)]
pub struct Certificate {
    pub value: bool,
    pub issuer: Child,
}

/// The certificates among `replies` that agree with `claim`, in order.
pub open spec fn agreeing(claim: bool, replies: Seq<Response>) -> Seq<Certificate>
    decreases replies.len(),
{
    if replies.len() == 0 {
        Seq::empty()
    } else {
        let rest = agreeing(claim, replies.drop_last());
        match replies.last() {
            Response::Certificate(c) => if c.value == claim {
                rest.push(c)
            } else {
                rest
            },
            _ => rest,
        }
    }
}

/// Every certificate that `agreeing` keeps carries `claim`.
pub proof fn lemma_agreeing_values(claim: bool, replies: Seq<Response>)
    ensures
        forall|i: int|
            0 <= i < agreeing(claim, replies).len() ==> #[trigger] agreeing(claim, replies)[i].value
                == claim,
    decreases replies.len(),
{
    if replies.len() > 0 {
        let rest = agreeing(claim, replies.drop_last());
        lemma_agreeing_values(claim, replies.drop_last());
        assert forall|i: int| 0 <= i < agreeing(claim, replies).len() implies #[trigger] agreeing(
            claim,
            replies,
        )[i].value == claim by {
            if i < rest.len() {
                assert(rest[i].value == claim);
            }
        }
    }
}

/// The party assembled by a campaign: the certificates among the peers'
/// replies whose value equals the campaigner's own claim. Replies of any other
/// kind, and disagreeing certificates, are dropped.
pub fn campaign_party(claim: bool, replies: &Vec<Response>) -> (party: Vec<Certificate>)
    ensures
        party@ == agreeing(claim, replies@),
        forall|i: int| 0 <= i < party.len() ==> #[trigger] party[i].value == claim,
{
    let mut party: Vec<Certificate> = Vec::new();
    let mut i: usize = 0;
    while i < replies.len()
        invariant
            i <= replies.len(),
            party@ == agreeing(claim, replies@.take(i as int)),
        decreases replies.len() - i,
    {
        assert(replies@.take(i as int + 1).drop_last() == replies@.take(i as int));
        match &replies[i] {
            Response::Certificate(c) => {
                if c.value == claim {
                    party.push(*c);
                }
            },
            _ => {},
        }
        i = i + 1;
    }
    assert(replies@.take(replies.len() as int) == replies@);
    proof {
        lemma_agreeing_values(claim, replies@);
    }
    party
}

/// How many times a client tries to connect to an agent before giving up.
pub const MAX_RETRIES: usize = 10;

/// An agent running in another process.
#[derive(Clone, Copy, Debug)]
pub struct RemoteAgent {
    pub conf: Child,
}

impl RemoteAgent {
    pub fn new(conf: Child) -> (r: Self)
        ensures
            r.conf == conf,
    {
        RemoteAgent { conf }
    }

    /// After connection attempt `attempt` (counted from 0) failed: the number
    /// of seconds to wait before the next attempt, or `None` when all
    /// `MAX_RETRIES` attempts are spent and the last error is reported.
    pub fn connect_backoff(attempt: usize) -> (r: Option<u64>)
        ensures
            r == if attempt + 1 < MAX_RETRIES {
                Some(attempt as u64)
            } else {
                None::<u64>
            },
    {
        if attempt < MAX_RETRIES - 1 {
            Some(attempt as u64)
        } else {
            None
        }
    }
}

/// Arguments of an agent process: the claim it carries.
#[derive(Clone, Copy, Debug)]
pub struct AgentArgs {
    pub value: bool,
}

/// Where a connection handler stands.
#[derive(Clone, Copy, Debug, PartialEq, Eq, Structural)]
pub enum Phase {
    /// Waiting for the next request.
    Serving,
    /// A campaign was requested; the peers' replies are awaited.
    Campaigning,
    /// The connection is over: no request is answered any more.
    Closed,
}

/// What the connection handler must do next.
#[derive(Debug)]
pub enum Action {
    /// Send this response and keep serving.
    Reply(Response),
    /// Send this response, then end the connection.
    ReplyAndClose(Response),
    /// Ask every listed peer for its value, then report the replies with
    /// `Session::on_canvass_done`.
    Canvass(Vec<Child>),
    /// End the connection without answering.
    Close,
}

/// One connection to an agent, from the agent's side: the decisions of the
/// request handler, independent of the socket that carries them.
#[derive(Debug)]
pub struct Session {
    pub claim: bool,
    pub identity: Child,
    pub phase: Phase,
}

impl Session {
    /// The certificate this agent issues.
    pub open spec fn certificate(self) -> Certificate {
        Certificate { value: self.claim, issuer: self.identity }
    }

    pub open spec fn with_phase(self, phase: Phase) -> Session {
        Session { claim: self.claim, identity: self.identity, phase }
    }

    /// The state and action that follow a request.
    pub open spec fn after_request(self, msg: Message) -> (Session, Action) {
        match self.phase {
            Phase::Serving => match msg {
                Message::GetValue => (self, Action::Reply(Response::Certificate(self.certificate()))),
                Message::Stop => (self.with_phase(Phase::Closed), Action::ReplyAndClose(Response::Stop)),
                Message::Campaign(peers) => (self.with_phase(Phase::Campaigning), Action::Canvass(peers)),
            },
            _ => (self.with_phase(Phase::Closed), Action::Close),
        }
    }

    /// A fresh connection to the agent with this claim and identity.
    pub fn new(claim: bool, identity: Child) -> (s: Session)
        ensures
            s.claim == claim,
            s.identity == identity,
            s.phase == Phase::Serving,
    {
        Session { claim, identity, phase: Phase::Serving }
    }

    /// Handles one decoded request.
    ///
    /// `GetValue` is answered with the agent's own certificate, `Stop` is
    /// acknowledged and ends the connection, and `Campaign` asks the caller to
    /// canvass the peers. Once the connection is closed, or while a campaign is
    /// pending, a request ends the connection unanswered.
    pub fn on_request(&mut self, msg: Message) -> (r: Action)
        ensures
            (*final(self), r) == old(self).after_request(msg),
    {
        match self.phase {
            Phase::Serving => match msg {
                Message::GetValue => Action::Reply(
                    Response::Certificate(Certificate { value: self.claim, issuer: self.identity }),
                ),
                Message::Stop => {
                    self.phase = Phase::Closed;
                    Action::ReplyAndClose(Response::Stop)
                },
                Message::Campaign(peers) => {
                    self.phase = Phase::Campaigning;
                    Action::Canvass(peers)
                },
            },
            _ => {
                self.phase = Phase::Closed;
                Action::Close
            },
        }
    }

    /// Handles the replies gathered for a pending campaign: the response is the
    /// party of the certificates that agree with this agent's claim. Without a
    /// pending campaign the connection ends unanswered.
    pub fn on_canvass_done(&mut self, replies: &Vec<Response>) -> (r: Action)
        ensures
            old(self).phase == Phase::Campaigning ==> {
                &&& *final(self) == old(self).with_phase(Phase::Serving)
                &&& r matches Action::Reply(Response::Quorum(party))
                &&& party@ == agreeing(old(self).claim, replies@)
                &&& forall|i: int| 0 <= i < party.len() ==> #[trigger] party[i].value == old(self).claim
            },
            old(self).phase != Phase::Campaigning ==> {
                &&& *final(self) == old(self).with_phase(Phase::Closed)
                &&& r is Close
            },
    {
        if self.phase == Phase::Campaigning {
            self.phase = Phase::Serving;
            Action::Reply(Response::Quorum(campaign_party(self.claim, replies)))
        } else {
            self.phase = Phase::Closed;
            Action::Close
        }
    }

    /// The connection was closed by the peer, or reading, decoding or writing
    /// failed: the handler stops.
    pub fn on_disconnect(&mut self)
        ensures
            *final(self) == old(self).with_phase(Phase::Closed),
    {
        self.phase = Phase::Closed;
    }
}

/// Asking an agent for its value twice in a row gives the same certificate,
/// its own claim under its own identity, and leaves the connection as it was.
pub proof fn lemma_get_value_idempotent(s: Session)
    requires
        s.phase == Phase::Serving,
    ensures
        ({
            let (s1, a1) = s.after_request(Message::GetValue);
            let (s2, a2) = s1.after_request(Message::GetValue);
            &&& s1 == s
            &&& s2 == s
            &&& a1 == a2
            &&& a1 == Action::Reply(Response::Certificate(s.certificate()))
        }),
{
}

/// Once `Stop` is acknowledged the connection is closed, and it stays closed:
/// whatever requests follow, none is answered.
pub proof fn lemma_stop_ends_session(s: Session)
    requires
        s.phase == Phase::Serving,
    ensures
        ({
            let (s1, a1) = s.after_request(Message::Stop);
            &&& a1 is ReplyAndClose
            &&& a1->ReplyAndClose_0 is Stop
            &&& s1.phase == Phase::Closed
            &&& forall|m: Message| #[trigger] s1.after_request(m) == (s1, Action::Close)
        }),
{
    let s1 = s.with_phase(Phase::Closed);
    assert forall|m: Message| #[trigger] s1.after_request(m) == (s1, Action::Close) by {
        assert(s1.with_phase(Phase::Closed) == s1);
    }
}

} // verus!
