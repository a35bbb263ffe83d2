//! Session handshake state machine.
//!
//! A session performs up to three exchanges, strictly in this order:
//! `AUTH <key>` (only when a non-empty credential is configured),
//! `SET_MACHINE_TYPE <type>`, and `SET_MACHINE_NAME <name>`. Every step has
//! exactly one attempt; any unexpected reply is terminal. An empty machine
//! type or name is a local validation failure and is never transmitted.

use vstd::prelude::*;

verus! {

use vstd::string::StringExecFns;
use crate::text::str_eq;

/// Why a handshake ended before reaching `Ready`.
#[derive(Debug, Clone, Copy, PartialEq, Eq, Structural)]
pub enum HandshakeFailure {
    /// The server rejected the credential (`INV_AUTH_KEY`).
    InvalidAuthKey,
    /// The server demanded authentication first (`AUTH_REQUIRED`).
    AuthRequired,
    /// The server rejected the machine type (`INV_MACHINE_TYPE`).
    InvalidMachineType,
    /// The server answered with a token this protocol does not know.
    UnexpectedResponse,
    /// The configured machine type is empty; nothing was sent.
    EmptyMachineType,
    /// The configured machine name is empty; nothing was sent.
    EmptyMachineName,
}

/// Progress of the handshake. Transitions only move forward; there are no
/// retries.
#[derive(Debug, Clone, Copy, PartialEq, Eq, Structural)]
pub enum HandshakeState {
    Unauthenticated,
    Authenticated,
    TypeSet,
    Ready,
    Failed(HandshakeFailure),
}

/// The authentication request line.
pub open spec fn auth_msg(key: Seq<char>) -> Seq<char> {
    "AUTH "@ + key
}

/// The machine-type declaration line.
pub open spec fn set_type_msg(t: Seq<char>) -> Seq<char> {
    "SET_MACHINE_TYPE "@ + t
}

/// The machine-name declaration line.
pub open spec fn set_name_msg(n: Seq<char>) -> Seq<char> {
    "SET_MACHINE_NAME "@ + n
}

/// How a reply to `AUTH` moves the state.
pub open spec fn auth_transition(reply: Seq<char>) -> HandshakeState {
    if reply == "AUTH_OK"@ || reply == "UNTRUSTED_MODE"@ {
        HandshakeState::Authenticated
    } else if reply == "INV_AUTH_KEY"@ {
        HandshakeState::Failed(HandshakeFailure::InvalidAuthKey)
    } else {
        HandshakeState::Failed(HandshakeFailure::UnexpectedResponse)
    }
}

/// How a reply to `SET_MACHINE_TYPE` moves the state.
pub open spec fn type_transition(reply: Seq<char>) -> HandshakeState {
    if reply == "CMD_OK"@ {
        HandshakeState::TypeSet
    } else if reply == "AUTH_REQUIRED"@ {
        HandshakeState::Failed(HandshakeFailure::AuthRequired)
    } else if reply == "INV_MACHINE_TYPE"@ {
        HandshakeState::Failed(HandshakeFailure::InvalidMachineType)
    } else {
        HandshakeState::Failed(HandshakeFailure::UnexpectedResponse)
    }
}

/// How a reply to `SET_MACHINE_NAME` moves the state.
pub open spec fn name_transition(reply: Seq<char>) -> HandshakeState {
    if reply == "CMD_OK"@ {
        HandshakeState::Ready
    } else {
        HandshakeState::Failed(HandshakeFailure::UnexpectedResponse)
    }
}

/// The state a reply moves the handshake to. Replies arriving when nothing
/// was asked (`Ready` or `Failed`) change nothing.
pub open spec fn transition(state: HandshakeState, reply: Seq<char>) -> HandshakeState {
    match state {
        HandshakeState::Unauthenticated => auth_transition(reply),
        HandshakeState::Authenticated => type_transition(reply),
        HandshakeState::TypeSet => name_transition(reply),
        HandshakeState::Ready => HandshakeState::Ready,
        HandshakeState::Failed(r) => HandshakeState::Failed(r),
    }
}

/// The state a fresh handshake starts in: authentication is required only
/// when a non-empty credential is configured.
pub open spec fn initial_state(key: Seq<char>) -> HandshakeState {
    if key.len() == 0 {
        HandshakeState::Authenticated
    } else {
        HandshakeState::Unauthenticated
    }
}

/// The full sequence of lines an uninterrupted handshake sends, in order.
pub open spec fn planned_messages(key: Seq<char>, t: Seq<char>, n: Seq<char>) -> Seq<Seq<char>> {
    if key.len() == 0 {
        seq![set_type_msg(t), set_name_msg(n)]
    } else {
        seq![auth_msg(key), set_type_msg(t), set_name_msg(n)]
    }
}

/// A handshake in progress: the configured identity plus how far the
/// exchanges have come.
pub struct Handshake {
    pub state: HandshakeState,
    pub authkey: String,
    pub machine_type: String,
    pub machine_name: String,
}

/// What the driver of a handshake should do next.
pub enum HandshakeStep {
    /// Send this line and feed the reply to `apply_reply`.
    Send(String),
    /// The handshake is complete; the session is ready.
    Done,
    /// The handshake ended; the connection must be shut down.
    Halt(HandshakeFailure),
}

impl Handshake {
    /// Starts a handshake for the given identity. With an empty credential
    /// the authentication exchange is skipped entirely.
    pub fn new(authkey: String, machine_type: String, machine_name: String) -> (h: Self)
        ensures
            h.state == initial_state(authkey@),
            h.authkey@ == authkey@,
            h.machine_type@ == machine_type@,
            h.machine_name@ == machine_name@,
    {
        let state = if authkey.as_str().is_empty() {
            HandshakeState::Authenticated
        } else {
            HandshakeState::Unauthenticated
        };
        Handshake { state, authkey, machine_type, machine_name }
    }

    /// The next action: the line of the pending step, completion, or the
    /// reason the handshake cannot go on. An empty machine type or name
    /// halts the handshake locally, before anything is sent.
    pub fn next_step(&mut self) -> (r: HandshakeStep)
        ensures
            final(self).authkey@ == old(self).authkey@,
            final(self).machine_type@ == old(self).machine_type@,
            final(self).machine_name@ == old(self).machine_name@,
            match old(self).state {
                HandshakeState::Unauthenticated => r matches HandshakeStep::Send(m) && m@
                    == auth_msg(old(self).authkey@) && final(self).state == old(self).state,
                HandshakeState::Authenticated => {
                    if old(self).machine_type@.len() == 0 {
                        &&& r matches HandshakeStep::Halt(f) && f
                            == HandshakeFailure::EmptyMachineType
                        &&& final(self).state == HandshakeState::Failed(
                            HandshakeFailure::EmptyMachineType,
                        )
                    } else {
                        &&& r matches HandshakeStep::Send(m) && m@ == set_type_msg(
                            old(self).machine_type@,
                        )
                        &&& final(self).state == old(self).state
                    }
                },
                HandshakeState::TypeSet => {
                    if old(self).machine_name@.len() == 0 {
                        &&& r matches HandshakeStep::Halt(f) && f
                            == HandshakeFailure::EmptyMachineName
                        &&& final(self).state == HandshakeState::Failed(
                            HandshakeFailure::EmptyMachineName,
                        )
                    } else {
                        &&& r matches HandshakeStep::Send(m) && m@ == set_name_msg(
                            old(self).machine_name@,
                        )
                        &&& final(self).state == old(self).state
                    }
                },
                HandshakeState::Ready => r matches HandshakeStep::Done && final(self).state
                    == old(self).state,
                HandshakeState::Failed(f) => r matches HandshakeStep::Halt(g) && g == f
                    && final(self).state == old(self).state,
            },
    {
        match self.state {
            HandshakeState::Unauthenticated => {
                let mut m = String::from_str("AUTH ");
                m.append(self.authkey.as_str());
                HandshakeStep::Send(m)
            },
            HandshakeState::Authenticated => {
                if self.machine_type.as_str().is_empty() {
                    self.state = HandshakeState::Failed(HandshakeFailure::EmptyMachineType);
                    HandshakeStep::Halt(HandshakeFailure::EmptyMachineType)
                } else {
                    let mut m = String::from_str("SET_MACHINE_TYPE ");
                    m.append(self.machine_type.as_str());
                    HandshakeStep::Send(m)
                }
            },
            HandshakeState::TypeSet => {
                if self.machine_name.as_str().is_empty() {
                    self.state = HandshakeState::Failed(HandshakeFailure::EmptyMachineName);
                    HandshakeStep::Halt(HandshakeFailure::EmptyMachineName)
                } else {
                    let mut m = String::from_str("SET_MACHINE_NAME ");
                    m.append(self.machine_name.as_str());
                    HandshakeStep::Send(m)
                }
            },
            HandshakeState::Ready => HandshakeStep::Done,
            HandshakeState::Failed(f) => HandshakeStep::Halt(f),
        }
    }

    /// Feeds the server's reply to the pending step into the state machine.
    pub fn apply_reply(&mut self, reply: &str)
        ensures
            final(self).state == transition(old(self).state, reply@),
            final(self).authkey@ == old(self).authkey@,
            final(self).machine_type@ == old(self).machine_type@,
            final(self).machine_name@ == old(self).machine_name@,
    {
        match self.state {
            HandshakeState::Unauthenticated => {
                if str_eq(reply, "AUTH_OK") || str_eq(reply, "UNTRUSTED_MODE") {
                    self.state = HandshakeState::Authenticated;
                } else if str_eq(reply, "INV_AUTH_KEY") {
                    self.state = HandshakeState::Failed(HandshakeFailure::InvalidAuthKey);
                } else {
                    self.state = HandshakeState::Failed(HandshakeFailure::UnexpectedResponse);
                }
            },
            HandshakeState::Authenticated => {
                if str_eq(reply, "CMD_OK") {
                    self.state = HandshakeState::TypeSet;
                } else if str_eq(reply, "AUTH_REQUIRED") {
                    self.state = HandshakeState::Failed(HandshakeFailure::AuthRequired);
                } else if str_eq(reply, "INV_MACHINE_TYPE") {
                    self.state = HandshakeState::Failed(HandshakeFailure::InvalidMachineType);
                } else {
                    self.state = HandshakeState::Failed(HandshakeFailure::UnexpectedResponse);
                }
            },
            HandshakeState::TypeSet => {
                if str_eq(reply, "CMD_OK") {
                    self.state = HandshakeState::Ready;
                } else {
                    self.state = HandshakeState::Failed(HandshakeFailure::UnexpectedResponse);
                }
            },
            HandshakeState::Ready => {},
            HandshakeState::Failed(_) => {},
        }
    }
}

/// The lines a handshake sends and the state it ends in, given the identity
/// and the sequence of replies the server would give, one per sent line.
/// The recursion stops when a step halts locally, when the handshake is
/// done, or when no replies remain.
pub open spec fn drive(
    state: HandshakeState,
    key: Seq<char>,
    t: Seq<char>,
    n: Seq<char>,
    replies: Seq<Seq<char>>,
) -> (Seq<Seq<char>>, HandshakeState)
    decreases replies.len(),
{
    match state {
        HandshakeState::Ready => (Seq::empty(), state),
        HandshakeState::Failed(_) => (Seq::empty(), state),
        HandshakeState::Unauthenticated => {
            if replies.len() == 0 {
                (Seq::empty(), state)
            } else {
                let rest = drive(
                    auth_transition(replies[0]),
                    key,
                    t,
                    n,
                    replies.drop_first(),
                );
                (seq![auth_msg(key)] + rest.0, rest.1)
            }
        },
        HandshakeState::Authenticated => {
            if t.len() == 0 {
                (Seq::empty(), HandshakeState::Failed(HandshakeFailure::EmptyMachineType))
            } else if replies.len() == 0 {
                (Seq::empty(), state)
            } else {
                let rest = drive(
                    type_transition(replies[0]),
                    key,
                    t,
                    n,
                    replies.drop_first(),
                );
                (seq![set_type_msg(t)] + rest.0, rest.1)
            }
        },
        HandshakeState::TypeSet => {
            if n.len() == 0 {
                (Seq::empty(), HandshakeState::Failed(HandshakeFailure::EmptyMachineName))
            } else if replies.len() == 0 {
                (Seq::empty(), state)
            } else {
                let rest = drive(
                    name_transition(replies[0]),
                    key,
                    t,
                    n,
                    replies.drop_first(),
                );
                (seq![set_name_msg(n)] + rest.0, rest.1)
            }
        },
    }
}

/// Runs a whole handshake against a given sequence of replies, returning
/// the lines sent and the final state. This is the pure core of the
/// connect sequence; a live session feeds replies in one at a time instead.
pub fn run_handshake(
    authkey: String,
    machine_type: String,
    machine_name: String,
    replies: &Vec<String>,
) -> (r: (Vec<String>, HandshakeState))
    ensures
        ({
            let d = drive(
                initial_state(authkey@),
                authkey@,
                machine_type@,
                machine_name@,
                replies.deep_view(),
            );
            r.0.deep_view() == d.0 && r.1 == d.1
        }),
{
    let ghost key = authkey@;
    let ghost t = machine_type@;
    let ghost n = machine_name@;
    let ghost all = replies.deep_view();
    let mut hs = Handshake::new(authkey, machine_type, machine_name);
    let mut sent: Vec<String> = Vec::new();
    let mut i: usize = 0;
    proof {
        assert(all.skip(0) =~= all);
        let d0 = drive(initial_state(key), key, t, n, all);
        assert(sent.deep_view() =~= Seq::<Seq<char>>::empty());
        assert(sent.deep_view() + d0.0 =~= d0.0);
    }
    #[verifier::loop_isolation(false)]
    loop
        invariant
            i <= replies.len(),
            all == replies.deep_view(),
            hs.authkey@ == key,
            hs.machine_type@ == t,
            hs.machine_name@ == n,
            ({
                let d = drive(hs.state, key, t, n, all.skip(i as int));
                drive(initial_state(key), key, t, n, all).0 == sent.deep_view() + d.0 && drive(
                    initial_state(key),
                    key,
                    t,
                    n,
                    all,
                ).1 == d.1
            }),
        decreases replies.len() - i,
    {
        let ghost pre_state = hs.state;
        let ghost pre_sent = sent.deep_view();
        let ghost rem = all.skip(i as int);
        let step = hs.next_step();
        match step {
            HandshakeStep::Send(m) => {
                let ghost msg = m@;
                if i < replies.len() {
                    sent.push(m);
                    let reply = &replies[i];
                    hs.apply_reply(reply.as_str());
                    proof {
                        assert(rem.len() > 0);
                        assert(rem[0] == replies[i as int].deep_view());
                        assert(rem[0] == reply@);
                        assert(rem.drop_first() =~= all.skip(i as int + 1));
                        let d2 = drive(hs.state, key, t, n, all.skip(i as int + 1));
                        if pre_state is Unauthenticated {
                            assert(drive(pre_state, key, t, n, rem).0 == seq![auth_msg(key)]
                                + d2.0);
                            assert(drive(pre_state, key, t, n, rem).1 == d2.1);
                        } else if pre_state is Authenticated {
                            assert(drive(pre_state, key, t, n, rem).0 == seq![set_type_msg(t)]
                                + d2.0);
                            assert(drive(pre_state, key, t, n, rem).1 == d2.1);
                        } else {
                            assert(pre_state is TypeSet);
                            assert(drive(pre_state, key, t, n, rem).0 == seq![set_name_msg(n)]
                                + d2.0);
                            assert(drive(pre_state, key, t, n, rem).1 == d2.1);
                        }
                        assert(sent.deep_view() =~= pre_sent.push(msg));
                        assert(pre_sent + (seq![msg] + d2.0) =~= sent.deep_view() + d2.0);
                    }
                    i = i + 1;
                } else {
                    // no reply available: the exchange cannot go further
                    proof {
                        assert(rem.len() == 0);
                        assert(pre_state is Unauthenticated || pre_state is Authenticated
                            || pre_state is TypeSet);
                        if pre_state is Authenticated {
                            assert(t.len() != 0);
                        }
                        if pre_state is TypeSet {
                            assert(n.len() != 0);
                        }
                        assert(drive(pre_state, key, t, n, rem).0 =~= Seq::<Seq<char>>::empty());
                        assert(drive(pre_state, key, t, n, rem).1 == pre_state);
                        assert(sent.deep_view() + Seq::<Seq<char>>::empty() =~= sent.deep_view());
                        assert(drive(initial_state(key), key, t, n, all).0 == sent.deep_view());
                        assert(drive(initial_state(key), key, t, n, all).1 == hs.state);
                    }
                    return (sent, hs.state);
                }
            },
            HandshakeStep::Done => {
                proof {
                    assert(pre_state is Ready);
                    assert(drive(pre_state, key, t, n, rem).0 =~= Seq::<Seq<char>>::empty());
                    assert(drive(pre_state, key, t, n, rem).1 == pre_state);
                    assert(sent.deep_view() + Seq::<Seq<char>>::empty() =~= sent.deep_view());
                    assert(drive(initial_state(key), key, t, n, all).0 == sent.deep_view());
                    assert(drive(initial_state(key), key, t, n, all).1 == hs.state);
                }
                return (sent, hs.state);
            },
            HandshakeStep::Halt(f) => {
                proof {
                    assert(hs.state == HandshakeState::Failed(f));
                    assert(drive(pre_state, key, t, n, rem).0 =~= Seq::<Seq<char>>::empty());
                    assert(drive(pre_state, key, t, n, rem).1 == HandshakeState::Failed(f));
                    assert(sent.deep_view() + Seq::<Seq<char>>::empty() =~= sent.deep_view());
                    assert(drive(initial_state(key), key, t, n, all).0 == sent.deep_view());
                    assert(drive(initial_state(key), key, t, n, all).1 == hs.state);
                }
                return (sent, hs.state);
            },
        }
    }
}

/// The handshake sends its lines strictly in the planned order, never skips
/// ahead, and sends nothing further once a step has failed: whatever the
/// replies, the lines sent are a prefix of the plan, and a handshake that
/// did not reach `Ready` sent exactly the steps up to and including the
/// first rejected one.
pub proof fn lemma_handshake_ordering(
    key: Seq<char>,
    t: Seq<char>,
    n: Seq<char>,
    replies: Seq<Seq<char>>,
)
    ensures
        ({
            let d = drive(initial_state(key), key, t, n, replies);
            let plan = planned_messages(key, t, n);
            &&& d.0.len() <= plan.len()
            &&& d.0 == plan.take(d.0.len() as int)
            &&& (d.1 == HandshakeState::Ready ==> d.0 == plan)
        }),
{
    lemma_drive_ordering(initial_state(key), key, t, n, replies);
}

/// How many of the planned lines remain to be sent from a given state.
spec fn steps_left(state: HandshakeState, key: Seq<char>) -> int {
    match state {
        HandshakeState::Unauthenticated => 3,
        HandshakeState::Authenticated => 2,
        HandshakeState::TypeSet => 1,
        HandshakeState::Ready => 0,
        HandshakeState::Failed(_) => 0,
    }
}

proof fn lemma_drive_ordering(
    state: HandshakeState,
    key: Seq<char>,
    t: Seq<char>,
    n: Seq<char>,
    replies: Seq<Seq<char>>,
)
    requires
        state == HandshakeState::Ready || state == HandshakeState::TypeSet || state
            == HandshakeState::Authenticated || (state == HandshakeState::Unauthenticated
            && key.len() > 0) || state matches HandshakeState::Failed(_),
    ensures
        ({
            let d = drive(state, key, t, n, replies);
            let plan = planned_messages(key, t, n);
            &&& d.0.len() <= steps_left(state, key)
            &&& steps_left(state, key) <= plan.len()
            &&& d.0 == plan.skip(plan.len() - steps_left(state, key)).take(d.0.len() as int)
            &&& (d.1 == HandshakeState::Ready ==> d.0.len() == steps_left(state, key))
        }),
    decreases replies.len(),
{
    let d = drive(state, key, t, n, replies);
    let plan = planned_messages(key, t, n);
    match state {
        HandshakeState::Ready => {
            assert(d.0 =~= plan.skip(plan.len() - 0).take(0));
        },
        HandshakeState::Failed(_) => {
            assert(d.0 =~= plan.skip(plan.len() - 0).take(0));
        },
        HandshakeState::Unauthenticated => {
            if replies.len() == 0 {
                assert(d.0 =~= plan.skip(0).take(0));
            } else {
                let next = auth_transition(replies[0]);
                lemma_drive_ordering(next, key, t, n, replies.drop_first());
                let rest = drive(next, key, t, n, replies.drop_first());
                assert(d.0 =~= seq![auth_msg(key)] + rest.0);
                assert(plan[0] == auth_msg(key));
                assert(d.0 =~= plan.skip(0).take(d.0.len() as int));
            }
        },
        HandshakeState::Authenticated => {
            if t.len() == 0 || replies.len() == 0 {
                assert(d.0 =~= plan.skip(plan.len() - 2).take(0));
            } else {
                let next = type_transition(replies[0]);
                lemma_drive_ordering(next, key, t, n, replies.drop_first());
                let rest = drive(next, key, t, n, replies.drop_first());
                assert(d.0 =~= seq![set_type_msg(t)] + rest.0);
                assert(plan[plan.len() - 2] == set_type_msg(t));
                assert(d.0 =~= plan.skip(plan.len() - 2).take(d.0.len() as int));
            }
        },
        HandshakeState::TypeSet => {
            if n.len() == 0 || replies.len() == 0 {
                assert(d.0 =~= plan.skip(plan.len() - 1).take(0));
            } else {
                let next = name_transition(replies[0]);
                lemma_drive_ordering(next, key, t, n, replies.drop_first());
                let rest = drive(next, key, t, n, replies.drop_first());
                assert(d.0 =~= seq![set_name_msg(n)] + rest.0);
                assert(plan[plan.len() - 1] == set_name_msg(n));
                assert(d.0 =~= plan.skip(plan.len() - 1).take(d.0.len() as int));
            }
        },
    }
}

} // verus!
