//! The server-side state of one connection: a state machine from accept to
//! close. A session processes no frame before its handshake - the first 8
//! bytes of the connection, the big-endian client id - is complete; its id is
//! fixed once identified; it closes on any fatal error and must then be
//! unregistered exactly once.

use vstd::prelude::*;
use crate::be::{be_to_int, lemma_be_to_int_bound, pow256};
use crate::codec::{ClientMessage, FrameModel};

verus! {

pub enum SessionState {
    AwaitingHandshake,
    Identified,
    Closed,
}

/// What the caller must do after a transition: the I/O side of the state
/// machine, performed outside.
pub enum SessionAction {
    /// Nothing to do.
    Idle,
    /// Write the single pong byte on the write half. The write half is held
    /// until `on_write_done` reports the outcome; no second write may start
    /// before that.
    SendPong,
    /// Hand the payload of a `Send` frame, attributed to this session's
    /// client id, to downstream handling. No reply is sent.
    Deliver { id: u64, payload: Vec<u8> },
    /// The session just closed: remove it from the registry. Emitted by
    /// exactly the transition that reaches `Closed`.
    Unregister,
}

pub struct Session {
    /// 0 until the handshake completes, then fixed.
    pub id: u64,
    pub state: SessionState,
    /// A pong write is in flight: the write half is taken.
    pub write_pending: bool,
}

/// What can happen to a session, as its driver observes it.
pub enum SessionEvent {
    /// The first read completed with these bytes; the handshake succeeds
    /// exactly when they number 8.
    HandshakeBytes(Seq<u8>),
    /// The incremental decoder produced a frame.
    FrameArrived(FrameModel),
    /// The in-flight pong write ended, well or badly.
    WriteFinished(bool),
    /// The connection failed or ended: a transport error, a malformed
    /// stream, or the peer closing.
    ConnectionLost,
}

pub open spec fn fresh_session() -> Session {
    Session { id: 0, state: SessionState::AwaitingHandshake, write_pending: false }
}

pub open spec fn closed_session(s: Session) -> Session {
    Session { state: SessionState::Closed, write_pending: false, ..s }
}

/// The transition relation of a session, one event at a time.
pub open spec fn session_step(s: Session, ev: SessionEvent) -> Session {
    match ev {
        SessionEvent::HandshakeBytes(b) => if s.state is AwaitingHandshake {
            if b.len() == 8 {
                Session { id: be_to_int(b) as u64, state: SessionState::Identified, write_pending: false }
            } else {
                closed_session(s)
            }
        } else {
            s
        },
        SessionEvent::FrameArrived(f) => if s.state is Identified && !s.write_pending {
            match f {
                FrameModel::Ping => Session { write_pending: true, ..s },
                FrameModel::Send(p) => s,
            }
        } else {
            s
        },
        SessionEvent::WriteFinished(ok) => if s.state is Identified && s.write_pending {
            if ok {
                Session { write_pending: false, ..s }
            } else {
                closed_session(s)
            }
        } else {
            s
        },
        SessionEvent::ConnectionLost => if s.state is Closed {
            s
        } else {
            closed_session(s)
        },
    }
}

impl Session {
    /// A session as registered at accept time, before its handshake.
    pub fn new() -> (s: Session)
        ensures
            s == fresh_session(),
    {
        Session { id: 0, state: SessionState::AwaitingHandshake, write_pending: false }
    }

    /// The 8 handshake bytes arrived: the session becomes identified with
    /// the big-endian id they carry, fixed from here on.
    pub fn on_handshake(&mut self, bytes: &[u8])
        requires
            old(self).state is AwaitingHandshake,
            bytes@.len() == 8,
        ensures
            *final(self) == session_step(*old(self), SessionEvent::HandshakeBytes(bytes@)),
            final(self).state is Identified,
            final(self).id == be_to_int(bytes@),
            !final(self).write_pending,
    {
        let id = crate::be::u64_from_be(bytes);
        proof {
            lemma_be_to_int_bound(bytes@);
            assert(pow256(8) == 0x10000000000000000) by {
                reveal_with_fuel(pow256, 9);
            }
        }
        self.id = id;
        self.state = SessionState::Identified;
        self.write_pending = false;
    }

    /// The connection ended before 8 handshake bytes arrived: the session
    /// closes without ever having been identified, and must be unregistered.
    pub fn on_handshake_failed(&mut self) -> (a: SessionAction)
        requires
            old(self).state is AwaitingHandshake,
        ensures
            *final(self) == session_step(*old(self), SessionEvent::ConnectionLost),
            final(self).state is Closed,
            a == SessionAction::Unregister,
    {
        self.state = SessionState::Closed;
        self.write_pending = false;
        SessionAction::Unregister
    }

    /// A decoded frame, after identification. A ping takes the write half
    /// and asks for a pong; a send hands its payload over, attributed to
    /// this session's id, with no reply.
    pub fn on_frame(&mut self, msg: ClientMessage) -> (a: SessionAction)
        requires
            old(self).state is Identified,
            !old(self).write_pending,
        ensures
            *final(self) == session_step(*old(self), SessionEvent::FrameArrived(msg@)),
            final(self).id == old(self).id,
            final(self).state is Identified,
            msg is Ping ==> a == SessionAction::SendPong && final(self).write_pending,
            msg matches ClientMessage::Send(p) ==> a == (SessionAction::Deliver {
                id: old(self).id,
                payload: p,
            }) && !final(self).write_pending,
    {
        match msg {
            ClientMessage::Ping => {
                self.write_pending = true;
                SessionAction::SendPong
            },
            ClientMessage::Send(p) => SessionAction::Deliver { id: self.id, payload: p },
        }
    }

    /// The pong write ended. On success the write half is free again; on
    /// failure the session closes and must be unregistered.
    pub fn on_write_done(&mut self, ok: bool) -> (a: SessionAction)
        requires
            old(self).state is Identified,
            old(self).write_pending,
        ensures
            *final(self) == session_step(*old(self), SessionEvent::WriteFinished(ok)),
            final(self).id == old(self).id,
            ok ==> final(self).state is Identified && !final(self).write_pending && a
                == SessionAction::Idle,
            !ok ==> final(self).state is Closed && a == SessionAction::Unregister,
    {
        if ok {
            self.write_pending = false;
            SessionAction::Idle
        } else {
            self.state = SessionState::Closed;
            self.write_pending = false;
            SessionAction::Unregister
        }
    }

    /// A fatal read-side condition - transport error, malformed stream, or
    /// the peer closing - after identification: the session closes and must
    /// be unregistered.
    pub fn on_stream_error(&mut self) -> (a: SessionAction)
        requires
            !(old(self).state is Closed),
        ensures
            *final(self) == session_step(*old(self), SessionEvent::ConnectionLost),
            final(self).state is Closed,
            final(self).id == old(self).id,
            a == SessionAction::Unregister,
    {
        self.state = SessionState::Closed;
        self.write_pending = false;
        SessionAction::Unregister
    }
}

/// Once a session is identified its id never changes, whatever happens to
/// it afterwards.
pub proof fn lemma_id_fixed_once_identified(s: Session, ev: SessionEvent)
    requires
        s.state is Identified,
    ensures
        session_step(s, ev).id == s.id,
{
}

/// The session a fresh connection reaches after a sequence of events.
pub open spec fn session_after(evs: Seq<SessionEvent>) -> Session
    decreases evs.len(),
{
    if evs.len() == 0 {
        fresh_session()
    } else {
        session_step(session_after(evs.drop_last()), evs.last())
    }
}

/// The one event that completes a handshake: a first read of exactly 8
/// bytes.
pub open spec fn completes_handshake(ev: SessionEvent) -> bool {
    ev matches SessionEvent::HandshakeBytes(b) && b.len() == 8
}

/// A connection that never receives its full 8 handshake bytes never
/// reaches the identified state, whatever else happens to it.
pub proof fn lemma_short_handshake_never_identified(evs: Seq<SessionEvent>)
    requires
        forall|i: int| 0 <= i < evs.len() ==> !completes_handshake(#[trigger] evs[i]),
    ensures
        !(session_after(evs).state is Identified),
    decreases evs.len(),
{
    if evs.len() > 0 {
        let pre = evs.drop_last();
        assert forall|i: int| 0 <= i < pre.len() implies !completes_handshake(#[trigger] pre[i]) by {
            assert(pre[i] == evs[i]);
        }
        lemma_short_handshake_never_identified(pre);
        assert(!completes_handshake(evs[evs.len() - 1]));
        assert(evs.last() == evs[evs.len() - 1]);
    }
}

} // verus!
