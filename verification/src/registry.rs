//! The connection registry: the server-wide membership set of live
//! sessions. Sessions are tracked by an opaque token (the server's handle
//! for one connection); membership is a set, with no ordering semantics.
//! Registration happens at accept time, before the handshake completes;
//! unregistration exactly once, when a session closes.

use vstd::prelude::*;

verus! {

/// The membership set of live sessions.
pub struct ConnectionsManager {
    pub connections: Vec<u64>,
}

/// A newly accepted connection, carrying its session token.
pub struct Connect(pub u64);

/// A session that has closed, carrying its token.
pub struct Stopped(pub u64);

impl ConnectionsManager {
    /// The current members, as a set: which tokens are registered.
    pub open spec fn members(self) -> Set<u64> {
        self.connections@.to_set()
    }

    pub fn handle_connect(&mut self, msg: Connect)
        ensures
            final(self).members() == old(self).members().insert(msg.0),
    {
        let t = msg.0;
        self.connections.push(t);
        proof {
            let s0 = old(self).connections@;
            let s1 = self.connections@;
            assert forall|y: u64| #[trigger] s1.contains(y) implies s0.contains(y) || y == t by {
                let i = choose|i: int| 0 <= i < s1.len() && s1[i] == y;
                if i < s0.len() {
                    assert(s0[i] == y);
                } else {
                    assert(s1[s0.len() as int] == t);
                }
            }
            assert forall|y: u64| s0.contains(y) || y == t implies #[trigger] s1.contains(y) by {
                if s0.contains(y) {
                    let i = choose|i: int| 0 <= i < s0.len() && s0[i] == y;
                    assert(s1[i] == y);
                } else {
                    assert(s1[s0.len() as int] == t);
                }
            }
            assert(self.members() =~= old(self).members().insert(t));
        }
    }

    pub fn handle_stopped(&mut self, msg: Stopped)
        ensures
            final(self).members() == old(self).members().remove(msg.0),
    {
        let t = msg.0;
        let n = self.connections.len();
        let mut kept: Vec<u64> = Vec::new();
        let mut i: usize = 0;
        while i < n
            invariant
                i <= n,
                n == self.connections.len(),
                forall|y: u64| #[trigger] kept@.contains(y) <==> (
                self.connections@.take(i as int).contains(y) && y != t),
            decreases n - i,
        {
            let c = self.connections[i];
            let ghost kept0 = kept@;
            let ghost taken0 = self.connections@.take(i as int);
            let ghost taken1 = self.connections@.take(i + 1);
            proof {
                assert(taken1 =~= taken0.push(c));
                assert forall|y: u64| #[trigger] taken1.contains(y) implies taken0.contains(y) || y
                    == c by {
                    let j = choose|j: int| 0 <= j < taken1.len() && taken1[j] == y;
                    if j < taken0.len() {
                        assert(taken0[j] == y);
                    }
                }
                assert forall|y: u64| taken0.contains(y) || y == c implies #[trigger] taken1.contains(
                    y,
                ) by {
                    if taken0.contains(y) {
                        let j = choose|j: int| 0 <= j < taken0.len() && taken0[j] == y;
                        assert(taken1[j] == y);
                    } else {
                        assert(taken1[taken0.len() as int] == c);
                    }
                }
            }
            if c != t {
                kept.push(c);
                proof {
                    assert forall|y: u64| #[trigger] kept@.contains(y) implies kept0.contains(y) || y
                        == c by {
                        let j = choose|j: int| 0 <= j < kept@.len() && kept@[j] == y;
                        if j < kept0.len() {
                            assert(kept0[j] == y);
                        }
                    }
                    assert forall|y: u64| kept0.contains(y) || y == c implies #[trigger] kept@.contains(
                        y,
                    ) by {
                        if kept0.contains(y) {
                            let j = choose|j: int| 0 <= j < kept0.len() && kept0[j] == y;
                            assert(kept@[j] == y);
                        } else {
                            assert(kept@[kept0.len() as int] == c);
                        }
                    }
                }
            }
            i = i + 1;
        }
        proof {
            assert(self.connections@.take(n as int) =~= self.connections@);
        }
        self.connections = kept;
        proof {
            assert(final(self).members() =~= old(self).members().remove(t));
        }
    }

    /// Whether a token is currently registered.
    pub fn contains(&self, t: u64) -> (r: bool)
        ensures
            r == self.members().contains(t),
    {
        let n = self.connections.len();
        let mut i: usize = 0;
        while i < n
            invariant
                i <= n,
                n == self.connections.len(),
                forall|j: int| 0 <= j < i ==> self.connections@[j] != t,
            decreases n - i,
        {
            if self.connections[i] == t {
                return true;
            }
            i = i + 1;
        }
        proof {
            if self.members().contains(t) {
                let j = choose|j: int| 0 <= j < self.connections@.len() && self.connections@[j]
                    == t;
                assert(false);
            }
        }
        false
    }

    /// How many sessions are registered (counting one per registration).
    pub fn count(&self) -> (r: usize)
        ensures
            r == self.connections@.len(),
    {
        self.connections.len()
    }
}

impl Default for ConnectionsManager {
    /// An empty registry: no session is a member.
    fn default() -> (r: Self)
        ensures
            r.members() == Set::<u64>::empty(),
    {
        let r = ConnectionsManager { connections: Vec::new() };
        proof {
            assert(r.members() =~= Set::<u64>::empty());
        }
        r
    }
}

/// One membership change, as the registry sees it.
pub enum RegistryEvent {
    Connected(u64),
    Disconnected(u64),
}

/// The membership set after a sequence of register/unregister events,
/// starting from an empty registry.
pub open spec fn members_after(evs: Seq<RegistryEvent>) -> Set<u64>
    decreases evs.len(),
{
    if evs.len() == 0 {
        Set::empty()
    } else {
        match evs.last() {
            RegistryEvent::Connected(t) => members_after(evs.drop_last()).insert(t),
            RegistryEvent::Disconnected(t) => members_after(evs.drop_last()).remove(t),
        }
    }
}

/// A connection that is open at the end of the events: it connected at some
/// point and did not disconnect afterwards.
pub open spec fn still_open(evs: Seq<RegistryEvent>, t: u64) -> bool {
    exists|i: int|
        0 <= i < evs.len() && evs[i] == RegistryEvent::Connected(t) && (forall|j: int|
            i < j < evs.len() ==> evs[j] != RegistryEvent::Disconnected(t))
}

/// The set of connections open at the end of the events.
pub open spec fn open_connections(evs: Seq<RegistryEvent>) -> Set<u64> {
    Set::new(|t: u64| still_open(evs, t))
}

/// Unregistering is decisive: right after a session's disconnect event the
/// registry no longer holds it, whatever happened before. A session that
/// closes - a truncated handshake included - is therefore absent once its
/// unregistration is performed.
pub proof fn lemma_unregistered_absent(evs: Seq<RegistryEvent>, t: u64)
    requires
        evs.len() > 0,
        evs.last() == RegistryEvent::Disconnected(t),
    ensures
        !members_after(evs).contains(t),
{
}

/// After any interleaving of connect and disconnect events, registry
/// membership equals exactly the set of currently open connections.
pub proof fn lemma_members_are_open_connections(evs: Seq<RegistryEvent>)
    ensures
        members_after(evs) == open_connections(evs),
    decreases evs.len(),
{
    if evs.len() == 0 {
        assert forall|t: u64| !still_open(evs, t) by {}
        assert(members_after(evs) =~= open_connections(evs));
    } else {
        let pre = evs.drop_last();
        let last = evs.last();
        lemma_members_are_open_connections(pre);
        match last {
            RegistryEvent::Connected(t) => {
                assert forall|y: u64| #[trigger] still_open(evs, y) implies still_open(pre, y) || y
                    == t by {
                    let i = choose|i: int|
                        0 <= i < evs.len() && evs[i] == RegistryEvent::Connected(y) && (forall|
                            j: int,
                        | i < j < evs.len() ==> evs[j] != RegistryEvent::Disconnected(y));
                    if i < evs.len() - 1 {
                        assert(pre[i] == RegistryEvent::Connected(y));
                        assert(forall|j: int|
                            i < j < pre.len() ==> pre[j] == evs[j] && evs[j]
                                != RegistryEvent::Disconnected(y));
                        assert(still_open(pre, y));
                    } else {
                        assert(evs[i] == RegistryEvent::Connected(t));
                        assert(y == t);
                    }
                }
                assert forall|y: u64| still_open(pre, y) || y == t implies #[trigger] still_open(
                    evs,
                    y,
                ) by {
                    if y == t {
                        let i = evs.len() - 1;
                        assert(evs[i] == RegistryEvent::Connected(t));
                        assert(forall|j: int|
                            i < j < evs.len() ==> evs[j] != RegistryEvent::Disconnected(y));
                    } else {
                        let i = choose|i: int|
                            0 <= i < pre.len() && pre[i] == RegistryEvent::Connected(y) && (forall|
                                j: int,
                            | i < j < pre.len() ==> pre[j] != RegistryEvent::Disconnected(y));
                        assert(evs[i] == RegistryEvent::Connected(y));
                        assert forall|j: int| i < j < evs.len() implies evs[j]
                            != RegistryEvent::Disconnected(y) by {
                            if j < evs.len() - 1 {
                                assert(evs[j] == pre[j]);
                            }
                        }
                    }
                }
                assert(members_after(evs) =~= open_connections(evs));
            },
            RegistryEvent::Disconnected(t) => {
                assert forall|y: u64| #[trigger] still_open(evs, y) implies still_open(pre, y) && y
                    != t by {
                    let i = choose|i: int|
                        0 <= i < evs.len() && evs[i] == RegistryEvent::Connected(y) && (forall|
                            j: int,
                        | i < j < evs.len() ==> evs[j] != RegistryEvent::Disconnected(y));
                    assert(evs[evs.len() - 1] == RegistryEvent::Disconnected(t));
                    assert(i < evs.len() - 1);
                    assert(evs[evs.len() - 1] != RegistryEvent::Disconnected(y));
                    assert(y != t);
                    assert(pre[i] == RegistryEvent::Connected(y));
                    assert(forall|j: int|
                        i < j < pre.len() ==> pre[j] == evs[j] && evs[j]
                            != RegistryEvent::Disconnected(y));
                    assert(still_open(pre, y));
                }
                assert forall|y: u64| still_open(pre, y) && y != t implies #[trigger] still_open(
                    evs,
                    y,
                ) by {
                    let i = choose|i: int|
                        0 <= i < pre.len() && pre[i] == RegistryEvent::Connected(y) && (forall|
                            j: int,
                        | i < j < pre.len() ==> pre[j] != RegistryEvent::Disconnected(y));
                    assert(evs[i] == RegistryEvent::Connected(y));
                    assert forall|j: int| i < j < evs.len() implies evs[j]
                        != RegistryEvent::Disconnected(y) by {
                        if j < evs.len() - 1 {
                            assert(evs[j] == pre[j]);
                        } else {
                            assert(evs[j] == RegistryEvent::Disconnected(t));
                        }
                    }
                }
                assert(members_after(evs) =~= open_connections(evs));
            },
        }
    }
}

} // verus!
