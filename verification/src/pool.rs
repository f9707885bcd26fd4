//! The accounting of a bounded pool of connections.
//!
//! The pool opens no session itself. It decides: a caller that asks for a
//! connection is told to reuse an idle one, to open a new one, or to wait;
//! a caller that brings one back reports whether it could be reset, and the
//! pool keeps or drops it. Whoever drives the pool performs what it is
//! told and reports back.

use crate::config::Config;
use crate::errors::Error;
use vstd::prelude::*;

verus! {

/// The address and the credentials with which every connection of a pool
/// is opened.
pub struct ConnectionManager {
    uri: String,
    user: String,
    password: String,
}

/// What a `ConnectionManager` holds, as text.
pub struct Credentials {
    pub uri: Seq<char>,
    pub user: Seq<char>,
    pub password: Seq<char>,
}

impl View for ConnectionManager {
    type V = Credentials;

    closed spec fn view(&self) -> Credentials {
        Credentials { uri: self.uri@, user: self.user@, password: self.password@ }
    }
}

impl ConnectionManager {
    /// A manager that keeps its own copies of the three texts.
    pub fn new(uri: &str, user: &str, password: &str) -> (manager: ConnectionManager)
        ensures
            manager@ == (Credentials { uri: uri@, user: user@, password: password@ }),
    {
        ConnectionManager {
            uri: uri.to_owned(),
            user: user.to_owned(),
            password: password.to_owned(),
        }
    }

    /// Where the server is.
    pub fn uri(&self) -> (uri: &str)
        ensures
            uri@ == self@.uri,
    {
        self.uri.as_str()
    }

    /// Who connects.
    pub fn user(&self) -> (user: &str)
        ensures
            user@ == self@.user,
    {
        self.user.as_str()
    }

    /// The password of `user`.
    pub fn password(&self) -> (password: &str)
        ensures
            password@ == self@.password,
    {
        self.password.as_str()
    }
}

/// What a caller that asks for a connection is told. The number names the
/// connection; no two connections of one pool share a number.
pub enum Admission {
    /// An idle connection is handed over.
    Reuse(u64),
    /// A place is reserved for a connection that the caller is to open.
    Create(u64),
    /// Neither is possible now: the caller waits for a connection to come
    /// back.
    Wait,
}

/// The pool as its accounting sees it.
pub struct PoolState {
    /// The most connections that may exist at a time.
    pub max_connections: nat,
    /// The connections that nobody holds, longest idle first.
    pub idle: Seq<u64>,
    /// The connections that callers hold, with those that callers are about
    /// to open.
    pub checked_out: Set<u64>,
    /// How many connections have been named so far. Names are given in
    /// order from 0, so this is the next one.
    pub issued: nat,
}

impl PoolState {
    /// A pool in which nothing has happened yet.
    pub open spec fn fresh(max_connections: nat) -> PoolState {
        PoolState { max_connections, idle: Seq::empty(), checked_out: Set::empty(), issued: 0 }
    }

    /// The number of connections that exist, idle or held.
    pub open spec fn live(self) -> nat {
        self.idle.len() + self.checked_out.len()
    }

    /// Whether a caller holds the connection `id`.
    pub open spec fn holds(self, id: u64) -> bool {
        self.checked_out.contains(id)
    }

    /// What holds of every pool: it has room for a connection, and for no
    /// more than a machine can count; no more connections exist than it has
    /// room for; no connection is idle twice, or idle while a caller holds
    /// it; and every connection bears a name that was given out.
    pub open spec fn wf(self) -> bool {
        &&& 0 < self.max_connections <= usize::MAX
        &&& self.checked_out.finite()
        &&& self.live() <= self.max_connections
        &&& self.idle.no_duplicates()
        &&& forall|i: int| 0 <= i < self.idle.len() ==> !self.holds(#[trigger] self.idle[i])
        &&& forall|i: int| 0 <= i < self.idle.len() ==> (#[trigger] self.idle[i]) < self.issued
        &&& forall|id: u64| #[trigger] self.holds(id) ==> id < self.issued
        &&& self.issued <= u64::MAX
    }

    /// What the next caller is told: the longest-idle connection if there
    /// is one; else a new one, if there is room for it and a name left to
    /// give it; else to wait.
    pub open spec fn admission(self) -> Admission {
        if self.idle.len() > 0 {
            Admission::Reuse(self.idle[0])
        } else if self.checked_out.len() < self.max_connections && self.issued < u64::MAX {
            Admission::Create(self.issued as u64)
        } else {
            Admission::Wait
        }
    }

    /// The pool after the next caller was told `self.admission()`. A
    /// connection handed over or reserved counts as held from then on;
    /// a caller told to wait leaves no trace.
    pub open spec fn checkout(self) -> PoolState {
        match self.admission() {
            Admission::Reuse(id) => PoolState {
                idle: self.idle.drop_first(),
                checked_out: self.checked_out.insert(id),
                ..self
            },
            Admission::Create(id) => PoolState {
                checked_out: self.checked_out.insert(id),
                issued: self.issued + 1,
                ..self
            },
            Admission::Wait => self,
        }
    }

    /// The pool after the connection `id` came back. One that no caller
    /// holds changes nothing. One that was reset joins the idle ones at the
    /// end; one that was not is gone.
    pub open spec fn release(self, id: u64, recycled: bool) -> PoolState {
        if !self.holds(id) {
            self
        } else if recycled {
            PoolState {
                idle: self.idle.push(id),
                checked_out: self.checked_out.remove(id),
                ..self
            }
        } else {
            PoolState { checked_out: self.checked_out.remove(id), ..self }
        }
    }
}

impl PoolState {
    /// No more connections exist after a checkout than the pool has room
    /// for, and the pool stays as it should be.
    pub proof fn lemma_checkout_keeps_wf(self)
        requires
            self.wf(),
        ensures
            self.checkout().wf(),
            self.checkout().max_connections == self.max_connections,
    {
        let after = self.checkout();
        assert forall|other: u64| #[trigger] after.holds(other) implies other < after.issued by {
            if self.checked_out.contains(other) {
                assert(self.holds(other));
            }
        }
        match self.admission() {
            Admission::Reuse(id) => {
                assert(id == self.idle[0]);
                assert(!self.holds(id));
                assert forall|i: int| 0 <= i < after.idle.len() implies !after.holds(
                    #[trigger] after.idle[i],
                ) && after.idle[i] < after.issued by {
                    assert(after.idle[i] == self.idle[i + 1]);
                }
                assert(after.idle.no_duplicates()) by {
                    assert forall|i: int, j: int|
                        0 <= i < after.idle.len() && 0 <= j < after.idle.len() && i != j implies after.idle[i]
                        != after.idle[j] by {
                        assert(after.idle[i] == self.idle[i + 1]);
                        assert(after.idle[j] == self.idle[j + 1]);
                    }
                }
            },
            Admission::Create(id) => {
                assert(!self.holds(id));
            },
            Admission::Wait => {},
        }
    }

    /// No more connections exist after a release than before it, and the
    /// pool stays as it should be.
    pub proof fn lemma_release_keeps_wf(self, id: u64, recycled: bool)
        requires
            self.wf(),
        ensures
            self.release(id, recycled).wf(),
            self.release(id, recycled).max_connections == self.max_connections,
            self.release(id, recycled).live() <= self.live(),
    {
        let after = self.release(id, recycled);
        assert forall|other: u64| #[trigger] after.holds(other) implies other < after.issued by {
            assert(self.holds(other));
        }
        if self.holds(id) && recycled {
            assert(after.idle.no_duplicates()) by {
                assert forall|i: int, j: int|
                    0 <= i < after.idle.len() && 0 <= j < after.idle.len() && i != j implies after.idle[i]
                    != after.idle[j] by {
                    if i < self.idle.len() {
                        assert(after.idle[i] == self.idle[i]);
                    }
                    if j < self.idle.len() {
                        assert(after.idle[j] == self.idle[j]);
                    }
                }
            }
            assert forall|i: int| 0 <= i < after.idle.len() implies !after.holds(
                #[trigger] after.idle[i],
            ) && after.idle[i] < after.issued by {
                if i < self.idle.len() {
                    assert(after.idle[i] == self.idle[i]);
                }
            }
        }
    }
}

/// What can happen to a pool: a caller asks for a connection, or the
/// connection `id` comes back, reset or not.
pub enum PoolEvent {
    Checkout,
    Release { id: u64, recycled: bool },
}

impl PoolEvent {
    /// `count` callers asking for a connection, one after the other.
    pub open spec fn checkouts(count: nat) -> Seq<PoolEvent> {
        Seq::new(count, |i: int| PoolEvent::Checkout)
    }

    /// Whether this event brings the connection `id` back.
    pub open spec fn brings_back(self, id: u64) -> bool {
        self matches PoolEvent::Release { id: returned, .. } && returned == id
    }
}

impl PoolState {
    /// Whether the next caller is handed the connection `id`, to reuse or
    /// to open.
    pub open spec fn hands_out(self, id: u64) -> bool {
        self.admission() == Admission::Reuse(id) || self.admission() == Admission::Create(id)
    }

    /// Whether the connection `id` has existed and exists no more.
    pub open spec fn retired(self, id: u64) -> bool {
        id < self.issued && !self.holds(id) && !self.idle.contains(id)
    }

    /// The pool after `event`.
    pub open spec fn step(self, event: PoolEvent) -> PoolState {
        match event {
            PoolEvent::Checkout => self.checkout(),
            PoolEvent::Release { id, recycled } => self.release(id, recycled),
        }
    }

    /// The pool after `events`, in their order.
    pub open spec fn run(self, events: Seq<PoolEvent>) -> PoolState
        decreases events.len(),
    {
        if events.len() == 0 {
            self
        } else {
            self.run(events.drop_last()).step(events.last())
        }
    }

    /// Whatever happens to a pool, and in whatever order, it never has
    /// more connections than it has room for.
    pub proof fn lemma_capacity_is_never_exceeded(self, events: Seq<PoolEvent>)
        requires
            self.wf(),
        ensures
            self.run(events).wf(),
            self.run(events).max_connections == self.max_connections,
            self.run(events).live() <= self.max_connections,
        decreases events.len(),
    {
        if events.len() > 0 {
            let before = self.run(events.drop_last());
            self.lemma_capacity_is_never_exceeded(events.drop_last());
            match events.last() {
                PoolEvent::Checkout => before.lemma_checkout_keeps_wf(),
                PoolEvent::Release { id, recycled } => before.lemma_release_keeps_wf(id, recycled),
            }
        }
    }

    /// While callers hold as many connections as the pool has room for,
    /// the next caller waits, and its asking changes nothing.
    pub proof fn lemma_full_pool_waits(self)
        requires
            self.wf(),
            self.checked_out.len() == self.max_connections,
        ensures
            self.admission() == Admission::Wait,
            self.checkout() == self,
    {
    }

    /// Of a pool that is new, the first callers are told to open a
    /// connection each, as many of them as the pool has room for. After
    /// `asked` of them the pool counts `asked` connections as held; the
    /// one that asks when the pool is full is told to wait.
    pub proof fn lemma_fresh_pool_fills(max_connections: nat, asked: nat)
        requires
            0 < max_connections <= usize::MAX,
            asked <= max_connections,
        ensures
            ({
                let pool = Self::fresh(max_connections).run(PoolEvent::checkouts(asked));
                &&& pool.wf()
                &&& pool.max_connections == max_connections
                &&& pool.idle.len() == 0
                &&& pool.checked_out.len() == asked
                &&& pool.issued == asked
                &&& asked < max_connections ==> pool.admission() == Admission::Create(asked as u64)
                &&& asked == max_connections ==> pool.admission() == Admission::Wait
            }),
        decreases asked,
    {
        let events = PoolEvent::checkouts(asked);
        if asked > 0 {
            let fewer = PoolEvent::checkouts((asked - 1) as nat);
            assert(events.drop_last() =~= fewer);
            Self::lemma_fresh_pool_fills(max_connections, (asked - 1) as nat);
            let before = Self::fresh(max_connections).run(fewer);
            before.lemma_checkout_keeps_wf();
            assert(!before.holds((asked - 1) as u64));
        }
    }

    /// Once a connection has come back, the next caller need not wait: it
    /// is handed an idle connection if the one that came back was reset,
    /// and is told to open a new one if it was not and none is idle. (A
    /// pool that has given out every name a connection can bear cannot
    /// open a new one.)
    pub proof fn lemma_release_makes_room(self, id: u64, recycled: bool)
        requires
            self.wf(),
            self.holds(id),
            recycled || self.issued < u64::MAX,
        ensures
            self.release(id, recycled).admission() != Admission::Wait,
            recycled && self.idle.len() == 0 ==> self.release(id, recycled).admission()
                == Admission::Reuse(id),
            !recycled && self.idle.len() == 0 ==> self.release(id, recycled).admission()
                == Admission::Create(self.issued as u64),
    {
    }

    /// A caller is never handed a connection that another caller holds,
    /// and holds the one it is handed from then on; an idle one that it is
    /// handed is idle no more.
    pub proof fn lemma_checkout_is_exclusive(self, id: u64)
        requires
            self.wf(),
            self.hands_out(id),
        ensures
            !self.holds(id),
            self.checkout().holds(id),
            !self.checkout().idle.contains(id),
    {
        let after = self.checkout();
        if after.idle.contains(id) {
            let i = choose|i: int| 0 <= i < after.idle.len() && after.idle[i] == id;
            assert(after.idle[i] == self.idle[i + 1]);
        }
    }

    /// A connection that a caller holds is handed to no other caller for
    /// as long as it has not come back, whatever else happens to the pool.
    pub proof fn lemma_no_double_checkout(self, id: u64, events: Seq<PoolEvent>)
        requires
            self.wf(),
            self.holds(id),
            forall|i: int| 0 <= i < events.len() ==> !(#[trigger] events[i]).brings_back(id),
        ensures
            self.run(events).holds(id),
            !self.run(events).hands_out(id),
        decreases events.len(),
    {
        self.lemma_capacity_is_never_exceeded(events);
        if events.len() > 0 {
            let earlier = events.drop_last();
            assert forall|i: int| 0 <= i < earlier.len() implies !(#[trigger] earlier[i]).brings_back(
                id,
            ) by {
                assert(earlier[i] == events[i]);
            }
            self.lemma_no_double_checkout(id, earlier);
            assert(!events.last().brings_back(id));
        }
        let now = self.run(events);
        if now.hands_out(id) {
            now.lemma_checkout_is_exclusive(id);
        }
    }

    /// A connection that could not be reset when it came back is gone:
    /// one connection fewer exists, and it is neither idle nor held.
    pub proof fn lemma_failed_recycle_discards(self, id: u64)
        requires
            self.wf(),
            self.holds(id),
        ensures
            self.release(id, false).live() == self.live() - 1,
            self.release(id, false).retired(id),
    {
    }

    /// A connection that is gone stays gone: whatever happens to the pool
    /// afterwards, no caller is ever handed it again.
    pub proof fn lemma_retired_is_never_handed_out(self, id: u64, events: Seq<PoolEvent>)
        requires
            self.wf(),
            self.retired(id),
        ensures
            self.run(events).retired(id),
            !self.run(events).hands_out(id),
        decreases events.len(),
    {
        self.lemma_capacity_is_never_exceeded(events);
        if events.len() > 0 {
            let before = self.run(events.drop_last());
            self.lemma_retired_is_never_handed_out(id, events.drop_last());
            self.lemma_capacity_is_never_exceeded(events.drop_last());
            let after = before.step(events.last());
            if after.idle.contains(id) {
                let i = choose|i: int| 0 <= i < after.idle.len() && after.idle[i] == id;
                match events.last() {
                    PoolEvent::Checkout => {
                        if before.idle.len() > 0 {
                            assert(after.idle[i] == before.idle[i + 1]);
                        } else {
                            assert(after.idle[i] == before.idle[i]);
                        }
                    },
                    PoolEvent::Release { id: returned, recycled } => {
                        if i < before.idle.len() {
                            assert(after.idle[i] == before.idle[i]);
                        }
                    },
                }
            }
        }
        let now = self.run(events);
        if now.idle.len() > 0 {
            assert(now.idle.contains(now.idle[0]));
        }
    }

    /// A connection that was reset when it came back is idle again, last
    /// in line, and as many connections exist as before.
    pub proof fn lemma_recycled_is_requeued(self, id: u64)
        requires
            self.wf(),
            self.holds(id),
        ensures
            self.release(id, true).live() == self.live(),
            self.release(id, true).idle.last() == id,
            !self.release(id, true).holds(id),
    {
    }
}

/// A connection that a caller holds: the token that `checkout` gives and
/// `release` takes back. It cannot be copied.
#[derive(Debug, PartialEq, Eq)]
pub struct ManagedConnection {
    id: u64,
}

impl View for ManagedConnection {
    type V = u64;

    closed spec fn view(&self) -> u64 {
        self.id
    }
}

impl ManagedConnection {
    /// The name of the connection.
    pub fn id(&self) -> (id: u64)
        ensures
            id == self@,
    {
        self.id
    }
}

/// The answer of `ConnectionPool::checkout`.
#[derive(Debug, PartialEq, Eq)]
pub enum Checkout {
    /// The caller takes over this idle connection.
    Reuse(ManagedConnection),
    /// The caller opens a session for this connection, then holds it; if
    /// that fails, the caller reports it with `create_failed`.
    Create(ManagedConnection),
    /// The caller waits until a connection has come back, then asks again.
    Wait,
}

impl View for Checkout {
    type V = Admission;

    open spec fn view(&self) -> Admission {
        match self {
            Checkout::Reuse(connection) => Admission::Reuse(connection@),
            Checkout::Create(connection) => Admission::Create(connection@),
            Checkout::Wait => Admission::Wait,
        }
    }
}

/// The answer of `ConnectionPool::release`.
#[derive(Debug, PartialEq, Eq)]
pub enum Release {
    /// The connection is idle again.
    Requeued,
    /// The connection could not be reset and is gone; the error is for the
    /// record, not for the caller that brought the connection back.
    Discarded(Error),
    /// The pool knows of no caller that holds this connection.
    NotCheckedOut,
}

/// A bounded pool of connections.
pub struct ConnectionPool {
    manager: ConnectionManager,
    max_connections: usize,
    idle: Vec<u64>,
    checked_out: Vec<u64>,
    issued: u64,
}

impl View for ConnectionPool {
    type V = PoolState;

    closed spec fn view(&self) -> PoolState {
        PoolState {
            max_connections: self.max_connections as nat,
            idle: self.idle@,
            checked_out: self.checked_out@.to_set(),
            issued: self.issued as nat,
        }
    }
}

impl ConnectionPool {
    /// Whether the pool is as its own operations leave it. `create_pool`
    /// establishes this and every operation keeps it.
    pub closed spec fn wf(&self) -> bool {
        self.checked_out@.no_duplicates() && self@.wf()
    }

    /// A pool that is as its operations leave it has a state of which
    /// `PoolState::wf` holds.
    pub proof fn lemma_wf(&self)
        requires
            self.wf(),
        ensures
            self@.wf(),
    {
    }

    /// What the manager holds with which the pool was made.
    pub closed spec fn credentials(&self) -> Credentials {
        self.manager@
    }

    /// The manager, for whoever opens the pool's sessions.
    pub fn manager(&self) -> (manager: &ConnectionManager)
        ensures
            manager@ == self.credentials(),
    {
        &self.manager
    }

    /// Tells the caller how to come by a connection, and counts the
    /// connection as held from now on where one is handed over or reserved.
    pub fn checkout(&mut self) -> (checkout: Checkout)
        requires
            old(self).wf(),
        ensures
            final(self).wf(),
            checkout@ == old(self)@.admission(),
            final(self)@ == old(self)@.checkout(),
            final(self).credentials() == old(self).credentials(),
    {
        proof {
            self.checked_out@.unique_seq_to_set();
        }
        if self.idle.len() > 0 {
            let id = self.idle.remove(0);
            proof {
                assert(self.idle@ =~= old(self).idle@.drop_first());
                assert(old(self).idle@[0] == id);
                assert(!old(self)@.holds(id));
            }
            self.checked_out.push(id);
            proof {
                old(self).checked_out@.lemma_push_to_set_commute(id);
                assert(self@.idle =~= old(self)@.checkout().idle);
                assert(self@.checked_out =~= old(self)@.checkout().checked_out);
                old(self)@.lemma_checkout_keeps_wf();
            }
            Checkout::Reuse(ManagedConnection { id })
        } else if self.checked_out.len() < self.max_connections && self.issued < u64::MAX {
            let id = self.issued;
            self.issued = id + 1;
            self.checked_out.push(id);
            proof {
                old(self).checked_out@.lemma_push_to_set_commute(id);
                assert(!old(self)@.holds(id));
                assert(self@.checked_out =~= old(self)@.checkout().checked_out);
                old(self)@.lemma_checkout_keeps_wf();
            }
            Checkout::Create(ManagedConnection { id })
        } else {
            Checkout::Wait
        }
    }
}

impl ConnectionPool {
    /// The most connections that may exist at a time.
    pub fn max_connections(&self) -> (max_connections: usize)
        ensures
            max_connections == self@.max_connections,
    {
        self.max_connections
    }

    /// The number of connections that nobody holds.
    pub fn idle_count(&self) -> (count: usize)
        ensures
            count == self@.idle.len(),
    {
        self.idle.len()
    }

    /// The number of connections that callers hold or are about to open.
    pub fn checked_out_count(&self) -> (count: usize)
        requires
            self.wf(),
        ensures
            count == self@.checked_out.len(),
    {
        proof {
            self.checked_out@.unique_seq_to_set();
        }
        self.checked_out.len()
    }

    /// Takes `id` from the connections that callers hold, if it is there.
    fn drop_held(&mut self, id: u64) -> (was_held: bool)
        requires
            old(self).wf(),
        ensures
            final(self).wf(),
            was_held == old(self)@.holds(id),
            final(self)@ == old(self)@.release(id, false),
            final(self).idle@ == old(self).idle@,
            final(self).credentials() == old(self).credentials(),
    {
        match position(&self.checked_out, id) {
            None => false,
            Some(at) => {
                let _ = self.checked_out.remove(at);
                proof {
                    let before = old(self).checked_out@;
                    let after = self.checked_out@;
                    assert forall|i: int, j: int|
                        0 <= i < after.len() && 0 <= j < after.len() && i != j implies after[i]
                        != after[j] by {
                        let from_i = if i < at { i } else { i + 1 };
                        let from_j = if j < at { j } else { j + 1 };
                        assert(after[i] == before[from_i]);
                        assert(after[j] == before[from_j]);
                    }
                    assert forall|other: u64| after.to_set().contains(other)
                        == before.to_set().remove(id).contains(other) by {
                        if after.contains(other) {
                            let i = choose|i: int| 0 <= i < after.len() && after[i] == other;
                            let from_i = if i < at { i } else { i + 1 };
                            assert(before[from_i] == other);
                        }
                        if before.contains(other) && other != id {
                            let k = choose|k: int| 0 <= k < before.len() && before[k] == other;
                            let to_k = if k < at { k } else { k - 1 };
                            assert(after[to_k] == other);
                        }
                    }
                    assert(self@.checked_out =~= old(self)@.release(id, false).checked_out);
                    old(self)@.lemma_release_keeps_wf(id, false);
                }
                true
            },
        }
    }

    /// Takes back a connection. `reset` tells whether the connection could
    /// be reset for its next caller. One that was reset is idle again; one
    /// that was not is gone, and a new one may take its place. The caller
    /// that brings a connection back is never failed: the error of a
    /// connection that is gone is part of the answer, for the record.
    pub fn release(&mut self, connection: ManagedConnection, reset: Result<(), String>) -> (release:
        Release)
        requires
            old(self).wf(),
        ensures
            final(self).wf(),
            final(self)@ == old(self)@.release(connection@, reset is Ok),
            release == release_answer(old(self)@.holds(connection@), reset),
            final(self).credentials() == old(self).credentials(),
    {
        let id = connection.id;
        if !self.drop_held(id) {
            return Release::NotCheckedOut;
        }
        match reset {
            Ok(_) => {
                self.idle.push(id);
                proof {
                    assert(self@.checked_out =~= old(self)@.release(id, true).checked_out);
                    old(self)@.lemma_release_keeps_wf(id, true);
                }
                Release::Requeued
            },
            Err(cause) => Release::Discarded(Error::ConnectionRecycleFailed(cause)),
        }
    }

    /// Takes back the place that `checkout` reserved for a connection that
    /// could not be opened, and gives the error that the caller of
    /// `checkout` is owed.
    pub fn create_failed(&mut self, connection: ManagedConnection, cause: String) -> (error: Error)
        requires
            old(self).wf(),
        ensures
            final(self).wf(),
            final(self)@ == old(self)@.release(connection@, false),
            error == Error::ConnectionCreateFailed(cause),
            final(self).credentials() == old(self).credentials(),
    {
        let _ = self.drop_held(connection.id);
        Error::ConnectionCreateFailed(cause)
    }
}

/// What `release` answers: whether a caller held the connection decides
/// first, then whether it could be reset.
pub open spec fn release_answer(held: bool, reset: Result<(), String>) -> Release {
    if !held {
        Release::NotCheckedOut
    } else {
        match reset {
            Ok(_) => Release::Requeued,
            Err(cause) => Release::Discarded(Error::ConnectionRecycleFailed(cause)),
        }
    }
}

/// The first place of `id` in `list`, if it has one.
fn position(list: &Vec<u64>, id: u64) -> (found: Option<usize>)
    ensures
        match found {
            Some(at) => at < list@.len() && list@[at as int] == id,
            None => !list@.contains(id),
        },
{
    let mut at: usize = 0;
    while at < list.len()
        invariant
            at <= list@.len(),
            forall|i: int| 0 <= i < at ==> list@[i] != id,
        decreases list@.len() - at,
    {
        if list[at] == id {
            return Some(at);
        }
        at += 1;
    }
    None
}

/// Makes a pool that is ready and holds no connection yet. A pool must have
/// room for one connection at least.
pub fn create_pool(config: &Config) -> (result: Result<ConnectionPool, Error>)
    ensures
        config.max_connections == 0 ==> result == Err::<ConnectionPool, Error>(
            Error::InvalidMaxConnections,
        ),
        config.max_connections > 0 ==> result is Ok,
        result matches Ok(pool) ==> {
            &&& pool.wf()
            &&& pool@ == PoolState::fresh(config.max_connections as nat)
            &&& pool.credentials() == (Credentials {
                uri: config.uri@,
                user: config.user@,
                password: config.password@,
            })
        },
{
    if config.max_connections == 0 {
        return Err(Error::InvalidMaxConnections);
    }
    let manager = ConnectionManager::new(
        config.uri.as_str(),
        config.user.as_str(),
        config.password.as_str(),
    );
    let pool = ConnectionPool {
        manager,
        max_connections: config.max_connections,
        idle: Vec::new(),
        checked_out: Vec::new(),
        issued: 0,
    };
    proof {
        assert(pool.checked_out@.to_set() =~= Set::<u64>::empty());
    }
    Ok(pool)
}

} // verus!
