//! Routing of tunnel messages to the connections they belong to.
//!
//! The dispatcher keeps one channel per open connection, keyed by the
//! connection id, and hands out fresh ids to new connections.
use crate::message::{ConnectionId, DispatcherMessage, DispatcherTunnelMessage};
use std::collections::HashMap;
use std::collections::hash_map::Entry;
use vstd::prelude::*;

verus! {

broadcast use vstd::std_specs::hash::group_hash_axioms;

/// The number of ids that `u32` holds.
pub open spec fn id_space() -> int {
    0x1_0000_0000
}

/// The number of candidates past the first that the search for a free id
/// tries before it would try one again.
pub open spec fn probe_limit() -> nat {
    0x8000_0000
}

/// The `k`-th id that the search for a free id tries, starting at `start`:
/// first `start`, then `start + 1`, `start + 3`, `start + 5`, ... (wrapping).
pub open spec fn probe_candidate(start: ConnectionId, k: nat) -> ConnectionId {
    if k == 0 {
        start
    } else {
        ((start + 2 * k - 1) % id_space()) as ConnectionId
    }
}

/// Where the next search starts after the search from `start` took its
/// `k`-th candidate.
pub open spec fn probe_next(start: ConnectionId, k: nat) -> ConnectionId {
    ((start + 2 * k + 1) % id_space()) as ConnectionId
}

/// `k` is the first candidate, from `start`, that `used` does not hold.
pub open spec fn first_free(used: Set<ConnectionId>, start: ConnectionId, k: nat) -> bool {
    &&& k <= probe_limit()
    &&& !used.contains(probe_candidate(start, k))
    &&& forall|j: nat| j < k ==> used.contains(#[trigger] probe_candidate(start, j))
}

/// Some candidate, from `start`, is free in `used`.
pub open spec fn has_free_candidate(used: Set<ConnectionId>, start: ConnectionId) -> bool {
    exists|k: nat| k <= probe_limit() && !used.contains(#[trigger] probe_candidate(start, k))
}

/// Different candidates of one search are different ids.
proof fn lemma_probe_candidates_distinct(start: ConnectionId, i: nat, j: nat)
    requires
        i <= probe_limit(),
        j <= probe_limit(),
        probe_candidate(start, i) == probe_candidate(start, j),
    ensures
        i == j,
{
    let a: int = if i == 0 { start as int } else { start + 2 * i - 1 };
    let b: int = if j == 0 { start as int } else { start + 2 * j - 1 };
    assert(0 <= a < 2 * id_space() && 0 <= b < 2 * id_space());
    assert(a % id_space() == probe_candidate(start, i) as int);
    assert(b % id_space() == probe_candidate(start, j) as int);
    assert(a == b) by (nonlinear_arith)
        requires
            0 <= a < 2 * 0x1_0000_0000,
            0 <= b < 2 * 0x1_0000_0000,
            a % 0x1_0000_0000 == b % 0x1_0000_0000,
            a - b < 0x1_0000_0000,
            b - a < 0x1_0000_0000,
    ;
}

/// While no more than `probe_limit()` ids are in use, the search for a free
/// id finds one.
pub proof fn lemma_free_candidate_exists(used: Set<ConnectionId>, start: ConnectionId)
    requires
        used.finite(),
        used.len() <= 0x8000_0000,
    ensures
        has_free_candidate(used, start),
{
    if !has_free_candidate(used, start) {
        let range = vstd::set_lib::set_int_range(0, probe_limit() as int + 1);
        let f = |i: int| probe_candidate(start, i as nat);
        vstd::set_lib::lemma_int_range(0, probe_limit() as int + 1);
        assert(vstd::relations::injective_on(f, range)) by {
            assert forall|x1: int, x2: int|
                range.contains(x1) && range.contains(x2) && #[trigger] f(x1) == #[trigger] f(
                    x2,
                ) implies x1 == x2 by {
                lemma_probe_candidates_distinct(start, x1 as nat, x2 as nat);
            }
        }
        let tried = range.map(f);
        vstd::set_lib::lemma_map_size(range, tried, f);
        assert(tried.subset_of(used)) by {
            assert forall|id: ConnectionId| tried.contains(id) implies used.contains(id) by {
                let i = choose|i: int| range.contains(i) && f(i) == id;
                assert(!(i as nat <= probe_limit() && !used.contains(probe_candidate(start, i as nat))));
            }
        }
        vstd::set_lib::lemma_len_subset(tried, used);
    }
}

/// Registering a channel for a fresh id and then closing that connection
/// hands the channel back and leaves the registered channels as they were.
pub proof fn lemma_close_undoes_register<C>(
    before: Map<ConnectionId, C>,
    id: ConnectionId,
    chan: C,
)
    requires
        !before.contains_key(id),
    ensures
        before.insert(id, chan).contains_key(id),
        before.insert(id, chan)[id] == chan,
        before.insert(id, chan).remove(id) == before,
{
    assert(before.insert(id, chan).remove(id) =~= before);
}

/// Once a channel is registered for a connection whose data message found
/// none, the connection's later data messages find that channel: only the
/// first message of a connection needs a channel to be opened.
pub proof fn lemma_channel_found_after_insert<C>(
    channels: Map<ConnectionId, C>,
    id: ConnectionId,
    chan: C,
)
    ensures
        channels.insert(id, chan).contains_key(id),
        channels.insert(id, chan)[id] == chan,
{
}

/// When no candidate is free, every id of the search is taken: `start` and
/// each id an odd distance past it (wrapping), half of all ids and one more.
pub proof fn lemma_no_free_candidate(used: Set<ConnectionId>, start: ConnectionId)
    requires
        !has_free_candidate(used, start),
    ensures
        forall|d: int|
            0 <= d < 0x1_0000_0000 && (d == 0 || d % 2 == 1) ==> used.contains(
                #[trigger] (((start + d) % 0x1_0000_0000) as ConnectionId),
            ),
{
    assert forall|d: int|
        0 <= d < 0x1_0000_0000 && (d == 0 || d % 2 == 1) implies used.contains(
        #[trigger] (((start + d) % 0x1_0000_0000) as ConnectionId),
    ) by {
        let k: nat = if d == 0 {
            0
        } else {
            ((d + 1) / 2) as nat
        };
        if d != 0 {
            assert(2 * k - 1 == d);
        }
        assert(k <= probe_limit());
        assert(probe_candidate(start, k) == ((start + d) % 0x1_0000_0000) as ConnectionId);
        assert(used.contains(probe_candidate(start, k)));
    }
}

/// The first free candidate, as a distance from where the search starts:
/// the id `start + d` (wrapping), with `d` zero or odd, and every candidate
/// nearer than `d` taken.
proof fn lemma_first_free_distance(used: Set<ConnectionId>, start: ConnectionId, k: nat)
    requires
        first_free(used, start, k),
    ensures
        ({
            let d: int = if k == 0 { 0 } else { 2 * k - 1 };
            &&& 0 <= d < 0x1_0000_0000
            &&& (d == 0 || d % 2 == 1)
            &&& probe_candidate(start, k) == ((start + d) % 0x1_0000_0000) as ConnectionId
            &&& forall|e: int|
                0 <= e < d && (e == 0 || e % 2 == 1) ==> used.contains(
                    #[trigger] (((start + e) % 0x1_0000_0000) as ConnectionId),
                )
            &&& probe_next(start, k) == ((start + d + if d == 0 {
                1int
            } else {
                2int
            }) % 0x1_0000_0000) as ConnectionId
        }),
{
    let d: int = if k == 0 { 0 } else { 2 * k - 1 };
    assert forall|e: int| 0 <= e < d && (e == 0 || e % 2 == 1) implies used.contains(
        #[trigger] (((start + e) % 0x1_0000_0000) as ConnectionId),
    ) by {
        let j: nat = if e == 0 {
            0
        } else {
            ((e + 1) / 2) as nat
        };
        if e != 0 {
            assert(2 * j - 1 == e);
        }
        assert(j < k);
        assert(used.contains(probe_candidate(start, j)));
    }
}

/// Where a message goes.
#[derive(Debug, PartialEq, Eq)]
pub enum Dispatch<C> {
    /// The connection closes: its channel, if it had one, is unregistered and
    /// handed back to receive the close message.
    Close(Option<C>),
    /// The payload goes to the channel registered for the connection.
    Deliver(ConnectionId, DispatcherMessage),
    /// No channel is registered for the connection.
    Unrouted(DispatcherTunnelMessage),
}

/// The connections of one end of the tunnel.
pub struct Dispatcher<C> {
    next_connection: ConnectionId,
    connections: HashMap<ConnectionId, C>,
}

impl<C> Dispatcher<C> {
    /// The registered channels, by connection id.
    pub closed spec fn channels(&self) -> Map<ConnectionId, C> {
        self.connections@
    }

    /// Where the search for the next free id starts.
    pub closed spec fn next_id(&self) -> ConnectionId {
        self.next_connection
    }

    /// A dispatcher without connections, whose first id is 0.
    pub fn new() -> (d: Self)
        ensures
            d.channels() == Map::<ConnectionId, C>::empty(),
            d.next_id() == 0,
    {
        Dispatcher { next_connection: 0, connections: HashMap::new() }
    }

    /// The number of registered channels.
    pub fn len(&self) -> (n: usize)
        ensures
            n == self.channels().len(),
    {
        self.connections.len()
    }

    /// Whether a channel is registered for `id`.
    pub fn contains(&self, id: ConnectionId) -> (b: bool)
        ensures
            b == self.channels().contains_key(id),
    {
        self.connections.contains_key(&id)
    }

    /// While no more than `probe_limit()` connections are registered,
    /// `register_connection` finds a free id.
    pub proof fn lemma_can_register(&self)
        requires
            self.channels().len() <= 0x8000_0000,
        ensures
            has_free_candidate(self.channels().dom(), self.next_id()),
    {
        assert(self.connections@.dom().finite());
        lemma_free_candidate_exists(self.channels().dom(), self.next_id());
    }

    /// Registers `chan` under a fresh id and returns the id.
    ///
    /// The id is the first candidate, from where the last search left off,
    /// that no channel is registered for: `next`, `next + 1`, `next + 3`,
    /// `next + 5`, ... (wrapping). The next search starts two ids past the
    /// chosen one, or one past it when the first candidate was free.
    ///
    /// When every candidate is taken, the search would go round for ever;
    /// then `chan` is handed back and nothing changes.
    pub fn register_connection(&mut self, chan: C) -> (r: Result<ConnectionId, C>)
        ensures
            r is Ok <==> has_free_candidate(old(self).channels().dom(), old(self).next_id()),
            old(self).channels().len() <= 0x8000_0000 ==> r is Ok,
            r is Err ==> forall|d: int|
                0 <= d < 0x1_0000_0000 && (d == 0 || d % 2 == 1) ==> old(self).channels().contains_key(
                    #[trigger] (((old(self).next_id() + d) % 0x1_0000_0000) as ConnectionId),
                ),
            r matches Ok(id) ==> exists|k: nat|
                {
                    &&& first_free(old(self).channels().dom(), old(self).next_id(), k)
                    &&& id == #[trigger] probe_candidate(old(self).next_id(), k)
                    &&& final(self).next_id() == probe_next(old(self).next_id(), k)
                },
            r matches Ok(id) ==> exists|d: int|
                {
                    &&& 0 <= d < 0x1_0000_0000
                    &&& (d == 0 || d % 2 == 1)
                    &&& id == #[trigger] (((old(self).next_id() + d) % 0x1_0000_0000) as ConnectionId)
                    &&& forall|e: int|
                        0 <= e < d && (e == 0 || e % 2 == 1) ==> old(self).channels().contains_key(
                            #[trigger] (((old(self).next_id() + e) % 0x1_0000_0000) as ConnectionId),
                        )
                    &&& final(self).next_id() == ((old(self).next_id() + d + if d == 0 {
                        1int
                    } else {
                        2int
                    }) % 0x1_0000_0000) as ConnectionId
                },
            r matches Ok(id) ==> !old(self).channels().contains_key(id),
            r matches Ok(id) ==> final(self).channels() == old(self).channels().insert(id, chan),
            r matches Err(c) ==> c == chan,
            r is Err ==> final(self).channels() == old(self).channels(),
            r is Err ==> final(self).next_id() == old(self).next_id(),
    {
        proof {
            if old(self).channels().len() <= 0x8000_0000 {
                old(self).lemma_can_register();
            }
        }
        let start_exec = self.next_connection;
        let ghost start = self.next_connection;
        let ghost used = self.connections@.dom();
        let mut k: u32 = 0;
        let mut con = self.next_connection;
        loop
            invariant
                self.connections@.dom() == used,
                self.connections@ == old(self).connections@,
                used == old(self).channels().dom(),
                start == old(self).next_id(),
                start_exec == start,
                old(self).channels().len() <= 0x8000_0000 ==> has_free_candidate(used, start),
                con == probe_candidate(start, k as nat),
                self.next_connection == (start + 2 * k) % id_space(),
                forall|j: nat| j < k ==> used.contains(#[trigger] probe_candidate(start, j)),
                k <= probe_limit(),
            decreases probe_limit() - k,
        {
            self.next_connection = self.next_connection.wrapping_add(1);
            assert(self.next_connection == (start + 2 * k + 1) % id_space());
            if self.connections.contains_key(&con) {
                if k == 0x8000_0000 {
                    self.next_connection = start_exec;
                    proof {
                        assert forall|w: nat| w <= probe_limit() implies used.contains(
                            #[trigger] probe_candidate(start, w),
                        ) by {
                            if w < k {
                            }
                        }
                        lemma_no_free_candidate(used, start);
                    }
                    return Err(chan);
                }
                con = self.next_connection;
                self.next_connection = self.next_connection.wrapping_add(1);
                k = k + 1;
            } else {
                self.connections.insert(con, chan);
                assert(first_free(used, start, k as nat));
                proof {
                    lemma_first_free_distance(used, start, k as nat);
                    let d: int = if k == 0 { 0 } else { 2 * k - 1 };
                    assert(con == ((start + d) % 0x1_0000_0000) as ConnectionId);
                }
                return Ok(con);
            }
        }
    }

    /// Decides where `msg` goes.
    ///
    /// A close message unregisters the connection's channel and hands it
    /// back; a data message goes to the registered channel, or is handed
    /// back unrouted when there is none. Only a close message changes the
    /// registered channels.
    pub fn dispatch_message(&mut self, msg: DispatcherTunnelMessage) -> (d: Dispatch<C>)
        ensures
            final(self).next_id() == old(self).next_id(),
            msg.payload is CloseConnection ==> {
                &&& final(self).channels() == old(self).channels().remove(msg.id)
                &&& d == Dispatch::Close(
                    if old(self).channels().contains_key(msg.id) {
                        Some(old(self).channels()[msg.id])
                    } else {
                        None
                    },
                )
            },
            msg.payload is IncomingData ==> {
                &&& final(self).channels() == old(self).channels()
                &&& old(self).channels().contains_key(msg.id) ==> d == Dispatch::<C>::Deliver(
                    msg.id,
                    msg.payload,
                )
                &&& !old(self).channels().contains_key(msg.id) ==> d == Dispatch::<C>::Unrouted(msg)
            },
    {
        match msg.payload {
            DispatcherMessage::CloseConnection => Dispatch::Close(self.connections.remove(&msg.id)),
            DispatcherMessage::IncomingData(..) => {
                if self.connections.contains_key(&msg.id) {
                    Dispatch::Deliver(msg.id, msg.payload)
                } else {
                    Dispatch::Unrouted(msg)
                }
            },
        }
    }

    /// The channel registered for `id`, to send on.
    pub fn channel_mut(&mut self, id: ConnectionId) -> (r: Option<&mut C>)
        ensures
            r is Some <==> old(self).channels().contains_key(id),
            final(self).next_id() == old(self).next_id(),
            r matches Some(c) ==> *c == old(self).channels()[id],
            r matches Some(c) ==> final(self).channels() == old(self).channels().insert(id, *final(c)),
            r is None ==> final(self).channels() == old(self).channels(),
    {
        match self.connections.entry(id) {
            Entry::Occupied(e) => Some(e.into_mut()),
            Entry::Vacant(_) => None,
        }
    }

    /// Registers `chan` for connection `id`, in place of any channel that
    /// was registered for it.
    pub fn insert_connection(&mut self, id: ConnectionId, chan: C)
        ensures
            final(self).next_id() == old(self).next_id(),
            final(self).channels() == old(self).channels().insert(id, chan),
    {
        self.connections.insert(id, chan);
    }
}

} // verus!
