//! The decisions of the flow pump and of the UDP dispatcher, as state
//! machines; the caller performs the I/O and hands back what happened.
use vstd::prelude::*;

verus! {

/// What happened on a flow.
#[derive(Clone, Copy, Debug, PartialEq, Eq)]
pub enum PumpEvent {
    /// The client side moved this many bytes (or one datagram) to the server.
    ClientData(u64),
    /// The server side moved this many bytes (or one datagram) to the client.
    ServerData(u64),
    /// The client side reached end of stream or its channel was dropped.
    ClientClosed,
    /// The server side reached end of stream or its channel was dropped.
    ServerClosed,
    /// The client side failed.
    ClientFailed,
    /// The server side failed.
    ServerFailed,
    /// The timer looked at the clock.
    Tick,
}

/// Why a flow ended.
#[derive(Clone, Copy, Debug, PartialEq, Eq)]
pub enum PumpEnd {
    ClientClose,
    ServerClose,
    ClientError,
    ServerError,
    Timeout,
}

/// The supervisor of one flow: when it last saw progress, how much moved
/// each way, and whether it has ended.
#[derive(Clone, Copy, Debug)]
pub struct Pump {
    /// Idle time (ms) after which the flow ends.
    pub timeout: u64,
    pub last_activity: u64,
    pub client_bytes: u64,
    pub server_bytes: u64,
    pub ended: Option<PumpEnd>,
}

/// The state after `ev` at time `now` (ms).
pub open spec fn pump_next(p: Pump, ev: PumpEvent, now: u64) -> Pump {
    if p.ended is Some {
        p
    } else {
        match ev {
            PumpEvent::ClientData(n) => Pump {
                last_activity: now,
                client_bytes: if p.client_bytes + n > u64::MAX {
                    u64::MAX
                } else {
                    (p.client_bytes + n) as u64
                },
                ..p
            },
            PumpEvent::ServerData(n) => Pump {
                last_activity: now,
                server_bytes: if p.server_bytes + n > u64::MAX {
                    u64::MAX
                } else {
                    (p.server_bytes + n) as u64
                },
                ..p
            },
            PumpEvent::ClientClosed => Pump { ended: Some(PumpEnd::ClientClose), ..p },
            PumpEvent::ServerClosed => Pump { ended: Some(PumpEnd::ServerClose), ..p },
            PumpEvent::ClientFailed => Pump { ended: Some(PumpEnd::ClientError), ..p },
            PumpEvent::ServerFailed => Pump { ended: Some(PumpEnd::ServerError), ..p },
            PumpEvent::Tick => if now >= p.last_activity && now - p.last_activity >= p.timeout {
                Pump { ended: Some(PumpEnd::Timeout), ..p }
            } else {
                p
            },
        }
    }
}

impl Pump {
    /// A flow that starts at `now` (ms) and ends after `timeout` ms idle.
    pub fn new(timeout: u64, now: u64) -> (r: Self)
        ensures
            r == (Pump { timeout, last_activity: now, client_bytes: 0, server_bytes: 0, ended: None }),
    {
        Pump { timeout, last_activity: now, client_bytes: 0, server_bytes: 0, ended: None }
    }

    /// Takes one event at time `now` (ms); gives why the flow ends, if it
    /// ends now. Both directions are then to be aborted and their channels
    /// dropped.
    pub fn step(&mut self, ev: PumpEvent, now: u64) -> (r: Option<PumpEnd>)
        ensures
            *final(self) == pump_next(*old(self), ev, now),
            r == if old(self).ended is None {
                final(self).ended
            } else {
                None
            },
    {
        if self.ended.is_some() {
            return None;
        }
        match ev {
            PumpEvent::ClientData(n) => {
                self.last_activity = now;
                self.client_bytes = if self.client_bytes > u64::MAX - n {
                    u64::MAX
                } else {
                    self.client_bytes + n
                };
            },
            PumpEvent::ServerData(n) => {
                self.last_activity = now;
                self.server_bytes = if self.server_bytes > u64::MAX - n {
                    u64::MAX
                } else {
                    self.server_bytes + n
                };
            },
            PumpEvent::ClientClosed => {
                self.ended = Some(PumpEnd::ClientClose);
            },
            PumpEvent::ServerClosed => {
                self.ended = Some(PumpEnd::ServerClose);
            },
            PumpEvent::ClientFailed => {
                self.ended = Some(PumpEnd::ClientError);
            },
            PumpEvent::ServerFailed => {
                self.ended = Some(PumpEnd::ServerError);
            },
            PumpEvent::Tick => {
                if now >= self.last_activity && now - self.last_activity >= self.timeout {
                    self.ended = Some(PumpEnd::Timeout);
                }
            },
        }
        self.ended
    }
}

/// Once a side closes, the flow has ended, and no later event moves a byte
/// or changes the state: what went either way is what had gone before.
pub proof fn lemma_close_terminates(p: Pump, now: u64, evs: Seq<(PumpEvent, u64)>)
    requires
        p.ended is None,
    ensures
        pump_next(p, PumpEvent::ClientClosed, now).ended == Some(PumpEnd::ClientClose),
        pump_next(p, PumpEvent::ServerClosed, now).ended == Some(PumpEnd::ServerClose),
        pump_run(pump_next(p, PumpEvent::ClientClosed, now), evs) == pump_next(p, PumpEvent::ClientClosed, now),
        pump_run(pump_next(p, PumpEvent::ServerClosed, now), evs) == pump_next(p, PumpEvent::ServerClosed, now),
{
    lemma_ended_stays(pump_next(p, PumpEvent::ClientClosed, now), evs);
    lemma_ended_stays(pump_next(p, PumpEvent::ServerClosed, now), evs);
}

/// The state after a run of events, each with its time.
pub open spec fn pump_run(p: Pump, evs: Seq<(PumpEvent, u64)>) -> Pump
    decreases evs.len(),
{
    if evs.len() == 0 {
        p
    } else {
        pump_run(pump_next(p, evs[0].0, evs[0].1), evs.drop_first())
    }
}

proof fn lemma_ended_stays(p: Pump, evs: Seq<(PumpEvent, u64)>)
    requires
        p.ended is Some,
    ensures
        pump_run(p, evs) == p,
    decreases evs.len(),
{
    if evs.len() > 0 {
        lemma_ended_stays(p, evs.drop_first());
    }
}

/// With no progress for `timeout`, a tick ends the flow with `Timeout`; a
/// tick before that leaves it running.
pub proof fn lemma_idle_timeout(p: Pump, now: u64)
    requires
        p.ended is None,
        now >= p.last_activity,
    ensures
        now - p.last_activity >= p.timeout ==> pump_next(p, PumpEvent::Tick, now).ended == Some(
            PumpEnd::Timeout,
        ),
        now - p.last_activity < p.timeout ==> pump_next(p, PumpEvent::Tick, now).ended is None,
{
}

/// The UDP sessions of one client, one per outbound, numbered in the order
/// they were opened.
#[derive(Clone, Debug)]
pub struct UdpDispatch {
    /// Pairs of outbound index and session number.
    pub sessions: Vec<(usize, u64)>,
    pub next_id: u64,
}

/// The session already open towards outbound `out`, if any.
pub open spec fn session_of(s: Seq<(usize, u64)>, out: usize) -> Option<u64>
    decreases s.len(),
{
    if s.len() == 0 {
        None
    } else if s.last().0 == out {
        Some(s.last().1)
    } else {
        session_of(s.drop_last(), out)
    }
}

/// What a dispatcher does with a datagram routed to `out`.
#[derive(Clone, Copy, Debug, PartialEq, Eq)]
pub enum Dispatch {
    /// Send it on the session with this number.
    Existing(u64),
    /// Bind a new session with this number, then send it there.
    Open(u64),
}

/// The sessions and the next number after a datagram routed to `out`.
pub open spec fn dispatch_next(s: Seq<(usize, u64)>, next: u64, out: usize) -> (Seq<(usize, u64)>, u64, u64) {
    match session_of(s, out) {
        Some(id) => (s, next, id),
        None => (s.push((out, next)), (next + 1) as u64, next),
    }
}

impl UdpDispatch {
    pub fn new() -> (r: Self)
        ensures
            r.sessions@ == Seq::<(usize, u64)>::empty(),
            r.next_id == 0,
    {
        UdpDispatch { sessions: Vec::new(), next_id: 0 }
    }

    /// Chooses the session for a datagram routed to outbound `out`.
    pub fn dispatch(&mut self, out: usize) -> (r: Dispatch)
        requires
            old(self).next_id < u64::MAX,
        ensures
            ({
                let (s, n, id) = dispatch_next(old(self).sessions@, old(self).next_id, out);
                &&& final(self).sessions@ == s
                &&& final(self).next_id == n
                &&& r == if session_of(old(self).sessions@, out) is Some {
                    Dispatch::Existing(id)
                } else {
                    Dispatch::Open(id)
                }
            }),
    {
        let mut i: usize = self.sessions.len();
        assert(self.sessions@.subrange(0, i as int) =~= self.sessions@);
        while i > 0
            invariant
                i <= self.sessions@.len(),
                self.sessions@ == old(self).sessions@,
                self.next_id == old(self).next_id,
                session_of(self.sessions@, out) == session_of(self.sessions@.subrange(0, i as int), out),
            decreases i,
        {
            assert(self.sessions@.subrange(0, i as int).drop_last() =~= self.sessions@.subrange(0, i - 1));
            let (o, id) = self.sessions[i - 1];
            if o == out {
                return Dispatch::Existing(id);
            }
            i = i - 1;
        }
        let id = self.next_id;
        self.sessions.push((out, id));
        self.next_id = id + 1;
        Dispatch::Open(id)
    }

    /// Forgets every session, as when the client's flow times out.
    pub fn clear(&mut self)
        ensures
            final(self).sessions@ == Seq::<(usize, u64)>::empty(),
            final(self).next_id == old(self).next_id,
    {
        self.sessions.clear();
    }
}

proof fn lemma_session_kept(s: Seq<(usize, u64)>, out: usize, other: usize, id: u64)
    requires
        session_of(s, out) is Some,
    ensures
        session_of(s.push((other, id)), out) == session_of(s, out) || other == out,
{
    assert(s.push((other, id)).drop_last() =~= s);
}

/// Full cone: datagrams of one client routed to the same outbound share one
/// session, whatever was dispatched between them.
pub proof fn lemma_fullcone(s: Seq<(usize, u64)>, next: u64, out: usize, between: Seq<usize>)
    ensures
        ({
            let (s1, n1, id1) = dispatch_next(s, next, out);
            let (s2, n2) = dispatch_all(s1, n1, between);
            dispatch_next(s2, n2, out).2 == id1
        }),
{
    let (s1, n1, id1) = dispatch_next(s, next, out);
    if session_of(s, out) is None {
        assert(s.push((out, next)).drop_last() =~= s);
    }
    lemma_dispatch_all_keeps(s1, n1, between, out);
}

/// The sessions and the next number after datagrams routed to each of `outs`.
pub open spec fn dispatch_all(s: Seq<(usize, u64)>, next: u64, outs: Seq<usize>) -> (Seq<(usize, u64)>, u64)
    decreases outs.len(),
{
    if outs.len() == 0 {
        (s, next)
    } else {
        let (s1, n1, _) = dispatch_next(s, next, outs[0]);
        dispatch_all(s1, n1, outs.drop_first())
    }
}

proof fn lemma_dispatch_all_keeps(s: Seq<(usize, u64)>, next: u64, outs: Seq<usize>, out: usize)
    requires
        session_of(s, out) is Some,
    ensures
        session_of(dispatch_all(s, next, outs).0, out) == session_of(s, out),
    decreases outs.len(),
{
    if outs.len() > 0 {
        let (s1, n1, _) = dispatch_next(s, next, outs[0]);
        if session_of(s, outs[0]) is None {
            lemma_session_kept(s, out, outs[0], next);
            if outs[0] == out {
            }
        }
        lemma_dispatch_all_keeps(s1, n1, outs.drop_first(), out);
    }
}

} // verus!
