//! One query: its states, and what moves it from one to the next.

use vstd::prelude::*;

use crate::answer;
use crate::answer::{Verdict, VerdictModel};
use crate::config::{DNS_MAX_NAME_SIZE, DNS_MAX_RESULT_COUNT, DNS_MAX_SERVER_COUNT};
use crate::error::GetQueryResultError;
use crate::ip::{IpAddress, Ipv4Address, Ipv6Address, UdpRepr};
use crate::result::{QueryResult, ResultModel};
use crate::storage;
use crate::time::{Duration, Instant};
use crate::wire;
use crate::wire::{Packet, Question, QuestionModel, Repr, Type, FLAG_RECURSION_DESIRED};

verus! {

/// The port that servers listen on.
pub const DNS_PORT: u16 = 53;

/// The port of multicast DNS.
pub const MDNS_DNS_PORT: u16 = 5353;

/// Microseconds from the first request to the second.
pub const RETRANSMIT_DELAY: u64 = 1_000_000;

/// The most microseconds from one request to the next.
pub const MAX_RETRANSMIT_DELAY: u64 = 10_000_000;

/// Microseconds that a server has to answer.
pub const RETRANSMIT_TIMEOUT: u64 = 10_000_000;

/// The multicast DNS group `ff02::fb`.
pub const MDNS_IPV6_BITS: u128 = 0xff02_0000_0000_0000_0000_0000_0000_00fb;

/// The multicast DNS group `224.0.0.251`.
pub const MDNS_IPV4_BITS: u32 = 0xe000_00fb;

/// How many multicast groups there are to ask.
pub const MDNS_SERVER_COUNT: usize = 2;

/// The most octets that a request takes.
pub const MAX_REQUEST_LEN: usize = 512;

/// Whether a query is asked of the local network rather than of a server.
#[derive(Debug, Clone, Copy, PartialEq, Eq, Structural)]
pub enum MulticastDns {
    Disabled,
    Enabled,
}

/// The numbers, drawn at random, by which a response is matched with its
/// query.
#[derive(Debug, Clone, Copy, PartialEq, Eq, Structural)]
pub struct QueryIds {
    /// The transaction ID.
    pub txid: u16,
    /// The UDP port that requests come from and responses go to.
    pub port: u16,
}

/// A query that waits for its answer, as a mathematical value; times are in
/// microseconds.
#[verifier::ext_equal]
pub struct PendingModel {
    /// The name that is looked up, in wire format.
    pub name: Seq<u8>,
    pub type_: Type,
    pub port: u16,
    pub txid: u16,
    /// When the server that is being asked runs out of time: none before the
    /// query is first dispatched.
    pub timeout_at: Option<int>,
    /// When the next request is due.
    pub retransmit_at: int,
    /// How long the next request will wait for an answer.
    pub delay: int,
    /// The server that is being asked.
    pub server_idx: int,
    pub mdns: MulticastDns,
}

/// The state of a query as a mathematical value.
#[verifier::ext_equal]
pub enum StateModel {
    Pending(PendingModel),
    Completed(Seq<ResultModel>),
    Failure(GetQueryResultError),
}

/// A query as a mathematical value.
#[verifier::ext_equal]
pub struct QueryModel {
    pub state: StateModel,
    /// The waker that is woken when the query ends.
    pub waker: Option<std::task::Waker>,
}

/// The multicast groups, in the order in which they are asked.
pub open spec fn mdns_servers() -> Seq<IpAddress> {
    seq![
        IpAddress::Ipv6(Ipv6Address { bits: MDNS_IPV6_BITS }),
        IpAddress::Ipv4(Ipv4Address { bits: MDNS_IPV4_BITS }),
    ]
}

impl PendingModel {
    /// What holds of every pending query.
    pub open spec fn valid(self) -> bool {
        &&& self.name.len() <= DNS_MAX_NAME_SIZE
        &&& RETRANSMIT_DELAY <= self.delay <= MAX_RETRANSMIT_DELAY
        &&& 0 <= self.server_idx
        &&& match self.mdns {
            MulticastDns::Enabled => self.server_idx < MDNS_SERVER_COUNT,
            MulticastDns::Disabled => self.server_idx == 0 || self.server_idx
                < DNS_MAX_SERVER_COUNT,
        }
    }

    /// The servers that the query asks in turn.
    pub open spec fn own_servers(self, servers: Seq<IpAddress>) -> Seq<IpAddress> {
        match self.mdns {
            MulticastDns::Enabled => mdns_servers(),
            MulticastDns::Disabled => servers,
        }
    }

    /// The port to which requests go.
    pub open spec fn dst_port(self) -> u16 {
        match self.mdns {
            MulticastDns::Enabled => MDNS_DNS_PORT,
            MulticastDns::Disabled => DNS_PORT,
        }
    }

    /// The request in wire format.
    pub open spec fn request(self) -> Seq<u8> {
        wire::query_message(
            self.txid,
            FLAG_RECURSION_DESIRED,
            QuestionModel { name: self.name, type_: self.type_ },
        )
    }

    /// Whether the time of the server that is being asked has run out.
    pub open spec fn expired(self, now: int) -> bool {
        self.timeout_at matches Some(timeout) && timeout < now
    }

    /// The query with its clock brought up to date: the first look at it
    /// starts the time of the first server, and when the time of a server has
    /// run out the next server is asked at once.
    pub open spec fn clocked(self, now: int) -> PendingModel {
        if self.expired(now) {
            PendingModel {
                timeout_at: Some(now + RETRANSMIT_TIMEOUT),
                retransmit_at: 0,
                delay: RETRANSMIT_DELAY as int,
                server_idx: self.server_idx + 1,
                ..self
            }
        } else if self.timeout_at is None {
            PendingModel { timeout_at: Some(now + RETRANSMIT_TIMEOUT), ..self }
        } else {
            self
        }
    }

    /// The server to ask, where there is one left with an address.
    pub open spec fn server(self, servers: Seq<IpAddress>) -> Option<IpAddress> {
        let own = self.own_servers(servers);
        if self.server_idx < own.len() && !own[self.server_idx].is_unspecified() {
            Some(own[self.server_idx])
        } else {
            None
        }
    }

    /// The query after a request has been sent.
    pub open spec fn sent(self, now: int) -> PendingModel {
        PendingModel {
            retransmit_at: now + self.delay,
            delay: if self.delay * 2 <= MAX_RETRANSMIT_DELAY {
                self.delay * 2
            } else {
                MAX_RETRANSMIT_DELAY as int
            },
            ..self
        }
    }
}

impl QueryModel {
    /// A query that has just been started.
    pub open spec fn fresh(
        name: Seq<u8>,
        type_: Type,
        ids: QueryIds,
        mdns: MulticastDns,
    ) -> QueryModel {
        QueryModel {
            state: StateModel::Pending(
                PendingModel {
                    name,
                    type_,
                    port: ids.port,
                    txid: ids.txid,
                    timeout_at: None,
                    retransmit_at: 0,
                    delay: RETRANSMIT_DELAY as int,
                    server_idx: 0,
                    mdns,
                },
            ),
            waker: None,
        }
    }

    /// A query in a new state, its waker taken away to be woken.
    pub open spec fn ended(state: StateModel) -> QueryModel {
        QueryModel { state, waker: None }
    }

    /// The waker that a query had and has no more.
    pub open spec fn taken_waker(self, after: QueryModel) -> Option<std::task::Waker> {
        if after.waker is None {
            self.waker
        } else {
            None
        }
    }

    /// A query that failed.
    pub open spec fn failed() -> QueryModel {
        QueryModel::ended(StateModel::Failure(GetQueryResultError::Failed))
    }

    /// What holds of every query.
    pub open spec fn valid(self) -> bool {
        match self.state {
            StateModel::Pending(pending) => pending.valid(),
            StateModel::Completed(results) => 0 < results.len() <= DNS_MAX_RESULT_COUNT,
            StateModel::Failure(error) => error != GetQueryResultError::Pending,
        }
    }

    /// The query, still pending.
    pub open spec fn still(self, pending: PendingModel) -> QueryModel {
        QueryModel { state: StateModel::Pending(pending), waker: self.waker }
    }

    /// Whether the query waits for responses to this port with this ID.
    pub open spec fn awaits(self, port: u16, txid: u16) -> bool {
        self.state matches StateModel::Pending(pending) && pending.port == port && pending.txid
            == txid
    }

    /// The query after a response to it has been read.
    pub open spec fn answered(self, packet: Seq<u8>) -> QueryModel {
        match self.state {
            StateModel::Pending(pending) => {
                let (name, verdict) = answer::read_answer(packet, pending.type_, pending.name);
                match verdict {
                    VerdictModel::Ignored => self.still(PendingModel { name, ..pending }),
                    VerdictModel::Failed(e) => QueryModel::ended(StateModel::Failure(e)),
                    VerdictModel::Resolved(results) => QueryModel::ended(
                        StateModel::Completed(results),
                    ),
                }
            },
            _ => self,
        }
    }

    /// The query after a look at the clock: it fails where no server is left
    /// to ask.
    pub open spec fn prepared(self, servers: Seq<IpAddress>, now: int) -> QueryModel {
        match self.state {
            StateModel::Pending(pending) => {
                let clocked = pending.clocked(now);
                if clocked.server(servers) is None {
                    QueryModel::failed()
                } else {
                    self.still(clocked)
                }
            },
            _ => self,
        }
    }

    /// The server to which a request is due, if one is.
    pub open spec fn destination(self, servers: Seq<IpAddress>, now: int) -> Option<IpAddress> {
        match self.state {
            StateModel::Pending(pending) => {
                let clocked = pending.clocked(now);
                if clocked.retransmit_at > now {
                    None
                } else {
                    clocked.server(servers)
                }
            },
            _ => None,
        }
    }

    /// The query after a request has been sent.
    pub open spec fn sent(self, now: int) -> QueryModel {
        match self.state {
            StateModel::Pending(pending) => self.still(pending.sent(now)),
            _ => self,
        }
    }
}

#[derive(Debug)]
pub(crate) enum State {
    Pending(PendingQuery),
    Completed(CompletedQuery),
    Failure(GetQueryResultError),
}

#[derive(Debug)]
pub(crate) struct PendingQuery {
    name: heapless::Vec<u8, DNS_MAX_NAME_SIZE>,
    type_: Type,
    port: u16,
    txid: u16,
    schedule: Schedule,
}

/// When a request is due, and to which server.
#[derive(Debug)]
struct Schedule {
    timeout_at: Option<Instant>,
    retransmit_at: Instant,
    delay: Duration,
    server_idx: usize,
    mdns: MulticastDns,
}

#[derive(Debug)]
pub(crate) struct CompletedQuery {
    results: heapless::Vec<QueryResult, DNS_MAX_RESULT_COUNT>,
}

/// The state of a query.
///
/// The only reason for this type to be public is that the table of queries
/// can be allocated by the caller.
#[derive(Debug)]
pub struct DnsQuery {
    state: State,
    waker: Option<std::task::Waker>,
}

impl Schedule {
    #[verifier::type_invariant]
    spec fn in_bounds(&self) -> bool {
        &&& RETRANSMIT_DELAY <= self.delay.micros <= MAX_RETRANSMIT_DELAY
        &&& match self.mdns {
            MulticastDns::Enabled => self.server_idx < MDNS_SERVER_COUNT,
            MulticastDns::Disabled => self.server_idx == 0 || self.server_idx
                < DNS_MAX_SERVER_COUNT,
        }
    }
}

impl PendingQuery {
    spec fn model(self) -> PendingModel {
        PendingModel {
            name: storage::name_bytes(self.name),
            type_: self.type_,
            port: self.port,
            txid: self.txid,
            timeout_at: match self.schedule.timeout_at {
                Some(t) => Some(t.micros as int),
                None => None,
            },
            retransmit_at: self.schedule.retransmit_at.micros as int,
            delay: self.schedule.delay.micros as int,
            server_idx: self.schedule.server_idx as int,
            mdns: self.schedule.mdns,
        }
    }
}

impl View for DnsQuery {
    type V = QueryModel;

    closed spec fn view(&self) -> QueryModel {
        QueryModel {
            state: match self.state {
                State::Pending(pending) => StateModel::Pending(pending.model()),
                State::Completed(completed) => StateModel::Completed(
                    ResultModel::list(storage::result_items(completed.results)),
                ),
                State::Failure(error) => StateModel::Failure(error),
            },
            waker: self.waker,
        }
    }
}

/// The server of a query at a place in its list.
fn server_at(mdns: MulticastDns, servers: &[IpAddress], at: usize) -> (server: Option<IpAddress>)
    ensures
        server == ({
            let own = match mdns {
                MulticastDns::Enabled => mdns_servers(),
                MulticastDns::Disabled => servers@,
            };
            if at < own.len() {
                Some(own[at as int])
            } else {
                None
            }
        }),
{
    match mdns {
        MulticastDns::Enabled => {
            if at == 0 {
                Some(IpAddress::Ipv6(Ipv6Address { bits: MDNS_IPV6_BITS }))
            } else if at == 1 {
                Some(IpAddress::Ipv4(Ipv4Address { bits: MDNS_IPV4_BITS }))
            } else {
                None
            }
        },
        MulticastDns::Disabled => {
            if at < servers.len() {
                Some(servers[at])
            } else {
                None
            }
        },
    }
}

impl DnsQuery {
    /// A query for a name in wire format. An error means that the name takes
    /// more bytes than a query keeps.
    pub(crate) fn start(
        raw_name: &[u8],
        type_: Type,
        ids: QueryIds,
        mdns: MulticastDns,
    ) -> (r: Result<DnsQuery, ()>)
        ensures
            r is Ok <==> raw_name@.len() <= DNS_MAX_NAME_SIZE,
            r matches Ok(query) ==> query@ == QueryModel::fresh(raw_name@, type_, ids, mdns),
    {
        match storage::name_from_slice(raw_name) {
            Err(_) => Err(()),
            Ok(name) => Ok(
                DnsQuery {
                    state: State::Pending(
                        PendingQuery {
                            name,
                            type_,
                            port: ids.port,
                            txid: ids.txid,
                            schedule: Schedule {
                                timeout_at: None,
                                retransmit_at: Instant { micros: 0 },
                                delay: Duration { micros: RETRANSMIT_DELAY },
                                server_idx: 0,
                                mdns,
                            },
                        },
                    ),
                    waker: None,
                },
            ),
        }
    }

    /// Moves the query to a new state, and hands out its waker to be woken.
    fn set_state(&mut self, state: State) -> (woken: Option<std::task::Waker>)
        ensures
            final(self).state == state,
            final(self).waker is None,
            woken == old(self).waker,
    {
        self.state = state;
        self.waker.take()
    }

    /// Ends the query without a result, and hands out its waker to be woken.
    pub(crate) fn fail(&mut self) -> (woken: Option<std::task::Waker>)
        ensures
            final(self)@ == QueryModel::failed(),
            woken == old(self)@.taken_waker(final(self)@),
    {
        self.set_state(State::Failure(GetQueryResultError::Failed))
    }

    /// Sets the waker that is woken when the query ends.
    pub(crate) fn register_waker(&mut self, waker: &std::task::Waker)
        ensures
            final(self)@.state == old(self)@.state,
            final(self)@.waker matches Some(registered) && cloned(*waker, registered),
    {
        self.waker = Some(waker.clone());
    }

    /// Whether the query waits for responses to this port with this ID.
    pub(crate) fn awaits(&self, port: u16, txid: u16) -> (r: bool)
        ensures
            r == self@.awaits(port, txid),
    {
        match &self.state {
            State::Pending(pending) => pending.port == port && pending.txid == txid,
            _ => false,
        }
    }

    /// Reads a response to the query, and hands out its waker to be woken
    /// where the query ends.
    pub(crate) fn answer<'b>(&mut self, packet: &Packet<'b>) -> (woken: Option<std::task::Waker>)
        ensures
            final(self)@ == old(self)@.answered(packet@),
            woken == old(self)@.taken_waker(final(self)@),
    {
        let verdict = match &mut self.state {
            State::Pending(pending) => answer::read_message(
                packet,
                pending.type_,
                &mut pending.name,
            ),
            _ => Verdict::Ignored,
        };
        match verdict {
            Verdict::Ignored => None,
            Verdict::Failed(error) => self.set_state(State::Failure(error)),
            Verdict::Resolved(results) => self.set_state(
                State::Completed(CompletedQuery { results }),
            ),
        }
    }

    /// Brings the clock of the query up to date, and says to which server a
    /// request is due, if one is. The query fails where no server is left: its
    /// waker is then handed out to be woken.
    pub(crate) fn prepare(&mut self, servers: &[IpAddress], now: Instant) -> (r: (
        Option<IpAddress>,
        Option<std::task::Waker>,
    ))
        requires
            now.micros + RETRANSMIT_TIMEOUT <= i64::MAX,
            servers@.len() <= DNS_MAX_SERVER_COUNT,
        ensures
            final(self)@ == old(self)@.prepared(servers@, now.micros as int),
            r.0 == old(self)@.destination(servers@, now.micros as int),
            r.1 == old(self)@.taken_waker(final(self)@),
    {
        let due = match &mut self.state {
            State::Pending(pending) => {
                let schedule = &mut pending.schedule;
                proof {
                    use_type_invariant(&*schedule);
                }
                let span = Duration { micros: RETRANSMIT_TIMEOUT };
                let timeout = match schedule.timeout_at {
                    Some(timeout) => timeout,
                    None => {
                        let timeout = now.plus(span);
                        schedule.timeout_at = Some(timeout);
                        timeout
                    },
                };
                let mut at: usize = schedule.server_idx;
                // Check the timeout
                if timeout.micros < now.micros {
                    schedule.timeout_at = Some(now.plus(span));
                    schedule.retransmit_at = Instant { micros: 0 };
                    schedule.delay = Duration { micros: RETRANSMIT_DELAY };
                    // Try the next server
                    at = at + 1;
                }
                match server_at(schedule.mdns, servers, at) {
                    // All servers have been tried
                    None => None,
                    Some(server) => {
                        if server.is_unspecified() {
                            None
                        } else {
                            schedule.server_idx = at;
                            // The query may still wait for its next request
                            Some((server, schedule.retransmit_at.micros > now.micros))
                        }
                    },
                }
            },
            _ => {
                return (None, None);
            },
        };
        match due {
            None => (None, self.fail()),
            Some((server, waiting)) => {
                if waiting {
                    (None, None)
                } else {
                    (Some(server), None)
                }
            },
        }
    }

    /// The request of a pending query: its ports and the message.
    pub(crate) fn request(&self) -> (r: Option<(UdpRepr, Vec<u8>)>)
        ensures
            match self@.state {
                StateModel::Pending(pending) => r matches Some((udp, message)) && udp == (UdpRepr {
                    src_port: pending.port,
                    dst_port: pending.dst_port(),
                }) && message@ == pending.request() && message@.len() <= MAX_REQUEST_LEN,
                _ => r is None,
            },
    {
        match &self.state {
            State::Pending(pending) => {
                let name = storage::name_as_slice(&pending.name);
                let repr = Repr {
                    transaction_id: pending.txid,
                    flags: FLAG_RECURSION_DESIRED,
                    question: Question { name, type_: pending.type_ },
                };
                let message = repr.emit();
                let dst_port: u16 = match pending.schedule.mdns {
                    MulticastDns::Enabled => MDNS_DNS_PORT,
                    MulticastDns::Disabled => DNS_PORT,
                };
                Some((UdpRepr { src_port: pending.port, dst_port }, message))
            },
            _ => None,
        }
    }

    /// Notes that a request was sent, and when the next one is due.
    pub(crate) fn mark_sent(&mut self, now: Instant)
        requires
            now.micros + MAX_RETRANSMIT_DELAY <= i64::MAX,
        ensures
            final(self)@ == old(self)@.sent(now.micros as int),
    {
        match &mut self.state {
            State::Pending(pending) => {
                let schedule = &mut pending.schedule;
                proof {
                    use_type_invariant(&*schedule);
                }
                schedule.retransmit_at = now.plus(schedule.delay);
                schedule.delay =
                (Duration { micros: MAX_RETRANSMIT_DELAY }).shorter(schedule.delay.doubled());
            },
            _ => {},
        }
    }

    /// When the next request is due, where the query is pending.
    pub(crate) fn due_at(&self) -> (r: Option<Instant>)
        ensures
            match self@.state {
                StateModel::Pending(pending) => r matches Some(at) && at.micros
                    == pending.retransmit_at,
                _ => r is None,
            },
    {
        match &self.state {
            State::Pending(pending) => Some(pending.schedule.retransmit_at),
            State::Completed(_) => None,
            State::Failure(_) => None,
        }
    }

    /// Whether the query waits for its answer.
    pub(crate) fn is_pending(&self) -> (r: bool)
        ensures
            r == (self@.state is Pending),
    {
        match &self.state {
            State::Pending(_) => true,
            _ => false,
        }
    }

    /// The outcome of the query.
    pub(crate) fn into_result(self) -> (r: Result<
        heapless::Vec<QueryResult, DNS_MAX_RESULT_COUNT>,
        GetQueryResultError,
    >)
        ensures
            match self@.state {
                StateModel::Pending(_) => r is Err && r->Err_0 == GetQueryResultError::Pending,
                StateModel::Completed(results) => r matches Ok(list) && ResultModel::list(
                    storage::result_items(list),
                ) == results,
                StateModel::Failure(error) => r is Err && r->Err_0 == error,
            },
    {
        match self.state {
            State::Pending(_) => Err(GetQueryResultError::Pending),
            State::Completed(completed) => Ok(completed.results),
            State::Failure(error) => Err(error),
        }
    }
}

} // verus!
