//! When a query is sent, to whom, and when it gives up.

use vstd::prelude::*;

use crate::error::GetQueryResultError;
use crate::ip::{IpAddress, Ipv4Address, Ipv6Address};
use crate::query::{MulticastDns, PendingModel, QueryModel, StateModel};

verus! {

/// The servers that a query asks in turn: those of the socket, or the groups
/// `ff02::fb` and `224.0.0.251` where the query goes to the local network.
pub open spec fn asked(mdns: MulticastDns, servers: Seq<IpAddress>) -> Seq<IpAddress> {
    match mdns {
        MulticastDns::Disabled => servers,
        MulticastDns::Enabled => seq![
            IpAddress::Ipv6(Ipv6Address { bits: 0xff02_0000_0000_0000_0000_0000_0000_00fb }),
            IpAddress::Ipv4(Ipv4Address { bits: 0xe000_00fb }),
        ],
    }
}

/// Whether there is a server at a place of a list, and it has an address.
pub open spec fn is_there(list: Seq<IpAddress>, at: int) -> bool {
    0 <= at < list.len() && match list[at] {
        IpAddress::Ipv4(address) => address.bits != 0,
        IpAddress::Ipv6(address) => address.bits != 0,
    }
}

/// A query that failed, its waker taken.
pub open spec fn gave_up(query: QueryModel) -> bool {
    query.state == StateModel::Failure(GetQueryResultError::Failed) && query.waker is None
}

/// Whether a query is pending, with these very fields.
pub open spec fn is_pending(query: QueryModel, pending: PendingModel) -> bool {
    query.state matches StateModel::Pending(own) && own.name == pending.name && own.type_
        == pending.type_ && own.port == pending.port && own.txid == pending.txid && own.timeout_at
        == pending.timeout_at && own.retransmit_at == pending.retransmit_at && own.delay
        == pending.delay && own.server_idx == pending.server_idx && own.mdns == pending.mdns
}

/// The first look at a query, at any time, gives its server ten seconds from
/// then on, and changes nothing else.
pub proof fn law_first_look(
    query: QueryModel,
    pending: PendingModel,
    servers: Seq<IpAddress>,
    now: int,
)
    requires
        is_pending(query, pending),
        pending.timeout_at is None,
        is_there(asked(pending.mdns, servers), pending.server_idx),
    ensures
        is_pending(
            query.prepared(servers, now),
            PendingModel { timeout_at: Some(now + 10_000_000), ..pending },
        ),
        query.prepared(servers, now).waker == query.waker,
        query.destination(servers, now) == (if pending.retransmit_at <= now {
            Some(asked(pending.mdns, servers)[pending.server_idx])
        } else {
            None
        }),
{
}

/// A server has ten seconds: a query that is first looked at at one time, and
/// again at a later one no more than ten seconds after, has not moved on or
/// failed, whether or not its request was sent at the first time; it owes its
/// next request to the same server, once that is due. More than ten seconds
/// after, it has moved on.
pub proof fn law_server_has_ten_seconds(
    query: QueryModel,
    pending: PendingModel,
    servers: Seq<IpAddress>,
    first: int,
    later: int,
    sent: bool,
)
    requires
        is_pending(query, pending),
        pending.timeout_at is None,
        is_there(asked(pending.mdns, servers), pending.server_idx),
        first <= later,
    ensures
        ({
            let list = asked(pending.mdns, servers);
            let looked = query.prepared(servers, first);
            let waiting = if sent {
                looked.sent(first)
            } else {
                looked
            };
            let due = if sent {
                first + pending.delay
            } else {
                pending.retransmit_at
            };
            &&& waiting.state matches StateModel::Pending(own)
            &&& own.retransmit_at == due
            &&& own.server_idx == pending.server_idx
            &&& later <= first + 10_000_000 ==> waiting.prepared(servers, later) == waiting
            &&& later <= first + 10_000_000 ==> waiting.destination(servers, later) == (if due
                <= later {
                Some(list[pending.server_idx])
            } else {
                None
            })
            &&& later > first + 10_000_000 ==> if is_there(list, pending.server_idx + 1) {
                waiting.prepared(servers, later).state matches StateModel::Pending(moved)
                    && moved.server_idx == pending.server_idx + 1
            } else {
                gave_up(waiting.prepared(servers, later))
            }
        }),
{
}

/// A look at a query whose server still has time changes nothing, and a
/// request is owed exactly where it is due; where the time has run out, the
/// next server gets ten seconds and is asked at once, from the shortest delay
/// of one second on. Where there is no server to ask, the query fails.
pub proof fn law_later_look(
    query: QueryModel,
    pending: PendingModel,
    servers: Seq<IpAddress>,
    now: int,
    timeout: int,
)
    requires
        is_pending(query, pending),
        pending.timeout_at == Some(timeout),
        pending.server_idx >= 0,
    ensures
        ({
            let list = asked(pending.mdns, servers);
            let here = pending.server_idx;
            let looked = query.prepared(servers, now);
            let owed = query.destination(servers, now);
            if now <= timeout {
                if is_there(list, here) {
                    looked == query && owed == (if pending.retransmit_at <= now {
                        Some(list[here])
                    } else {
                        None
                    })
                } else {
                    gave_up(looked) && owed is None
                }
            } else {
                if is_there(list, here + 1) {
                    &&& is_pending(
                        looked,
                        PendingModel {
                            timeout_at: Some(now + 10_000_000),
                            retransmit_at: 0,
                            delay: 1_000_000,
                            server_idx: here + 1,
                            ..pending
                        },
                    )
                    &&& looked.waker == query.waker
                    &&& owed == (if 0 <= now {
                        Some(list[here + 1])
                    } else {
                        None
                    })
                } else {
                    gave_up(looked) && owed is None
                }
            }
        }),
{
}

/// A query without a server to ask fails at the first look.
pub proof fn law_no_server_fails(
    query: QueryModel,
    pending: PendingModel,
    servers: Seq<IpAddress>,
    now: int,
)
    requires
        is_pending(query, pending),
        pending.timeout_at is None,
        pending.server_idx >= 0,
        !is_there(asked(pending.mdns, servers), pending.server_idx),
    ensures
        gave_up(query.prepared(servers, now)),
        query.destination(servers, now) is None,
{
}

/// A request that was sent is followed by the next one after the delay, and
/// the delay after that is twice as long, up to ten seconds; nothing else
/// changes.
pub proof fn law_next_request_is_later(query: QueryModel, pending: PendingModel, now: int)
    requires
        is_pending(query, pending),
    ensures
        is_pending(
            query.sent(now),
            PendingModel {
                retransmit_at: now + pending.delay,
                delay: if pending.delay <= 5_000_000 {
                    pending.delay + pending.delay
                } else {
                    10_000_000
                },
                ..pending
            },
        ),
        query.sent(now).waker == query.waker,
{
}

/// Requests to a port of the multicast groups, or of a server.
pub proof fn law_request_port(pending: PendingModel)
    ensures
        pending.dst_port() == (match pending.mdns {
            MulticastDns::Disabled => 53u16,
            MulticastDns::Enabled => 5353u16,
        }),
{
}

/// A query that has ended owes nothing, and no look, no message and no request
/// changes it.
pub proof fn law_ended_query_is_left_alone(
    query: QueryModel,
    servers: Seq<IpAddress>,
    now: int,
    packet: Seq<u8>,
    port: u16,
    txid: u16,
)
    requires
        !(query.state is Pending),
    ensures
        query.prepared(servers, now) == query,
        query.sent(now) == query,
        query.answered(packet) == query,
        query.destination(servers, now) is None,
        !query.awaits(port, txid),
{
}

} // verus!
