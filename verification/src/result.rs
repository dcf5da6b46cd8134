//! What a finished query hands back.

use vstd::prelude::*;

use crate::config::DNS_MAX_TARGET_SIZE;
use crate::ip::IpAddress;
use crate::storage;

verus! {

/// The data of an SRV record: where a service is offered, and how to choose
/// among several places.
#[derive(Debug, PartialEq, Eq, Clone)]
pub struct SrvRecord<T> {
    pub priority: u16,
    pub weight: u16,
    pub port: u16,
    pub target: T,
}

/// An SRV answer of a finished query, its target as text.
pub type SrvQueryResult = SrvRecord<heapless::String<DNS_MAX_TARGET_SIZE>>;

/// A DNS answer of a finished query.
#[derive(Debug, PartialEq, Eq, Clone)]
pub enum QueryResult {
    Address(IpAddress),
    Srv(SrvQueryResult),
}

/// An answer as a mathematical value; the target of an SRV answer is the
/// UTF-8 encoding of its text.
pub enum ResultModel {
    Address(IpAddress),
    Srv(SrvRecord<Seq<u8>>),
}

impl ResultModel {
    /// A list of answers as mathematical values.
    pub open spec fn list(items: Seq<QueryResult>) -> Seq<ResultModel> {
        items.map_values(|item: QueryResult| item@)
    }
}

impl View for QueryResult {
    type V = ResultModel;

    open spec fn view(&self) -> ResultModel {
        match *self {
            QueryResult::Address(address) => ResultModel::Address(address),
            QueryResult::Srv(srv) => ResultModel::Srv(
                SrvRecord {
                    priority: srv.priority,
                    weight: srv.weight,
                    port: srv.port,
                    target: storage::target_bytes(srv.target),
                },
            ),
        }
    }
}

} // verus!
