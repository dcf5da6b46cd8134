//! The fixed-capacity collections that the socket keeps its data in, and the
//! standard library calls without a specification of their own.
//!
//! Everything in this file is trusted: each contract states what the source
//! or the documentation of the outside function shows.

use vstd::prelude::*;

use crate::config::{
    DNS_MAX_NAME_SIZE, DNS_MAX_RESULT_COUNT, DNS_MAX_SERVER_COUNT, DNS_MAX_TARGET_SIZE,
};
use crate::ip::IpAddress;
use crate::result::QueryResult;

verus! {

/// `heapless::Vec`, a vector with room for `N` items.
#[verifier::external_type_specification]
#[verifier::external_body]
#[verifier::reject_recursive_types(T)]
pub struct ExHeaplessVec<T, const N: usize>(heapless::Vec<T, N>);

/// `heapless::String`, text of at most `N` bytes.
#[verifier::external_type_specification]
#[verifier::external_body]
pub struct ExHeaplessString<const N: usize>(heapless::String<N>);

/// `std::task::Waker`, a handle that wakes a task.
#[verifier::external_type_specification]
#[verifier::external_body]
pub struct ExWaker(std::task::Waker);

/// The bytes that a name buffer holds, in order.
pub uninterp spec fn name_bytes(name: heapless::Vec<u8, DNS_MAX_NAME_SIZE>) -> Seq<u8>;

/// `heapless::Vec::new`: the buffer is empty.
#[verifier::external_body]
pub(crate) fn name_new() -> (name: heapless::Vec<u8, DNS_MAX_NAME_SIZE>)
    ensures
        name_bytes(name) == Seq::<u8>::empty(),
{
    heapless::Vec::new()
}

/// `heapless::Vec::from_slice`: a copy of the slice, or an error where the
/// slice is longer than the capacity.
#[verifier::external_body]
pub(crate) fn name_from_slice(bytes: &[u8]) -> (r: Result<
    heapless::Vec<u8, DNS_MAX_NAME_SIZE>,
    (),
>)
    ensures
        r is Ok <==> bytes@.len() <= DNS_MAX_NAME_SIZE,
        r matches Ok(name) ==> name_bytes(name) == bytes@,
{
    heapless::Vec::from_slice(bytes)
}

/// `heapless::Vec::push`: appends the byte, or hands it back and changes
/// nothing where the buffer is full.
#[verifier::external_body]
pub(crate) fn name_push(
    name: &mut heapless::Vec<u8, DNS_MAX_NAME_SIZE>,
    byte: u8,
) -> (r: Result<(), u8>)
    ensures
        r is Ok <==> name_bytes(*old(name)).len() < DNS_MAX_NAME_SIZE,
        r is Ok ==> name_bytes(*final(name)) == name_bytes(*old(name)).push(byte),
        r matches Err(b) ==> b == byte && name_bytes(*final(name)) == name_bytes(*old(name)),
{
    name.push(byte)
}

/// `heapless::Vec::extend_from_slice`: appends the whole slice, or changes
/// nothing where it does not fit.
#[verifier::external_body]
pub(crate) fn name_extend(
    name: &mut heapless::Vec<u8, DNS_MAX_NAME_SIZE>,
    bytes: &[u8],
) -> (r: Result<(), ()>)
    ensures
        r is Ok <==> name_bytes(*old(name)).len() + bytes@.len() <= DNS_MAX_NAME_SIZE,
        r is Ok ==> name_bytes(*final(name)) == name_bytes(*old(name)) + bytes@,
        r is Err ==> name_bytes(*final(name)) == name_bytes(*old(name)),
{
    name.extend_from_slice(bytes)
}

/// `heapless::Vec::truncate`: keeps the first `len` bytes, or all of them
/// where there are no more than that.
#[verifier::external_body]
pub(crate) fn name_truncate(name: &mut heapless::Vec<u8, DNS_MAX_NAME_SIZE>, len: usize)
    ensures
        len <= name_bytes(*old(name)).len() ==> name_bytes(*final(name)) == name_bytes(
            *old(name),
        ).take(len as int),
        len > name_bytes(*old(name)).len() ==> name_bytes(*final(name)) == name_bytes(*old(name)),
{
    name.truncate(len)
}

/// `heapless::Vec::as_slice`: the bytes as a slice; there are never more of
/// them than the capacity.
#[verifier::external_body]
pub(crate) fn name_as_slice(name: &heapless::Vec<u8, DNS_MAX_NAME_SIZE>) -> (bytes: &[u8])
    ensures
        bytes@ == name_bytes(*name),
        bytes@.len() <= DNS_MAX_NAME_SIZE,
{
    name.as_slice()
}

/// The addresses that a server list holds, in order.
pub uninterp spec fn server_addresses(
    servers: heapless::Vec<IpAddress, DNS_MAX_SERVER_COUNT>,
) -> Seq<IpAddress>;

/// `heapless::Vec::from_slice`: a copy of the slice, or an error where the
/// slice is longer than the capacity.
#[verifier::external_body]
pub(crate) fn servers_from_slice(addresses: &[IpAddress]) -> (r: Result<
    heapless::Vec<IpAddress, DNS_MAX_SERVER_COUNT>,
    (),
>)
    ensures
        r is Ok <==> addresses@.len() <= DNS_MAX_SERVER_COUNT,
        r matches Ok(servers) ==> server_addresses(servers) == addresses@,
{
    heapless::Vec::from_slice(addresses)
}

/// `heapless::Vec::as_slice`: the addresses as a slice; there are never more
/// of them than the capacity.
#[verifier::external_body]
pub(crate) fn servers_as_slice(servers: &heapless::Vec<IpAddress, DNS_MAX_SERVER_COUNT>) -> (r:
    &[IpAddress])
    ensures
        r@ == server_addresses(*servers),
        r@.len() <= DNS_MAX_SERVER_COUNT,
{
    servers.as_slice()
}

/// The answers that a result list holds, in order.
pub uninterp spec fn result_items(
    results: heapless::Vec<QueryResult, DNS_MAX_RESULT_COUNT>,
) -> Seq<QueryResult>;

/// `heapless::Vec::new`: the list is empty.
#[verifier::external_body]
pub(crate) fn results_new() -> (results: heapless::Vec<QueryResult, DNS_MAX_RESULT_COUNT>)
    ensures
        result_items(results) == Seq::<QueryResult>::empty(),
{
    heapless::Vec::new()
}

/// `heapless::Vec::push`: appends the answer, or hands it back and changes
/// nothing where the list is full.
#[verifier::external_body]
pub(crate) fn results_push(
    results: &mut heapless::Vec<QueryResult, DNS_MAX_RESULT_COUNT>,
    item: QueryResult,
) -> (r: Result<(), QueryResult>)
    ensures
        r is Ok <==> result_items(*old(results)).len() < DNS_MAX_RESULT_COUNT,
        r is Ok ==> result_items(*final(results)) == result_items(*old(results)).push(item),
        r matches Err(back) ==> back == item && result_items(*final(results)) == result_items(
            *old(results),
        ),
{
    results.push(item)
}

/// `heapless::Vec::as_slice`: the answers as a slice; there are never more of
/// them than the capacity.
#[verifier::external_body]
pub(crate) fn results_as_slice(results: &heapless::Vec<QueryResult, DNS_MAX_RESULT_COUNT>) -> (r:
    &[QueryResult])
    ensures
        r@ == result_items(*results),
        r@.len() <= DNS_MAX_RESULT_COUNT,
{
    results.as_slice()
}

/// The UTF-8 encoding of the text that an SRV target holds.
pub uninterp spec fn target_bytes(target: heapless::String<DNS_MAX_TARGET_SIZE>) -> Seq<u8>;

/// `heapless::String::new`: the text is empty.
#[verifier::external_body]
pub(crate) fn target_new() -> (target: heapless::String<DNS_MAX_TARGET_SIZE>)
    ensures
        target_bytes(target) == Seq::<u8>::empty(),
{
    heapless::String::new()
}

/// `heapless::String::push`: appends the encoding of the character, or
/// changes nothing where it does not fit.
#[verifier::external_body]
pub(crate) fn target_push(
    target: &mut heapless::String<DNS_MAX_TARGET_SIZE>,
    c: char,
) -> (r: Result<(), ()>)
    ensures
        r is Ok <==> target_bytes(*old(target)).len() + vstd::utf8::encode_utf8(seq![c]).len()
            <= DNS_MAX_TARGET_SIZE,
        r is Ok ==> target_bytes(*final(target)) == target_bytes(*old(target))
            + vstd::utf8::encode_utf8(seq![c]),
        r is Err ==> target_bytes(*final(target)) == target_bytes(*old(target)),
{
    target.push(c)
}

/// `heapless::String::push_str`: appends the encoding of the text, or changes
/// nothing where it does not fit.
#[verifier::external_body]
pub(crate) fn target_push_str(
    target: &mut heapless::String<DNS_MAX_TARGET_SIZE>,
    text: &str,
) -> (r: Result<(), ()>)
    ensures
        r is Ok <==> target_bytes(*old(target)).len() + vstd::utf8::encode_utf8(text@).len()
            <= DNS_MAX_TARGET_SIZE,
        r is Ok ==> target_bytes(*final(target)) == target_bytes(*old(target))
            + vstd::utf8::encode_utf8(text@),
        r is Err ==> target_bytes(*final(target)) == target_bytes(*old(target)),
{
    target.push_str(text)
}

/// `core::str::from_utf8`: the text that the bytes encode, where they are
/// valid UTF-8.
#[verifier::external_body]
pub(crate) fn text_from_utf8(bytes: &[u8]) -> (r: Option<&str>)
    ensures
        r is Some <==> vstd::utf8::valid_utf8(bytes@),
        r matches Some(text) ==> vstd::utf8::encode_utf8(text@) == bytes@,
{
    core::str::from_utf8(bytes).ok()
}

/// `Waker::clone`: another handle on a task. That it wakes the same task as
/// the first is left to the executor that made the waker.
pub assume_specification[ <std::task::Waker as Clone>::clone ](waker: &std::task::Waker) -> (r:
    std::task::Waker)
;

/// `Waker::wake`: wakes the task. Nothing is stated of what the executor does.
pub assume_specification[ std::task::Waker::wake ](waker: std::task::Waker)
;

} // verus!
