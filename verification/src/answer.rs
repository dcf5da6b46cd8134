//! What a response says about a query.

use vstd::prelude::*;

use crate::config::{DNS_MAX_NAME_SIZE, DNS_MAX_RESULT_COUNT, DNS_MAX_TARGET_SIZE};
use crate::error::{Error, GetQueryResultError};
use crate::ip::IpAddress;
use crate::name;
use crate::name::{Labels, NameModel, DOT};
use crate::result::{QueryResult, ResultModel, SrvRecord};
use crate::storage;
use crate::wire::{
    HeaderModel, Packet, Question, QuestionModel, Record, RecordData, RecordDataModel, RecordModel,
    Type, HEADER_LEN,
};

verus! {

/// The labels joined with dots, or what is wrong with the first of them that
/// is not text or has no room left in an SRV target.
pub open spec fn join_labels(labels: Seq<Seq<u8>>) -> Result<Seq<u8>, GetQueryResultError>
    decreases labels.len(),
{
    if labels.len() == 0 {
        Ok(Seq::empty())
    } else {
        match join_labels(labels.drop_last()) {
            Err(e) => Err(e),
            Ok(text) => {
                let longer = if labels.len() == 1 {
                    labels.last()
                } else {
                    text.push(DOT) + labels.last()
                };
                if !vstd::utf8::valid_utf8(labels.last()) {
                    Err(GetQueryResultError::Failed)
                } else if longer.len() > DNS_MAX_TARGET_SIZE {
                    Err(GetQueryResultError::SrvTargetTooLong)
                } else {
                    Ok(longer)
                }
            },
        }
    }
}

/// The text of the target of an SRV answer, or why it has none.
pub open spec fn target_text(target: NameModel) -> Result<Seq<u8>, GetQueryResultError> {
    match join_labels(target.labels) {
        Err(e) => Err(e),
        Ok(text) => if target.complete {
            Ok(text)
        } else {
            Err(GetQueryResultError::Failed)
        },
    }
}

proof fn lemma_join_error(labels: Seq<Seq<u8>>, k: int)
    requires
        0 <= k <= labels.len(),
        join_labels(labels.take(k)) is Err,
    ensures
        join_labels(labels) == join_labels(labels.take(k)),
    decreases labels.len(),
{
    if k == labels.len() {
        assert(labels.take(k) =~= labels);
    } else {
        assert(labels.drop_last().take(k) =~= labels.take(k));
        lemma_join_error(labels.drop_last(), k);
    }
}

pub(crate) proof fn lemma_dot_encoding()
    ensures
        vstd::utf8::encode_utf8(seq!['.']) == seq![DOT],
{
    let text = seq!['.'];
    assert(vstd::utf8::is_ascii_chars(text));
    vstd::utf8::is_ascii_chars_encode_utf8(text);
    assert(vstd::utf8::encode_utf8(text) =~= seq![DOT]);
}

/// Writes the target of an SRV answer as text.
pub fn srv_target<'a>(target: Labels<'a>) -> (r: Result<
    heapless::String<DNS_MAX_TARGET_SIZE>,
    GetQueryResultError,
>)
    ensures
        match r {
            Ok(text) => target_text(target@) == Ok::<Seq<u8>, GetQueryResultError>(
                storage::target_bytes(text),
            ),
            Err(e) => target_text(target@) == Err::<Seq<u8>, GetQueryResultError>(e),
        },
{
    let mut text = storage::target_new();
    let mut first: bool = true;
    let mut rest = target;
    let ghost mut done: Seq<Seq<u8>> = Seq::empty();
    proof {
        assert(target@.labels =~= done + rest@.labels);
    }
    loop
        invariant
            target@.labels == done + rest@.labels,
            rest@.complete == target@.complete,
            join_labels(done) == Ok::<Seq<u8>, GetQueryResultError>(storage::target_bytes(text)),
            first == (done.len() == 0),
        decreases rest@.labels.len(),
    {
        let ghost before = rest@.labels;
        match rest.next_label() {
            None => {
                assert(target@.labels =~= done);
                return Ok(text);
            },
            Some(Err(_)) => {
                assert(target@.labels =~= done);
                return Err(GetQueryResultError::Failed);
            },
            Some(Ok(label)) => {
                let ghost labels = done.push(label@);
                proof {
                    assert(labels.drop_last() =~= done);
                    assert(target@.labels.take(labels.len() as int) =~= labels);
                    if join_labels(labels) is Err {
                        lemma_join_error(target@.labels, labels.len() as int);
                    }
                    lemma_dot_encoding();
                }
                let piece = match storage::text_from_utf8(label) {
                    Some(piece) => piece,
                    None => {
                        return Err(GetQueryResultError::Failed);
                    },
                };
                let ghost so_far = storage::target_bytes(text);
                if !first && storage::target_push(&mut text, '.').is_err() {
                    return Err(GetQueryResultError::SrvTargetTooLong);
                }
                if storage::target_push_str(&mut text, piece).is_err() {
                    return Err(GetQueryResultError::SrvTargetTooLong);
                }
                first = false;
                proof {
                    if done.len() == 0 {
                        assert(so_far + label@ =~= label@);
                    } else {
                        assert(so_far + seq![DOT] =~= so_far.push(DOT));
                    }
                    assert(labels + rest@.labels =~= done + before);
                    done = labels;
                }
            },
        }
    }
}

/// What a response means for the query that it answers.
pub enum Verdict {
    /// It is no answer to the query.
    Ignored,
    /// It ends the query without a result.
    Failed(GetQueryResultError),
    /// It ends the query with these results.
    Resolved(heapless::Vec<QueryResult, DNS_MAX_RESULT_COUNT>),
}

/// A verdict as a mathematical value.
#[verifier::ext_equal]
pub enum VerdictModel {
    Ignored,
    Failed(GetQueryResultError),
    Resolved(Seq<ResultModel>),
}

impl View for Verdict {
    type V = VerdictModel;

    open spec fn view(&self) -> VerdictModel {
        match *self {
            Verdict::Ignored => VerdictModel::Ignored,
            Verdict::Failed(e) => VerdictModel::Failed(e),
            Verdict::Resolved(results) => VerdictModel::Resolved(
                ResultModel::list(storage::result_items(results)),
            ),
        }
    }
}

/// The results with one more, where there is room for it.
pub open spec fn keep(results: Seq<ResultModel>, result: ResultModel) -> Seq<ResultModel> {
    if results.len() < DNS_MAX_RESULT_COUNT {
        results.push(result)
    } else {
        results
    }
}

/// What the next `count` records mean, `rest` being the bytes from the first
/// of them on, for a query that stands at `name` and has found `results`: the
/// name at which the query then stands, and the verdict.
///
/// Only the records of the query's name count. An alias moves the query to
/// the name behind it, so that the records of that name count from there on.
/// A record that cannot be read ends the reading without a verdict.
pub open spec fn read_records(
    packet: Seq<u8>,
    rest: Seq<u8>,
    count: nat,
    name: Seq<u8>,
    results: Seq<ResultModel>,
) -> (Seq<u8>, VerdictModel)
    decreases count,
{
    if count == 0 {
        if results.len() == 0 {
            (name, VerdictModel::Failed(GetQueryResultError::Failed))
        } else {
            (name, VerdictModel::Resolved(results))
        }
    } else {
        let left = (count - 1) as nat;
        match RecordModel::parse(rest) {
            None => (name, VerdictModel::Ignored),
            Some((record, rest)) => match NameModel::decode(packet, record.name).compare(
                NameModel::decode(packet, name),
            ) {
                Err(_) => (name, VerdictModel::Ignored),
                Ok(false) => read_records(packet, rest, left, name, results),
                Ok(true) => match record.data {
                    RecordDataModel::A(address) => read_records(
                        packet,
                        rest,
                        left,
                        name,
                        keep(results, ResultModel::Address(IpAddress::Ipv4(address))),
                    ),
                    RecordDataModel::Aaaa(address) => read_records(
                        packet,
                        rest,
                        left,
                        name,
                        keep(results, ResultModel::Address(IpAddress::Ipv6(address))),
                    ),
                    RecordDataModel::Srv(srv) => match target_text(
                        NameModel::decode(packet, srv.target),
                    ) {
                        Err(e) => (name, VerdictModel::Failed(e)),
                        Ok(target) => read_records(
                            packet,
                            rest,
                            left,
                            name,
                            keep(
                                results,
                                ResultModel::Srv(
                                    SrvRecord {
                                        priority: srv.priority,
                                        weight: srv.weight,
                                        port: srv.port,
                                        target,
                                    },
                                ),
                            ),
                        ),
                    },
                    RecordDataModel::Cname(alias) => {
                        let (next, whole) = NameModel::decode(packet, alias).copied();
                        if whole {
                            read_records(packet, rest, left, next, results)
                        } else {
                            (next, VerdictModel::Ignored)
                        }
                    },
                    RecordDataModel::Other(_, _) => read_records(packet, rest, left, name, results),
                },
            },
        }
    }
}

/// What a message means for a query for `name` and `type_`: the name at which
/// the query then stands, and the verdict. It is ignored unless it repeats
/// the question.
pub open spec fn read_answer(packet: Seq<u8>, type_: Type, name: Seq<u8>) -> (
    Seq<u8>,
    VerdictModel,
) {
    match QuestionModel::parse(packet.skip(HEADER_LEN as int)) {
        None => (name, VerdictModel::Ignored),
        Some((question, rest)) => if question.type_ == type_ && NameModel::decode(
            packet,
            question.name,
        ).compare(NameModel::decode(packet, name)) == Ok::<bool, Error>(true) {
            read_records(
                packet,
                rest,
                HeaderModel::parse(packet).answer_record_count as nat,
                name,
                Seq::empty(),
            )
        } else {
            (name, VerdictModel::Ignored)
        },
    }
}

/// Appends a result where there is room for it.
fn keep_result(results: &mut heapless::Vec<QueryResult, DNS_MAX_RESULT_COUNT>, result: QueryResult)
    ensures
        ResultModel::list(storage::result_items(*final(results))) == keep(
            ResultModel::list(storage::result_items(*old(results))),
            result@,
        ),
{
    let ghost before = storage::result_items(*results);
    // Results beyond the capacity are dropped
    let _ = storage::results_push(results, result);
    proof {
        let after = storage::result_items(*results);
        assert(ResultModel::list(after) =~= keep(ResultModel::list(before), result@));
    }
}

/// Reads the answer records of a message for a query that stands at `name`,
/// and moves the name along aliases.
fn scan_records<'a>(
    packet: &Packet<'a>,
    records: &'a [u8],
    query_name: &mut heapless::Vec<u8, DNS_MAX_NAME_SIZE>,
) -> (verdict: Verdict)
    ensures
        read_records(
            packet@,
            records@,
            HeaderModel::parse(packet@).answer_record_count as nat,
            storage::name_bytes(*old(query_name)),
            Seq::empty(),
        ) == (storage::name_bytes(*final(query_name)), verdict@),
{
    let count: u16 = packet.answer_record_count();
    let mut results = storage::results_new();
    let mut rest: &'a [u8] = records;
    let mut i: u16 = 0;
    proof {
        assert(ResultModel::list(storage::result_items(results)) =~= Seq::empty());
    }
    while i < count
        invariant
            i <= count,
            read_records(
                packet@,
                rest@,
                (count - i) as nat,
                storage::name_bytes(*query_name),
                ResultModel::list(storage::result_items(results)),
            ) == read_records(
                packet@,
                records@,
                HeaderModel::parse(packet@).answer_record_count as nat,
                storage::name_bytes(*old(query_name)),
                Seq::empty(),
            ),
        decreases count - i,
    {
        let record = match Record::parse(rest) {
            Ok((after, record)) => {
                rest = after;
                record
            },
            Err(_) => {
                return Verdict::Ignored;
            },
        };
        i = i + 1;
        match name::eq_names(
            packet.parse_name(record.name),
            packet.parse_name(storage::name_as_slice(query_name)),
        ) {
            Ok(true) => {},
            Ok(false) => {
                continue ;
            },
            Err(_) => {
                return Verdict::Ignored;
            },
        }
        match record.data {
            RecordData::A(address) => {
                keep_result(&mut results, QueryResult::Address(IpAddress::Ipv4(address)));
            },
            RecordData::Aaaa(address) => {
                keep_result(&mut results, QueryResult::Address(IpAddress::Ipv6(address)));
            },
            RecordData::Srv(srv) => {
                let target = match srv_target(packet.parse_name(srv.target)) {
                    Ok(target) => target,
                    Err(e) => {
                        return Verdict::Failed(e);
                    },
                };
                keep_result(
                    &mut results,
                    QueryResult::Srv(
                        SrvRecord {
                            priority: srv.priority,
                            weight: srv.weight,
                            port: srv.port,
                            target,
                        },
                    ),
                );
            },
            RecordData::Cname(alias) => {
                // A server that resolves an alias appends the records of the
                // name behind it: one pass over the records is enough.
                if name::copy_name(query_name, packet.parse_name(alias)).is_err() {
                    return Verdict::Ignored;
                }
            },
            RecordData::Other(_, _) => {},
        }
    }
    if storage::results_as_slice(&results).len() == 0 {
        Verdict::Failed(GetQueryResultError::Failed)
    } else {
        Verdict::Resolved(results)
    }
}

/// Reads a message as an answer to the query for `query_name` and `type_`,
/// and moves the name along aliases.
pub fn read_message<'a>(
    packet: &Packet<'a>,
    type_: Type,
    query_name: &mut heapless::Vec<u8, DNS_MAX_NAME_SIZE>,
) -> (verdict: Verdict)
    ensures
        read_answer(packet@, type_, storage::name_bytes(*old(query_name))) == (
            storage::name_bytes(*final(query_name)),
            verdict@,
        ),
{
    let (rest, question) = match Question::parse(packet.payload()) {
        Ok(parsed) => parsed,
        Err(_) => {
            return Verdict::Ignored;
        },
    };
    if question.type_ != type_ {
        return Verdict::Ignored;
    }
    match name::eq_names(
        packet.parse_name(question.name),
        packet.parse_name(storage::name_as_slice(query_name)),
    ) {
        Ok(true) => {},
        Ok(false) => {
            return Verdict::Ignored;
        },
        Err(_) => {
            return Verdict::Ignored;
        },
    }
    scan_records(packet, rest, query_name)
}

} // verus!
