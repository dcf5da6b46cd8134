//! The DNS message format: the header, questions and resource records.
//!
//! Every number stands in network byte order, the most significant byte first.

use vstd::prelude::*;

use crate::error::Error;
use crate::ip;
use crate::ip::{Ipv4Address, Ipv6Address};
use crate::name::{Labels, NameModel};
use crate::result::SrvRecord;

verus! {

/// Octets of the header of a message.
pub const HEADER_LEN: usize = 12;

/// The class of Internet records, the one that is read and written.
pub const CLASS_IN: u16 = 1;

/// The bit of the flags that marks a response.
pub const FLAG_RESPONSE: u16 = 0x8000;

/// The bit of the flags that asks the server to resolve the name in full.
pub const FLAG_RECURSION_DESIRED: u16 = 0x0100;

/// What a record holds, or a question asks for.
#[derive(Debug, Clone, Copy, PartialEq, Eq, Structural)]
pub enum Type {
    A,
    Ns,
    Cname,
    Soa,
    Aaaa,
    Srv,
    Unknown(u16),
}

impl Type {
    /// The type that a number stands for.
    pub open spec fn spec_from_code(code: u16) -> Type {
        if code == 1 {
            Type::A
        } else if code == 2 {
            Type::Ns
        } else if code == 5 {
            Type::Cname
        } else if code == 6 {
            Type::Soa
        } else if code == 28 {
            Type::Aaaa
        } else if code == 33 {
            Type::Srv
        } else {
            Type::Unknown(code)
        }
    }

    /// The number that stands for the type.
    pub open spec fn spec_code(self) -> u16 {
        match self {
            Type::A => 1,
            Type::Ns => 2,
            Type::Cname => 5,
            Type::Soa => 6,
            Type::Aaaa => 28,
            Type::Srv => 33,
            Type::Unknown(code) => code,
        }
    }

    /// The type that a number stands for.
    #[verifier::when_used_as_spec(spec_from_code)]
    pub fn from_code(code: u16) -> (type_: Type)
        ensures
            type_ == Type::from_code(code),
    {
        match code {
            1 => Type::A,
            2 => Type::Ns,
            5 => Type::Cname,
            6 => Type::Soa,
            28 => Type::Aaaa,
            33 => Type::Srv,
            _ => Type::Unknown(code),
        }
    }

    /// The number that stands for the type.
    #[verifier::when_used_as_spec(spec_code)]
    pub fn code(self) -> (code: u16)
        ensures
            code == self.code(),
    {
        match self {
            Type::A => 1,
            Type::Ns => 2,
            Type::Cname => 5,
            Type::Soa => 6,
            Type::Aaaa => 28,
            Type::Srv => 33,
            Type::Unknown(code) => code,
        }
    }
}

/// What a message is for.
#[derive(Debug, Clone, Copy, PartialEq, Eq, Structural)]
pub enum Opcode {
    Query,
    Status,
    Unknown(u8),
}

impl Opcode {
    /// The opcode that a number stands for.
    pub open spec fn spec_from_code(code: u8) -> Opcode {
        if code == 0 {
            Opcode::Query
        } else if code == 2 {
            Opcode::Status
        } else {
            Opcode::Unknown(code)
        }
    }

    /// The opcode that a number stands for.
    #[verifier::when_used_as_spec(spec_from_code)]
    pub fn from_code(code: u8) -> (opcode: Opcode)
        ensures
            opcode == Opcode::from_code(code),
    {
        match code {
            0 => Opcode::Query,
            2 => Opcode::Status,
            _ => Opcode::Unknown(code),
        }
    }
}

/// How a server fared with a query.
#[derive(Debug, Clone, Copy, PartialEq, Eq, Structural)]
pub enum Rcode {
    NoError,
    FormErr,
    ServFail,
    NXDomain,
    NotImp,
    Refused,
    YXDomain,
    YXRRSet,
    NXRRSet,
    NotAuth,
    NotZone,
    Unknown(u8),
}

impl Rcode {
    /// The response code that a number stands for.
    pub open spec fn spec_from_code(code: u8) -> Rcode {
        if code == 0 {
            Rcode::NoError
        } else if code == 1 {
            Rcode::FormErr
        } else if code == 2 {
            Rcode::ServFail
        } else if code == 3 {
            Rcode::NXDomain
        } else if code == 4 {
            Rcode::NotImp
        } else if code == 5 {
            Rcode::Refused
        } else if code == 6 {
            Rcode::YXDomain
        } else if code == 7 {
            Rcode::YXRRSet
        } else if code == 8 {
            Rcode::NXRRSet
        } else if code == 9 {
            Rcode::NotAuth
        } else if code == 10 {
            Rcode::NotZone
        } else {
            Rcode::Unknown(code)
        }
    }

    /// The response code that a number stands for.
    #[verifier::when_used_as_spec(spec_from_code)]
    pub fn from_code(code: u8) -> (rcode: Rcode)
        ensures
            rcode == Rcode::from_code(code),
    {
        match code {
            0 => Rcode::NoError,
            1 => Rcode::FormErr,
            2 => Rcode::ServFail,
            3 => Rcode::NXDomain,
            4 => Rcode::NotImp,
            5 => Rcode::Refused,
            6 => Rcode::YXDomain,
            7 => Rcode::YXRRSet,
            8 => Rcode::NXRRSet,
            9 => Rcode::NotAuth,
            10 => Rcode::NotZone,
            _ => Rcode::Unknown(code),
        }
    }
}

/// The 16-bit number at an offset.
pub open spec fn be16(bytes: Seq<u8>, at: int) -> u16 {
    (bytes[at] * 256 + bytes[at + 1]) as u16
}

/// The two bytes of a 16-bit number.
pub open spec fn be16_bytes(value: u16) -> Seq<u8> {
    seq![(value / 256) as u8, (value % 256) as u8]
}

/// Reads the 16-bit number at an offset.
fn read_u16(bytes: &[u8], at: usize) -> (value: u16)
    requires
        at + 2 <= bytes@.len(),
    ensures
        value == be16(bytes@, at as int),
{
    bytes[at] as u16 * 256 + bytes[at + 1] as u16
}

/// Appends a 16-bit number.
fn push_u16(bytes: &mut Vec<u8>, value: u16)
    ensures
        final(bytes)@ == old(bytes)@ + be16_bytes(value),
{
    bytes.push((value / 256) as u8);
    bytes.push((value % 256) as u8);
    assert(bytes@ =~= old(bytes)@ + be16_bytes(value));
}

/// What the header of a message says.
pub struct HeaderModel {
    pub transaction_id: u16,
    pub response: bool,
    pub opcode: Opcode,
    pub rcode: Rcode,
    pub question_count: u16,
    pub answer_record_count: u16,
}

impl HeaderModel {
    /// The header of a message of at least twelve bytes.
    pub open spec fn parse(packet: Seq<u8>) -> HeaderModel {
        let flags = be16(packet, 2);
        HeaderModel {
            transaction_id: be16(packet, 0),
            response: flags >= FLAG_RESPONSE,
            opcode: Opcode::from_code((flags / 0x800 % 16) as u8),
            rcode: Rcode::from_code((flags % 16) as u8),
            question_count: be16(packet, 4),
            answer_record_count: be16(packet, 6),
        }
    }
}

/// A message of which the header is there in full.
pub struct Packet<'a> {
    buffer: &'a [u8],
}

impl<'a> View for Packet<'a> {
    type V = Seq<u8>;

    closed spec fn view(&self) -> Seq<u8> {
        self.buffer@
    }
}

impl<'a> Packet<'a> {
    #[verifier::type_invariant]
    spec fn has_header(&self) -> bool {
        self.buffer@.len() >= HEADER_LEN
    }

    /// Takes the bytes as a message, where they hold a header.
    pub fn new_checked(buffer: &'a [u8]) -> (r: Result<Packet<'a>, Error>)
        ensures
            r is Ok <==> buffer@.len() >= HEADER_LEN,
            r matches Ok(packet) ==> packet@ == buffer@,
    {
        if buffer.len() < HEADER_LEN {
            Err(Error)
        } else {
            Ok(Packet { buffer })
        }
    }

    /// The number by which a response is matched with its query.
    pub fn transaction_id(&self) -> (id: u16)
        ensures
            id == HeaderModel::parse(self@).transaction_id,
    {
        proof {
            use_type_invariant(self);
        }
        read_u16(self.buffer, 0)
    }

    /// Whether the message is a response.
    pub fn is_response(&self) -> (r: bool)
        ensures
            r == HeaderModel::parse(self@).response,
    {
        proof {
            use_type_invariant(self);
        }
        read_u16(self.buffer, 2) >= FLAG_RESPONSE
    }

    /// What the message is for.
    pub fn opcode(&self) -> (opcode: Opcode)
        ensures
            opcode == HeaderModel::parse(self@).opcode,
    {
        proof {
            use_type_invariant(self);
        }
        let flags: u16 = read_u16(self.buffer, 2);
        Opcode::from_code((flags / 0x800 % 16) as u8)
    }

    /// How the server fared.
    pub fn rcode(&self) -> (rcode: Rcode)
        ensures
            rcode == HeaderModel::parse(self@).rcode,
    {
        proof {
            use_type_invariant(self);
        }
        let flags: u16 = read_u16(self.buffer, 2);
        Rcode::from_code((flags % 16) as u8)
    }

    /// How many questions the header announces.
    pub fn question_count(&self) -> (count: u16)
        ensures
            count == HeaderModel::parse(self@).question_count,
    {
        proof {
            use_type_invariant(self);
        }
        read_u16(self.buffer, 4)
    }

    /// How many answer records the header announces.
    pub fn answer_record_count(&self) -> (count: u16)
        ensures
            count == HeaderModel::parse(self@).answer_record_count,
    {
        proof {
            use_type_invariant(self);
        }
        read_u16(self.buffer, 6)
    }

    /// What follows the header.
    pub fn payload(&self) -> (payload: &'a [u8])
        ensures
            self@.len() >= HEADER_LEN,
            payload@ == self@.skip(HEADER_LEN as int),
    {
        proof {
            use_type_invariant(self);
        }
        let payload = vstd::slice::slice_subrange(self.buffer, HEADER_LEN, self.buffer.len());
        assert(payload@ =~= self@.skip(HEADER_LEN as int));
        payload
    }

    /// The labels of a name that stands in the message, or that may point
    /// into it.
    pub fn parse_name<'b>(&'b self, bytes: &'b [u8]) -> (labels: Labels<'b>)
        ensures
            labels@ == NameModel::decode(self@, bytes@),
    {
        Labels::new(self.buffer, bytes)
    }
}

/// How many bytes a name takes where it stands, a pointer at its end
/// included: none where it breaks off.
pub open spec fn name_len(bytes: Seq<u8>) -> Option<int>
    decreases bytes.len(),
{
    if bytes.len() == 0 {
        None
    } else if bytes[0] == 0 {
        Some(1)
    } else if bytes[0] < 64 {
        let len = 1 + bytes[0] as int;
        if bytes.len() < len {
            None
        } else {
            match name_len(bytes.skip(len)) {
                Some(rest) => Some(len + rest),
                None => None,
            }
        }
    } else if bytes[0] >= 192 && bytes.len() >= 2 {
        Some(2)
    } else {
        None
    }
}

/// Measures a name where it stands, without following a pointer.
fn measure_name(bytes: &[u8]) -> (r: Result<usize, Error>)
    ensures
        match r {
            Ok(len) => name_len(bytes@) == Some(len as int) && len <= bytes@.len(),
            Err(_) => name_len(bytes@) is None,
        },
{
    let mut at: usize = 0;
    assert(bytes@.skip(0) =~= bytes@);
    loop
        invariant
            at <= bytes@.len(),
            name_len(bytes@) == (match name_len(bytes@.skip(at as int)) {
                Some(rest) => Some(at + rest),
                None => None,
            }),
        decreases bytes@.len() - at,
    {
        let ghost here = bytes@.skip(at as int);
        if at == bytes.len() {
            return Err(Error);
        }
        let first: u8 = bytes[at];
        assert(first == here[0]);
        if first == 0 {
            return Ok(at + 1);
        } else if first < 64 {
            let len: usize = 1 + first as usize;
            if bytes.len() - at < len {
                return Err(Error);
            }
            assert(here.skip(len as int) =~= bytes@.skip(at + len));
            at = at + len;
        } else if first >= 192 {
            if bytes.len() - at < 2 {
                return Err(Error);
            }
            return Ok(at + 2);
        } else {
            return Err(Error);
        }
    }
}

/// A question: a name, in wire format, and what is asked of it.
pub struct Question<'a> {
    pub name: &'a [u8],
    pub type_: Type,
}

/// A question as a mathematical value.
#[verifier::ext_equal]
pub struct QuestionModel {
    pub name: Seq<u8>,
    pub type_: Type,
}

impl QuestionModel {
    /// The question at the start of the bytes, and the bytes after it.
    pub open spec fn parse(bytes: Seq<u8>) -> Option<(QuestionModel, Seq<u8>)> {
        match name_len(bytes) {
            None => None,
            Some(n) => if bytes.len() < n + 4 || be16(bytes, n + 2) != CLASS_IN {
                None
            } else {
                Some(
                    (
                        QuestionModel {
                            name: bytes.take(n),
                            type_: Type::from_code(be16(bytes, n)),
                        },
                        bytes.skip(n + 4),
                    ),
                )
            },
        }
    }

    /// The question in wire format.
    pub open spec fn emit(self) -> Seq<u8> {
        self.name + be16_bytes(self.type_.code()) + be16_bytes(CLASS_IN)
    }
}

impl<'a> View for Question<'a> {
    type V = QuestionModel;

    open spec fn view(&self) -> QuestionModel {
        QuestionModel { name: self.name@, type_: self.type_ }
    }
}

impl<'a> Question<'a> {
    /// Reads a question, and hands back the bytes after it too.
    pub fn parse(bytes: &'a [u8]) -> (r: Result<(&'a [u8], Question<'a>), Error>)
        ensures
            match r {
                Ok((rest, question)) => QuestionModel::parse(bytes@) == Some((question@, rest@)),
                Err(_) => QuestionModel::parse(bytes@) is None,
            },
    {
        let n: usize = match measure_name(bytes) {
            Ok(n) => n,
            Err(e) => {
                return Err(e);
            },
        };
        if bytes.len() - n < 4 {
            return Err(Error);
        }
        let type_ = Type::from_code(read_u16(bytes, n));
        let class: u16 = read_u16(bytes, n + 2);
        if class != CLASS_IN {
            return Err(Error);
        }
        let name = vstd::slice::slice_subrange(bytes, 0, n);
        let rest = vstd::slice::slice_subrange(bytes, n + 4, bytes.len());
        assert(name@ =~= bytes@.take(n as int));
        assert(rest@ =~= bytes@.skip(n + 4));
        Ok((rest, Question { name, type_ }))
    }
}

/// The data of a record, names in it in wire format.
pub enum RecordData<'a> {
    A(Ipv4Address),
    Aaaa(Ipv6Address),
    Srv(SrvRecord<&'a [u8]>),
    Cname(&'a [u8]),
    Other(Type, &'a [u8]),
}

/// The data of a record as a mathematical value.
#[verifier::ext_equal]
pub enum RecordDataModel {
    A(Ipv4Address),
    Aaaa(Ipv6Address),
    Srv(SrvRecord<Seq<u8>>),
    Cname(Seq<u8>),
    Other(Type, Seq<u8>),
}

impl RecordDataModel {
    /// The data of a record of the given type, where it has the right length.
    pub open spec fn parse(type_: Type, data: Seq<u8>) -> Option<RecordDataModel> {
        match type_ {
            Type::A => if data.len() == 4 {
                Some(RecordDataModel::A(Ipv4Address { bits: ip::big_endian(data) as u32 }))
            } else {
                None
            },
            Type::Aaaa => if data.len() == 16 {
                Some(RecordDataModel::Aaaa(Ipv6Address { bits: ip::big_endian(data) as u128 }))
            } else {
                None
            },
            Type::Srv => if data.len() >= 6 {
                Some(
                    RecordDataModel::Srv(
                        SrvRecord {
                            priority: be16(data, 0),
                            weight: be16(data, 2),
                            port: be16(data, 4),
                            target: data.skip(6),
                        },
                    ),
                )
            } else {
                None
            },
            Type::Cname => Some(RecordDataModel::Cname(data)),
            _ => Some(RecordDataModel::Other(type_, data)),
        }
    }
}

impl<'a> View for RecordData<'a> {
    type V = RecordDataModel;

    open spec fn view(&self) -> RecordDataModel {
        match *self {
            RecordData::A(address) => RecordDataModel::A(address),
            RecordData::Aaaa(address) => RecordDataModel::Aaaa(address),
            RecordData::Srv(srv) => RecordDataModel::Srv(
                SrvRecord {
                    priority: srv.priority,
                    weight: srv.weight,
                    port: srv.port,
                    target: srv.target@,
                },
            ),
            RecordData::Cname(name) => RecordDataModel::Cname(name@),
            RecordData::Other(type_, data) => RecordDataModel::Other(type_, data@),
        }
    }
}

impl<'a> RecordData<'a> {
    /// Reads the data of a record of the given type.
    pub fn parse(type_: Type, data: &'a [u8]) -> (r: Result<RecordData<'a>, Error>)
        ensures
            match r {
                Ok(record) => RecordDataModel::parse(type_, data@) == Some(record@),
                Err(_) => RecordDataModel::parse(type_, data@) is None,
            },
    {
        match type_ {
            Type::A => {
                if data.len() != 4 {
                    return Err(Error);
                }
                Ok(RecordData::A(Ipv4Address::from_bytes(data)))
            },
            Type::Aaaa => {
                if data.len() != 16 {
                    return Err(Error);
                }
                Ok(RecordData::Aaaa(Ipv6Address::from_bytes(data)))
            },
            Type::Srv => {
                if data.len() < 6 {
                    return Err(Error);
                }
                let target = vstd::slice::slice_subrange(data, 6, data.len());
                assert(target@ =~= data@.skip(6));
                Ok(
                    RecordData::Srv(
                        SrvRecord {
                            priority: read_u16(data, 0),
                            weight: read_u16(data, 2),
                            port: read_u16(data, 4),
                            target,
                        },
                    ),
                )
            },
            Type::Cname => Ok(RecordData::Cname(data)),
            _ => Ok(RecordData::Other(type_, data)),
        }
    }
}

/// A resource record: the name that it belongs to, in wire format, how many
/// seconds it may be kept, and its data.
pub struct Record<'a> {
    pub name: &'a [u8],
    pub ttl: u32,
    pub data: RecordData<'a>,
}

/// A resource record as a mathematical value.
#[verifier::ext_equal]
pub struct RecordModel {
    pub name: Seq<u8>,
    pub ttl: u32,
    pub data: RecordDataModel,
}

impl RecordModel {
    /// The record at the start of the bytes, and the bytes after it.
    pub open spec fn parse(bytes: Seq<u8>) -> Option<(RecordModel, Seq<u8>)> {
        match name_len(bytes) {
            None => None,
            Some(n) => if bytes.len() < n + 10 || be16(bytes, n + 2) != CLASS_IN || bytes.len() < n
                + 10 + be16(bytes, n + 8) {
                None
            } else {
                let len = be16(bytes, n + 8);
                match RecordDataModel::parse(
                    Type::from_code(be16(bytes, n)),
                    bytes.subrange(n + 10, n + 10 + len),
                ) {
                    None => None,
                    Some(data) => Some(
                        (
                            RecordModel {
                                name: bytes.take(n),
                                ttl: ip::big_endian(bytes.subrange(n + 4, n + 8)) as u32,
                                data,
                            },
                            bytes.skip(n + 10 + len),
                        ),
                    ),
                }
            },
        }
    }
}

impl<'a> View for Record<'a> {
    type V = RecordModel;

    open spec fn view(&self) -> RecordModel {
        RecordModel { name: self.name@, ttl: self.ttl, data: self.data@ }
    }
}

impl<'a> Record<'a> {
    /// Reads a record, and hands back the bytes after it too.
    pub fn parse(bytes: &'a [u8]) -> (r: Result<(&'a [u8], Record<'a>), Error>)
        ensures
            match r {
                Ok((rest, record)) => RecordModel::parse(bytes@) == Some((record@, rest@)),
                Err(_) => RecordModel::parse(bytes@) is None,
            },
    {
        let n: usize = match measure_name(bytes) {
            Ok(n) => n,
            Err(e) => {
                return Err(e);
            },
        };
        if bytes.len() - n < 10 {
            return Err(Error);
        }
        let type_ = Type::from_code(read_u16(bytes, n));
        let class: u16 = read_u16(bytes, n + 2);
        let ttl: u32 = ip::read_u32(vstd::slice::slice_subrange(bytes, n + 4, n + 8));
        let len: usize = read_u16(bytes, n + 8) as usize;
        if class != CLASS_IN {
            return Err(Error);
        }
        if bytes.len() - n - 10 < len {
            return Err(Error);
        }
        let data = vstd::slice::slice_subrange(bytes, n + 10, n + 10 + len);
        let rest = vstd::slice::slice_subrange(bytes, n + 10 + len, bytes.len());
        let name = vstd::slice::slice_subrange(bytes, 0, n);
        assert(name@ =~= bytes@.take(n as int));
        assert(rest@ =~= bytes@.skip(n + 10 + len));
        match RecordData::parse(type_, data) {
            Ok(data) => Ok((rest, Record { name, ttl, data })),
            Err(e) => Err(e),
        }
    }
}

/// A query message with one question.
pub struct Repr<'a> {
    pub transaction_id: u16,
    pub flags: u16,
    pub question: Question<'a>,
}

/// A query message in wire format: the header, which announces one question
/// and no record, and the question. The opcode is that of a query, zero.
pub open spec fn query_message(transaction_id: u16, flags: u16, question: QuestionModel) -> Seq<
    u8,
> {
    be16_bytes(transaction_id) + be16_bytes(flags) + be16_bytes(1) + be16_bytes(0) + be16_bytes(0)
        + be16_bytes(0) + question.emit()
}

impl<'a> Repr<'a> {
    /// Writes the message.
    pub fn emit(&self) -> (message: Vec<u8>)
        ensures
            message@ == query_message(self.transaction_id, self.flags, self.question@),
    {
        let mut message: Vec<u8> = Vec::new();
        push_u16(&mut message, self.transaction_id);
        push_u16(&mut message, self.flags);
        push_u16(&mut message, 1);
        push_u16(&mut message, 0);
        push_u16(&mut message, 0);
        push_u16(&mut message, 0);
        message.extend_from_slice(self.question.name);
        push_u16(&mut message, self.question.type_.code());
        push_u16(&mut message, CLASS_IN);
        assert(message@ =~= query_message(self.transaction_id, self.flags, self.question@));
        message
    }
}

} // verus!
