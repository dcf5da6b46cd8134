//! Domain names: as text, as a string of labels, and in wire format.
//!
//! In wire format each label stands behind a byte that gives its length, from
//! 1 to 63, and a zero byte ends the name. A byte of 192 or more and the byte
//! behind it form a pointer, which stands for the rest of the name: the name
//! goes on at that offset of the packet. A pointer leads to bytes before all
//! bytes that were read through an earlier pointer, so no chain is endless.

use vstd::prelude::*;

use crate::config::DNS_MAX_NAME_SIZE;
use crate::error::{Error, StartQueryError};
use crate::storage;

verus! {

/// The byte that stands between the labels of a name given as text.
pub const DOT: u8 = 0x2e;

/// A name read from a packet: its labels up to the end of the name, or up to
/// the first byte that is out of place.
#[verifier::ext_equal]
pub struct NameModel {
    pub labels: Seq<Seq<u8>>,
    /// Whether the end of the name was reached.
    pub complete: bool,
}

impl NameModel {
    /// A name that breaks off at once.
    pub open spec fn broken() -> NameModel {
        NameModel { labels: Seq::empty(), complete: false }
    }

    /// The name that `bytes` spell, with `packet` to look up pointers in.
    pub open spec fn decode(packet: Seq<u8>, bytes: Seq<u8>) -> NameModel
        decreases packet.len(), bytes.len(),
    {
        if bytes.len() == 0 {
            NameModel::broken()
        } else if bytes[0] == 0 {
            NameModel { labels: Seq::empty(), complete: true }
        } else if bytes[0] < 64 {
            let len = bytes[0] as int;
            if bytes.len() < 1 + len {
                NameModel::broken()
            } else {
                let rest = NameModel::decode(packet, bytes.skip(1 + len));
                NameModel {
                    labels: seq![bytes.subrange(1, 1 + len)] + rest.labels,
                    complete: rest.complete,
                }
            }
        } else if bytes[0] >= 192 && bytes.len() >= 2 {
            let offset = (bytes[0] - 192) * 256 + bytes[1];
            if packet.len() <= offset {
                NameModel::broken()
            } else {
                NameModel::decode(packet.take(offset), packet.skip(offset))
            }
        } else {
            NameModel::broken()
        }
    }

    /// What comparing two names label by label finds: an error where one of
    /// them breaks off before the other one differs from it.
    pub open spec fn compare(self, other: NameModel) -> Result<bool, Error> {
        if (!self.complete && self.labels.is_prefix_of(other.labels)) || (!other.complete
            && other.labels.is_prefix_of(self.labels)) {
            Err(Error)
        } else {
            Ok(self.labels == other.labels)
        }
    }

    /// What copying the name into an empty name buffer leaves there, and
    /// whether it was copied whole.
    pub open spec fn copied(self) -> (Seq<u8>, bool) {
        let k = fitting(self.labels, DNS_MAX_NAME_SIZE as nat);
        let kept = encode_labels(self.labels.take(k as int));
        if k < self.labels.len() {
            // the length byte of the label that did not fit may still have
            if kept.len() < DNS_MAX_NAME_SIZE {
                (kept.push(self.labels[k as int].len() as u8), false)
            } else {
                (kept, false)
            }
        } else if self.complete && kept.len() < DNS_MAX_NAME_SIZE {
            (kept.push(0), true)
        } else {
            (kept, false)
        }
    }
}

/// Labels in wire format, without the byte that ends a name.
pub open spec fn encode_labels(labels: Seq<Seq<u8>>) -> Seq<u8>
    decreases labels.len(),
{
    if labels.len() == 0 {
        Seq::empty()
    } else {
        encode_labels(labels.drop_last()).push(labels.last().len() as u8) + labels.last()
    }
}

/// How many of the labels, from the first on, fit into so many bytes in wire
/// format.
pub open spec fn fitting(labels: Seq<Seq<u8>>, room: nat) -> nat
    decreases labels.len(),
{
    if labels.len() > 0 && 1 + labels[0].len() <= room {
        1 + fitting(labels.drop_first(), (room - 1 - labels[0].len()) as nat)
    } else {
        0
    }
}

/// The parts of a text between its dots.
pub open spec fn split(text: Seq<u8>) -> Seq<Seq<u8>>
    decreases text.len(),
{
    if text.len() == 0 {
        seq![Seq::empty()]
    } else {
        let parts = split(text.drop_last());
        if text.last() == DOT {
            parts.push(Seq::empty())
        } else {
            parts.drop_last().push(parts.last().push(text.last()))
        }
    }
}

/// The labels of a name given as text, which may end in a dot.
pub open spec fn text_labels(text: Seq<u8>) -> Seq<Seq<u8>> {
    if text.len() > 0 && text.last() == DOT {
        split(text.drop_last())
    } else {
        split(text)
    }
}

/// The labels in wire format, or what is wrong with the first of them that
/// cannot stand in a name or has no room left in a name buffer.
pub open spec fn wire_labels(labels: Seq<Seq<u8>>) -> Result<Seq<u8>, StartQueryError>
    decreases labels.len(),
{
    if labels.len() == 0 {
        Ok(Seq::empty())
    } else {
        match wire_labels(labels.drop_last()) {
            Err(e) => Err(e),
            Ok(wire) => if !valid_label(labels.last()) {
                Err(StartQueryError::InvalidName)
            } else if wire.len() + 1 + labels.last().len() > DNS_MAX_NAME_SIZE {
                Err(StartQueryError::NameTooLong)
            } else {
                Ok(wire.push(labels.last().len() as u8) + labels.last())
            },
        }
    }
}

/// A name given as text in wire format, or why it has none.
pub open spec fn wire_name(text: Seq<u8>) -> Result<Seq<u8>, StartQueryError> {
    if text.len() == 0 {
        Err(StartQueryError::InvalidName)
    } else {
        match wire_labels(text_labels(text)) {
            Err(e) => Err(e),
            Ok(wire) => if wire.len() < DNS_MAX_NAME_SIZE {
                Ok(wire.push(0))
            } else {
                Err(StartQueryError::NameTooLong)
            },
        }
    }
}

/// The label `local`.
pub open spec fn local_label() -> Seq<u8> {
    seq![108u8, 111u8, 99u8, 97u8, 108u8]
}

/// Whether the last label of a name given as text is `local`.
pub open spec fn is_local(text: Seq<u8>) -> bool {
    text_labels(text).last() == local_label()
}

/// Whether a label can stand in a name.
pub open spec fn valid_label(label: Seq<u8>) -> bool {
    1 <= label.len() <= 63
}

/// Every label of a name read from a packet can stand in a name.
pub proof fn lemma_decoded_labels_valid(packet: Seq<u8>, bytes: Seq<u8>)
    ensures
        forall|i: int|
            0 <= i < NameModel::decode(packet, bytes).labels.len() ==> valid_label(
                #[trigger] NameModel::decode(packet, bytes).labels[i],
            ),
    decreases packet.len(), bytes.len(),
{
    let name = NameModel::decode(packet, bytes);
    if bytes.len() == 0 || bytes[0] == 0 {
    } else if bytes[0] < 64 {
        let len = bytes[0] as int;
        if bytes.len() >= 1 + len {
            lemma_decoded_labels_valid(packet, bytes.skip(1 + len));
            let rest = NameModel::decode(packet, bytes.skip(1 + len));
            assert forall|i: int| 0 <= i < name.labels.len() implies valid_label(
                #[trigger] name.labels[i],
            ) by {
                if i > 0 {
                    assert(name.labels[i] == rest.labels[i - 1]);
                }
            }
        }
    } else if bytes[0] >= 192 && bytes.len() >= 2 {
        let offset = (bytes[0] - 192) * 256 + bytes[1];
        if packet.len() > offset {
            lemma_decoded_labels_valid(packet.take(offset), packet.skip(offset));
            assert(name == NameModel::decode(packet.take(offset), packet.skip(offset)));
        }
    }
}

/// A place in a name in wire format, from which the rest of its labels can be
/// read one by one.
#[derive(Clone, Copy)]
pub struct Labels<'a> {
    /// Where pointers lead.
    packet: &'a [u8],
    bytes: &'a [u8],
}

impl<'a> View for Labels<'a> {
    type V = NameModel;

    /// The rest of the name.
    closed spec fn view(&self) -> NameModel {
        NameModel::decode(self.packet@, self.bytes@)
    }
}

impl<'a> Labels<'a> {
    /// The labels of the name that `bytes` spell, with `packet` to look up
    /// pointers in.
    pub fn new(packet: &'a [u8], bytes: &'a [u8]) -> (labels: Labels<'a>)
        ensures
            labels@ == NameModel::decode(packet@, bytes@),
    {
        Labels { packet, bytes }
    }

    /// Reads one label: none at the end of the name, an error where the name
    /// breaks off.
    pub fn next_label(&mut self) -> (r: Option<Result<&'a [u8], Error>>)
        ensures
            match r {
                None => old(self)@.labels.len() == 0 && old(self)@.complete && final(self)@ == old(
                    self,
                )@,
                Some(Err(_)) => old(self)@.labels.len() == 0 && !old(self)@.complete
                    && final(self)@ == old(self)@,
                Some(Ok(label)) => old(self)@.labels.len() > 0 && label@ == old(self)@.labels[0]
                    && valid_label(label@) && final(self)@ == (NameModel {
                    labels: old(self)@.labels.drop_first(),
                    complete: old(self)@.complete,
                }),
            },
    {
        loop
            invariant
                self@ == old(self)@,
            decreases self.packet@.len(), self.bytes@.len(),
        {
            if self.bytes.len() == 0 {
                return Some(Err(Error));
            }
            let first: u8 = self.bytes[0];
            if first == 0 {
                return None;
            } else if first < 64 {
                let len: usize = first as usize;
                if self.bytes.len() < 1 + len {
                    return Some(Err(Error));
                }
                let label = vstd::slice::slice_subrange(self.bytes, 1, 1 + len);
                let ghost before = self.bytes@;
                self.bytes = vstd::slice::slice_subrange(self.bytes, 1 + len, self.bytes.len());
                assert(self.bytes@ =~= before.skip(1 + len));
                assert(self@.labels =~= old(self)@.labels.drop_first());
                return Some(Ok(label));
            } else if first >= 192 {
                if self.bytes.len() < 2 {
                    return Some(Err(Error));
                }
                let offset: usize = (first as usize - 192) * 256 + self.bytes[1] as usize;
                if self.packet.len() <= offset {
                    return Some(Err(Error));
                }
                let ghost before = self.packet@;
                self.bytes = vstd::slice::slice_subrange(self.packet, offset, self.packet.len());
                self.packet = vstd::slice::slice_subrange(self.packet, 0, offset);
                assert(self.bytes@ =~= before.skip(offset as int));
                assert(self.packet@ =~= before.take(offset as int));
            } else {
                return Some(Err(Error));
            }
        }
    }
}

/// Whether two strings of bytes are equal.
pub fn bytes_equal(a: &[u8], b: &[u8]) -> (r: bool)
    ensures
        r == (a@ == b@),
{
    if a.len() != b.len() {
        return false;
    }
    let mut i: usize = 0;
    while i < a.len()
        invariant
            i <= a@.len() == b@.len(),
            forall|j: int| 0 <= j < i ==> a@[j] == b@[j],
        decreases a@.len() - i,
    {
        if a[i] != b[i] {
            return false;
        }
        i = i + 1;
    }
    assert(a@ =~= b@);
    true
}

proof fn lemma_compare_step(a: NameModel, b: NameModel)
    requires
        a.labels.len() > 0,
        b.labels.len() > 0,
        a.labels[0] == b.labels[0],
    ensures
        a.compare(b) == (NameModel { labels: a.labels.drop_first(), complete: a.complete }).compare(
            NameModel { labels: b.labels.drop_first(), complete: b.complete },
        ),
{
    let x = a.labels;
    let y = b.labels;
    let dx = x.drop_first();
    let dy = y.drop_first();
    assert(x =~= seq![x[0]] + dx);
    assert(y =~= seq![x[0]] + dy);
    assert(x.is_prefix_of(y) == dx.is_prefix_of(dy)) by {
        if dx.is_prefix_of(dy) {
            assert(x =~= y.subrange(0, x.len() as int));
        }
        if x.is_prefix_of(y) {
            assert forall|i: int| 0 <= i < dx.len() implies dx[i] == dy[i] by {
                assert(x[i + 1] == y.subrange(0, x.len() as int)[i + 1]);
            }
            assert(dx =~= dy.subrange(0, dx.len() as int));
        }
    }
    assert(y.is_prefix_of(x) == dy.is_prefix_of(dx)) by {
        if dy.is_prefix_of(dx) {
            assert(y =~= x.subrange(0, y.len() as int));
        }
        if y.is_prefix_of(x) {
            assert forall|i: int| 0 <= i < dy.len() implies dy[i] == dx[i] by {
                assert(y[i + 1] == x.subrange(0, y.len() as int)[i + 1]);
            }
            assert(dy =~= dx.subrange(0, dy.len() as int));
        }
    }
}

/// Compares two names label by label.
pub fn eq_names<'a>(a: Labels<'a>, b: Labels<'a>) -> (r: Result<bool, Error>)
    ensures
        r == a@.compare(b@),
{
    let mut left = a;
    let mut right = b;
    loop
        invariant
            left@.compare(right@) == a@.compare(b@),
        decreases left@.labels.len(),
    {
        let ghost x = left@;
        let ghost y = right@;
        match (left.next_label(), right.next_label()) {
            // Handle errors
            (Some(Err(e)), _) => {
                assert(x.labels =~= y.labels.subrange(0, 0));
                return Err(e);
            },
            (_, Some(Err(e))) => {
                assert(y.labels =~= x.labels.subrange(0, 0));
                return Err(e);
            },
            // Both finished: equal
            (None, None) => {
                assert(x.labels =~= y.labels);
                return Ok(true);
            },
            // One finished before the other: not equal
            (None, _) => {
                return Ok(false);
            },
            (_, None) => {
                return Ok(false);
            },
            // Got two labels: check whether they are equal
            (Some(Ok(la)), Some(Ok(lb))) => {
                if !bytes_equal(la, lb) {
                    assert(!x.labels.is_prefix_of(y.labels)) by {
                        if x.labels.is_prefix_of(y.labels) {
                            assert(x.labels[0] == y.labels.subrange(0, x.labels.len() as int)[0]);
                        }
                    }
                    assert(!y.labels.is_prefix_of(x.labels)) by {
                        if y.labels.is_prefix_of(x.labels) {
                            assert(y.labels[0] == x.labels.subrange(0, y.labels.len() as int)[0]);
                        }
                    }
                    return Ok(false);
                }
                proof {
                    lemma_compare_step(x, y);
                }
            },
        }
    }
}

/// The wire format of a string of labels starts with that of the first.
pub proof fn lemma_encode_front(labels: Seq<Seq<u8>>)
    requires
        labels.len() > 0,
    ensures
        encode_labels(labels) == seq![labels[0].len() as u8] + labels[0] + encode_labels(
            labels.drop_first(),
        ),
    decreases labels.len(),
{
    if labels.len() == 1 {
        assert(labels.drop_first() =~= Seq::<Seq<u8>>::empty());
        assert(labels.drop_last() =~= Seq::<Seq<u8>>::empty());
        assert(encode_labels(labels) =~= seq![labels[0].len() as u8] + labels[0]
            + encode_labels(labels.drop_first()));
    } else {
        lemma_encode_front(labels.drop_last());
        assert(labels.drop_last().drop_first() =~= labels.drop_first().drop_last());
        assert(encode_labels(labels) =~= seq![labels[0].len() as u8] + labels[0]
            + encode_labels(labels.drop_first()));
    }
}

proof fn lemma_fitting_split(done: Seq<Seq<u8>>, rest: Seq<Seq<u8>>, room: nat)
    requires
        encode_labels(done).len() <= room,
    ensures
        fitting(done + rest, room) == done.len() + fitting(
            rest,
            (room - encode_labels(done).len()) as nat,
        ),
    decreases done.len(),
{
    if done.len() == 0 {
        assert(done + rest =~= rest);
    } else {
        lemma_encode_front(done);
        assert((done + rest).drop_first() =~= done.drop_first() + rest);
        lemma_fitting_split(done.drop_first(), rest, (room - 1 - done[0].len()) as nat);
    }
}

/// Copies a name into a name buffer, in place of what was there. Where the
/// name breaks off or does not fit, the buffer keeps what was copied.
pub fn copy_name<'a>(
    dest: &mut heapless::Vec<u8, DNS_MAX_NAME_SIZE>,
    name: Labels<'a>,
) -> (r: Result<(), Error>)
    ensures
        storage::name_bytes(*final(dest)) == name@.copied().0,
        r is Ok <==> name@.copied().1,
{
    storage::name_truncate(dest, 0);
    let mut rest = name;
    let ghost mut done: Seq<Seq<u8>> = Seq::empty();
    proof {
        assert(storage::name_bytes(*dest) =~= Seq::<u8>::empty());
        assert(name@.labels =~= done + rest@.labels);
    }
    loop
        invariant
            name@.labels == done + rest@.labels,
            rest@.complete == name@.complete,
            storage::name_bytes(*dest) == encode_labels(done),
            encode_labels(done).len() <= DNS_MAX_NAME_SIZE,
        decreases rest@.labels.len(),
    {
        let ghost before = rest@.labels;
        proof {
            lemma_fitting_split(done, before, DNS_MAX_NAME_SIZE as nat);
            assert(name@.labels.take(done.len() as int) =~= done);
        }
        match rest.next_label() {
            None => {
                assert(name@.labels =~= done);
                // Write the terminator
                return match storage::name_push(dest, 0) {
                    Ok(_) => Ok(()),
                    Err(_) => Err(Error),
                };
            },
            Some(Err(e)) => {
                assert(name@.labels =~= done);
                return Err(e);
            },
            Some(Ok(label)) => {
                assert(before[0] == label@);
                assert(name@.labels[done.len() as int] == label@);
                if storage::name_push(dest, label.len() as u8).is_err() {
                    return Err(Error);
                }
                if storage::name_extend(dest, label).is_err() {
                    return Err(Error);
                }
                proof {
                    let next = done.push(label@);
                    assert(next.drop_last() =~= done);
                    assert(next + rest@.labels =~= done + before);
                    done = next;
                }
            },
        }
    }
}

proof fn lemma_wire_labels_error(labels: Seq<Seq<u8>>, k: int)
    requires
        0 <= k <= labels.len(),
        wire_labels(labels.take(k)) is Err,
    ensures
        wire_labels(labels) == wire_labels(labels.take(k)),
    decreases labels.len(),
{
    if k == labels.len() {
        assert(labels.take(k) =~= labels);
    } else {
        assert(labels.drop_last().take(k) =~= labels.take(k));
        lemma_wire_labels_error(labels.drop_last(), k);
    }
}

/// All parts but the last of the beginning of a text are parts of the text.
proof fn lemma_split_prefix(text: Seq<u8>, p: int)
    requires
        0 <= p <= text.len(),
    ensures
        split(text).len() > 0,
        split(text.take(p)).len() > 0,
        split(text.take(p)).len() <= split(text).len(),
        split(text.take(p)).drop_last() == split(text).take(split(text.take(p)).len() - 1),
    decreases text.len(),
{
    if p == text.len() {
        assert(text.take(p) =~= text);
        if text.len() > 0 {
            lemma_split_prefix(text.drop_last(), text.len() - 1);
        }
        assert(split(text).drop_last() =~= split(text).take(split(text).len() - 1));
    } else {
        lemma_split_prefix(text.drop_last(), p);
        assert(text.drop_last().take(p) =~= text.take(p));
        let parts = split(text.drop_last());
        let k = split(text.take(p)).len() - 1;
        assert(split(text).take(k) =~= parts.take(k));
    }
}

/// Writes a name given as text in wire format, and says whether its last label
/// is `local`.
pub fn encode_text(text: &[u8]) -> (r: Result<
    (heapless::Vec<u8, DNS_MAX_NAME_SIZE>, bool),
    StartQueryError,
>)
    ensures
        match r {
            Ok((raw, local)) => wire_name(text@) == Ok::<Seq<u8>, StartQueryError>(
                storage::name_bytes(raw),
            ) && local == is_local(text@),
            Err(e) => wire_name(text@) == Err::<Seq<u8>, StartQueryError>(e),
        },
{
    if text.len() == 0 {
        return Err(StartQueryError::InvalidName);
    }
    // Remove the trailing dot, if any
    let name = if text[text.len() - 1] == DOT {
        vstd::slice::slice_subrange(text, 0, text.len() - 1)
    } else {
        text
    };
    proof {
        assert(text@.subrange(0, text@.len() - 1) =~= text@.drop_last());
        assert(text_labels(text@) == split(name@));
    }
    let mut raw = storage::name_new();
    let ghost mut done: Seq<Seq<u8>> = Seq::empty();
    let mut start: usize = 0;
    let mut end: usize = 0;
    proof {
        assert(name@.take(0) =~= Seq::<u8>::empty());
        assert(split(name@.take(0)) =~= done.push(name@.subrange(0, 0)));
    }
    loop
        invariant
            start <= end <= name@.len(),
            split(name@.take(end as int)) == done.push(name@.subrange(start as int, end as int)),
            wire_labels(done) == Ok::<Seq<u8>, StartQueryError>(storage::name_bytes(raw)),
            text@.len() > 0,
            text_labels(text@) == split(name@),
        decreases name@.len() - end,
    {
        if end < name.len() && name[end] != DOT {
            proof {
                assert(name@.take(end + 1).drop_last() =~= name@.take(end as int));
                let parts = split(name@.take(end as int));
                assert(parts.drop_last() =~= done);
                assert(name@.subrange(start as int, end as int).push(name@[end as int])
                    =~= name@.subrange(start as int, end + 1));
            }
            end = end + 1;
        } else {
            let label = vstd::slice::slice_subrange(name, start, end);
            let ghost labels = done.push(label@);
            proof {
                assert(labels.drop_last() =~= done);
                assert(wire_labels(labels) is Err ==> wire_labels(split(name@)) == wire_labels(
                    labels,
                )) by {
                    if end < name@.len() {
                        assert(name@.take(end + 1).drop_last() =~= name@.take(end as int));
                        lemma_split_prefix(name@, end + 1);
                        assert(split(name@.take(end + 1)).drop_last() =~= labels);
                        if wire_labels(labels) is Err {
                            lemma_wire_labels_error(split(name@), labels.len() as int);
                        }
                    } else {
                        assert(name@.take(end as int) =~= name@);
                    }
                }
            }
            if label.len() > 63 {
                return Err(StartQueryError::InvalidName);
            }
            if label.len() == 0 {
                return Err(StartQueryError::InvalidName);
            }
            // Push the label
            if storage::name_push(&mut raw, label.len() as u8).is_err() {
                return Err(StartQueryError::NameTooLong);
            }
            if storage::name_extend(&mut raw, label).is_err() {
                return Err(StartQueryError::NameTooLong);
            }
            if end == name.len() {
                assert(name@.take(end as int) =~= name@);
                // Push the terminator
                if storage::name_push(&mut raw, 0).is_err() {
                    return Err(StartQueryError::NameTooLong);
                }
                let local: [u8; 5] = [108, 111, 99, 97, 108];
                assert(local@ =~= local_label());
                return Ok((raw, bytes_equal(label, &local)));
            }
            proof {
                assert(name@.take(end + 1).drop_last() =~= name@.take(end as int));
                assert(name@.subrange(end + 1, end + 1) =~= Seq::<u8>::empty());
                done = labels;
            }
            start = end + 1;
            end = end + 1;
        }
    }
}

} // verus!
