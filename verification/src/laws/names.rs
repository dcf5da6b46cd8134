//! What a name as text, its labels, and its bytes have to do with each other.

use vstd::prelude::*;

use crate::error::{Error, StartQueryError};
use crate::name;
use crate::name::NameModel;
use crate::wire;

verus! {

/// Labels joined with dots, one dot between each two neighbours.
pub open spec fn dotted(labels: Seq<Seq<u8>>) -> Seq<u8>
    decreases labels.len(),
{
    if labels.len() == 0 {
        Seq::empty()
    } else if labels.len() == 1 {
        labels[0]
    } else {
        labels[0] + seq![0x2eu8] + dotted(labels.drop_first())
    }
}

/// Labels in wire format, each behind its length: the beginning of a name.
pub open spec fn headed(labels: Seq<Seq<u8>>) -> Seq<u8>
    decreases labels.len(),
{
    if labels.len() == 0 {
        Seq::empty()
    } else {
        seq![labels[0].len() as u8] + labels[0] + headed(labels.drop_first())
    }
}

/// A whole name in wire format, without pointers.
pub open spec fn spelled(labels: Seq<Seq<u8>>) -> Seq<u8> {
    headed(labels) + seq![0u8]
}

/// A pointer to an offset.
pub open spec fn pointer(offset: int) -> Seq<u8> {
    seq![(192 + offset / 256) as u8, (offset % 256) as u8]
}

/// Whether there is no dot in a label.
pub open spec fn has_no_dot(label: Seq<u8>) -> bool {
    forall|i: int| 0 <= i < label.len() ==> #[trigger] label[i] != 0x2eu8
}

/// Whether no label has a dot in it.
pub open spec fn have_no_dot(labels: Seq<Seq<u8>>) -> bool {
    forall|i: int| 0 <= i < labels.len() ==> has_no_dot(#[trigger] labels[i])
}

/// Whether every label has 1 to 63 bytes.
pub open spec fn all_short(labels: Seq<Seq<u8>>) -> bool {
    forall|i: int| 0 <= i < labels.len() ==> 1 <= (#[trigger] labels[i]).len() <= 63
}

pub(crate) proof fn lemma_headed(labels: Seq<Seq<u8>>)
    ensures
        headed(labels) == name::encode_labels(labels),
    decreases labels.len(),
{
    if labels.len() > 0 {
        name::lemma_encode_front(labels);
        lemma_headed(labels.drop_first());
    }
}

pub(crate) proof fn lemma_all_short_rest(labels: Seq<Seq<u8>>)
    requires
        all_short(labels),
        labels.len() > 0,
    ensures
        all_short(labels.drop_first()),
        1 <= labels[0].len() <= 63,
{
    assert(labels[0].len() <= 63);
    assert forall|i: int| 0 <= i < labels.drop_first().len() implies 1 <= (
    #[trigger] labels.drop_first()[i]).len() <= 63 by {
        assert(labels.drop_first()[i] == labels[i + 1]);
    }
}

pub(crate) proof fn lemma_dotted_push(labels: Seq<Seq<u8>>, label: Seq<u8>)
    requires
        labels.len() > 0,
    ensures
        dotted(labels.push(label)) == dotted(labels) + seq![0x2eu8] + label,
    decreases labels.len(),
{
    let longer = labels.push(label);
    if labels.len() == 1 {
        assert(longer.drop_first() =~= seq![label]);
        assert(dotted(seq![label]) == label);
        assert(dotted(longer) =~= dotted(labels) + seq![0x2eu8] + label);
    } else {
        assert(longer.drop_first() =~= labels.drop_first().push(label));
        lemma_dotted_push(labels.drop_first(), label);
        assert(dotted(longer) =~= dotted(labels) + seq![0x2eu8] + label);
    }
}

proof fn lemma_split_one(label: Seq<u8>)
    requires
        has_no_dot(label),
    ensures
        name::split(label) == seq![label],
    decreases label.len(),
{
    if label.len() == 0 {
        assert(label =~= Seq::<u8>::empty());
    } else {
        let shorter = label.drop_last();
        assert forall|i: int| 0 <= i < shorter.len() implies #[trigger] shorter[i] != 0x2eu8 by {
            assert(shorter[i] == label[i]);
        }
        lemma_split_one(shorter);
        assert(label[label.len() - 1] != 0x2eu8);
        assert(shorter.push(label.last()) =~= label);
        assert(name::split(label) =~= seq![label]);
    }
}

proof fn lemma_split_push(text: Seq<u8>, label: Seq<u8>)
    requires
        has_no_dot(label),
    ensures
        name::split(text + seq![0x2eu8] + label) == name::split(text).push(label),
    decreases label.len(),
{
    let longer = text + seq![0x2eu8] + label;
    if label.len() == 0 {
        assert(label =~= Seq::<u8>::empty());
        assert(longer.drop_last() =~= text);
    } else {
        let shorter = label.drop_last();
        assert forall|i: int| 0 <= i < shorter.len() implies #[trigger] shorter[i] != 0x2eu8 by {
            assert(shorter[i] == label[i]);
        }
        lemma_split_push(text, shorter);
        assert(label[label.len() - 1] != 0x2eu8);
        assert(longer.drop_last() =~= text + seq![0x2eu8] + shorter);
        assert(shorter.push(label.last()) =~= label);
        assert(name::split(longer) =~= name::split(text).push(label));
    }
}

/// Splitting a text and joining labels with dots undo each other: the parts of
/// a text hold no dots and give the text back, and a text that was joined from
/// labels without dots splits into these labels.
pub proof fn law_split_undoes_join(labels: Seq<Seq<u8>>, text: Seq<u8>)
    requires
        labels.len() > 0,
        have_no_dot(labels),
    ensures
        name::split(dotted(labels)) == labels,
        dotted(name::split(text)) == text,
        name::split(text).len() > 0,
        have_no_dot(name::split(text)),
    decreases labels.len() + text.len(),
{
    if labels.len() == 1 {
        assert(has_no_dot(labels[0]));
        lemma_split_one(labels[0]);
        assert(seq![labels[0]] =~= labels);
    } else {
        let before = labels.drop_last();
        assert(have_no_dot(before)) by {
            assert forall|i: int| 0 <= i < before.len() implies has_no_dot(#[trigger] before[i]) by {
                assert(before[i] == labels[i]);
            }
        }
        law_split_undoes_join(before, Seq::empty());
        assert(has_no_dot(labels[labels.len() - 1]));
        lemma_dotted_push(before, labels.last());
        lemma_split_push(dotted(before), labels.last());
        assert(before.push(labels.last()) =~= labels);
    }
    lemma_join_undoes_split(text);
}

proof fn lemma_join_undoes_split(text: Seq<u8>)
    ensures
        dotted(name::split(text)) == text,
        name::split(text).len() > 0,
        have_no_dot(name::split(text)),
    decreases text.len(),
{
    let parts = name::split(text);
    if text.len() == 0 {
        assert(dotted(parts) =~= text);
    } else {
        let before = name::split(text.drop_last());
        lemma_join_undoes_split(text.drop_last());
        assert(text.drop_last().push(text.last()) =~= text);
        if text.last() == name::DOT {
            lemma_dotted_push(before, Seq::empty());
            assert(dotted(parts) =~= text);
        } else {
            let head = before.drop_last();
            let grown = before.last().push(text.last());
            assert(head.push(before.last()) =~= before);
            assert(has_no_dot(before[before.len() - 1]));
            assert(has_no_dot(grown)) by {
                assert forall|i: int| 0 <= i < grown.len() implies #[trigger] grown[i] != 0x2eu8 by {
                    if i < before.last().len() {
                        assert(before.last()[i] == grown[i]);
                    }
                }
            }
            assert forall|i: int| 0 <= i < parts.len() implies has_no_dot(#[trigger] parts[i]) by {
                if i < head.len() {
                    assert(parts[i] == before[i]);
                }
            }
            if head.len() == 0 {
                assert(before =~= seq![before.last()]);
                assert(parts =~= seq![grown]);
                assert(dotted(before) == before[0]);
                assert(dotted(parts) =~= text);
            } else {
                lemma_dotted_push(head, before.last());
                lemma_dotted_push(head, grown);
                assert(dotted(parts) =~= text);
            }
        }
    }
}

proof fn lemma_dotted_end(labels: Seq<Seq<u8>>)
    requires
        labels.len() > 0,
        have_no_dot(labels),
        labels.last().len() > 0,
    ensures
        dotted(labels).len() > 0,
        dotted(labels).last() != 0x2eu8,
{
    let last = labels.last();
    assert(has_no_dot(labels[labels.len() - 1]));
    assert(last[last.len() - 1] != 0x2eu8);
    if labels.len() > 1 {
        lemma_dotted_push(labels.drop_last(), last);
        assert(labels.drop_last().push(last) =~= labels);
    }
}

/// The labels of a name joined with dots are those labels, with and without a
/// dot at its end.
pub proof fn law_text_has_its_labels(labels: Seq<Seq<u8>>)
    requires
        labels.len() > 0,
        have_no_dot(labels),
    ensures
        name::text_labels(dotted(labels).push(0x2e)) == labels,
        labels.last().len() > 0 ==> name::text_labels(dotted(labels)) == labels,
        labels =~= seq![Seq::<u8>::empty()] ==> name::text_labels(dotted(labels)) == labels,
{
    law_split_undoes_join(labels, Seq::empty());
    assert(dotted(labels).push(0x2e).drop_last() =~= dotted(labels));
    if labels.last().len() > 0 {
        lemma_dotted_end(labels);
    }
}

/// Bytes of the first labels in wire format.
pub open spec fn headed_len(labels: Seq<Seq<u8>>, count: int) -> int {
    headed(labels.take(count)).len() as int
}

proof fn lemma_wire_labels_fails(labels: Seq<Seq<u8>>, bad: int)
    requires
        0 <= bad < labels.len(),
        all_short(labels.take(bad)),
        headed_len(labels, bad) <= 255,
        !(1 <= labels[bad].len() <= 63) || headed_len(labels, bad + 1) > 255,
    ensures
        name::wire_labels(labels) == Err::<Seq<u8>, StartQueryError>(
            if 1 <= labels[bad].len() <= 63 {
                StartQueryError::NameTooLong
            } else {
                StartQueryError::InvalidName
            },
        ),
    decreases labels.len(),
{
    let before = labels.drop_last();
    if bad < labels.len() - 1 {
        assert(before.take(bad) =~= labels.take(bad));
        assert(before.take(bad + 1) =~= labels.take(bad + 1));
        lemma_wire_labels_fails(before, bad);
    } else {
        assert(before =~= labels.take(bad));
        assert(labels.take(bad + 1) =~= labels);
        lemma_headed(before);
        lemma_headed(labels);
        lemma_wire_labels_fits(before);
    }
}

proof fn lemma_wire_labels_fits(labels: Seq<Seq<u8>>)
    requires
        all_short(labels),
        headed(labels).len() <= 255,
    ensures
        name::wire_labels(labels) == Ok::<Seq<u8>, StartQueryError>(headed(labels)),
    decreases labels.len(),
{
    if labels.len() > 0 {
        let before = labels.drop_last();
        lemma_headed(labels);
        lemma_headed(before);
        assert forall|i: int| 0 <= i < before.len() implies 1 <= (#[trigger] before[i]).len()
            <= 63 by {
            assert(before[i] == labels[i]);
        }
        lemma_wire_labels_fits(before);
        assert(1 <= labels[labels.len() - 1].len() <= 63);
    }
}

/// Whether a text is labels joined with dots, with or without a dot at its end.
pub open spec fn is_text_of(text: Seq<u8>, labels: Seq<Seq<u8>>) -> bool {
    ||| text == dotted(labels).push(0x2e)
    ||| text == dotted(labels) && labels.last().len() > 0
}

/// A name given as text is its labels joined with dots; in wire format each
/// label stands behind its length, and a zero ends the name. It is accepted
/// where each label has 1 to 63 bytes and the name takes no more than 255.
pub proof fn law_text_in_wire_format(text: Seq<u8>, labels: Seq<Seq<u8>>)
    requires
        labels.len() > 0,
        have_no_dot(labels),
        all_short(labels),
        is_text_of(text, labels),
    ensures
        name::wire_name(text) == (if spelled(labels).len() <= 255 {
            Ok::<Seq<u8>, StartQueryError>(spelled(labels))
        } else {
            Err(StartQueryError::NameTooLong)
        }),
        name::is_local(text) == (labels.last() =~= seq![0x6cu8, 0x6fu8, 0x63u8, 0x61u8, 0x6cu8]),
{
    law_text_has_its_labels(labels);
    if text =~= dotted(labels) {
        lemma_dotted_end(labels);
    }
    assert(text.len() > 0);
    if headed(labels).len() <= 255 {
        lemma_wire_labels_fits(labels);
        assert(headed(labels).push(0) =~= spelled(labels));
    } else {
        assert(labels.take(labels.len() as int) =~= labels);
        let bad = lemma_first_over(labels, labels.len() as int);
        lemma_wire_labels_fails(labels, bad);
    }
}

proof fn lemma_first_over(labels: Seq<Seq<u8>>, end: int) -> (bad: int)
    requires
        0 <= end <= labels.len(),
        headed_len(labels, end) > 255,
        all_short(labels),
    ensures
        0 <= bad < end,
        headed_len(labels, bad) <= 255,
        headed_len(labels, bad + 1) > 255,
        all_short(labels.take(bad)),
        1 <= labels[bad].len() <= 63,
    decreases end,
{
    if end == 0 {
        assert(labels.take(0) =~= Seq::<Seq<u8>>::empty());
        0
    } else if headed_len(labels, end - 1) > 255 {
        lemma_first_over(labels, end - 1)
    } else {
        assert forall|i: int| 0 <= i < labels.take(end - 1).len() implies 1 <= (
        #[trigger] labels.take(end - 1)[i]).len() <= 63 by {
            assert(labels.take(end - 1)[i] == labels[i]);
        }
        end - 1
    }
}

/// A name given as text is refused for the first label that is wrong: one that
/// is empty or has more than 63 bytes makes it invalid, unless the labels
/// before it already take more room than there is.
pub proof fn law_text_refused(text: Seq<u8>, labels: Seq<Seq<u8>>, bad: int)
    requires
        have_no_dot(labels),
        is_text_of(text, labels),
        0 <= bad < labels.len(),
        all_short(labels.take(bad)),
        !(1 <= labels[bad].len() <= 63),
    ensures
        name::wire_name(text) == Err::<Seq<u8>, StartQueryError>(
            if headed_len(labels, bad) <= 255 {
                StartQueryError::InvalidName
            } else {
                StartQueryError::NameTooLong
            },
        ),
        name::wire_name(Seq::empty()) == Err::<Seq<u8>, StartQueryError>(
            StartQueryError::InvalidName,
        ),
{
    law_text_has_its_labels(labels);
    if headed_len(labels, bad) <= 255 {
        lemma_wire_labels_fails(labels, bad);
    } else {
        let first = labels.take(bad);
        assert(first.take(bad) =~= first);
        let over = lemma_first_over(first, bad);
        assert(labels.take(over) =~= first.take(over));
        assert(labels.take(over + 1) =~= first.take(over + 1));
        assert(labels[over] == first[over]);
        lemma_wire_labels_fails(labels, over);
    }
}

/// Whether bytes spell a whole name: length and label, one after another, up
/// to a zero, or up to a pointer to bytes of the packet before `limit` that
/// spell the rest. What a pointer leads to ends where the one before it led
/// to, so that no byte is read twice.
pub open spec fn spells(packet: Seq<u8>, bytes: Seq<u8>, limit: int, labels: Seq<Seq<u8>>) -> bool
    decreases limit, labels.len(),
{
    ||| labels.len() == 0 && bytes.len() >= 1 && bytes[0] == 0
    ||| {
        &&& labels.len() > 0
        &&& 1 <= labels[0].len() <= 63
        &&& bytes.len() >= 1 + labels[0].len()
        &&& bytes.take(1 + labels[0].len() as int) == seq![labels[0].len() as u8] + labels[0]
        &&& spells(packet, bytes.skip(1 + labels[0].len() as int), limit, labels.drop_first())
    }
    ||| {
        let offset = (bytes[0] - 192) * 256 + bytes[1];
        &&& bytes.len() >= 2
        &&& bytes[0] >= 192
        &&& 0 <= offset < limit <= packet.len()
        &&& spells(packet, packet.subrange(offset, limit), offset, labels)
    }
}

proof fn lemma_spells_decodes(packet: Seq<u8>, bytes: Seq<u8>, limit: int, labels: Seq<Seq<u8>>)
    requires
        0 <= limit <= packet.len(),
    ensures
        spells(packet, bytes, limit, labels) <==> NameModel::decode(packet.take(limit), bytes) == (
        NameModel { labels, complete: true }),
    decreases limit, bytes.len(),
{
    let sight = packet.take(limit);
    let name = NameModel::decode(sight, bytes);
    let target = NameModel { labels, complete: true };
    if bytes.len() == 0 {
    } else if bytes[0] == 0 {
        if labels.len() == 0 {
            assert(labels =~= Seq::<Seq<u8>>::empty());
        } else if 1 <= labels[0].len() <= 63 && bytes.len() >= 1 + labels[0].len() {
            assert(bytes.take(1 + labels[0].len() as int)[0] == 0);
            assert((seq![labels[0].len() as u8] + labels[0])[0] == labels[0].len());
        }
    } else if bytes[0] < 64 {
        let len = bytes[0] as int;
        if labels.len() > 0 && 1 <= labels[0].len() <= 63 && bytes.len() >= 1 + labels[0].len() {
            assert(bytes.take(1 + labels[0].len() as int)[0] == bytes[0]);
            assert((seq![labels[0].len() as u8] + labels[0])[0] == labels[0].len());
        }
        if bytes.len() >= 1 + len {
            let rest = NameModel::decode(sight, bytes.skip(1 + len));
            let label = bytes.subrange(1, 1 + len);
            assert(bytes.take(1 + len) =~= seq![len as u8] + label);
            assert((seq![label] + rest.labels)[0] == label);
            assert((seq![label] + rest.labels).drop_first() =~= rest.labels);
            if labels.len() > 0 {
                lemma_spells_decodes(packet, bytes.skip(1 + len), limit, labels.drop_first());
                if labels[0] == label {
                    assert(seq![label] + labels.drop_first() =~= labels);
                }
                if spells(packet, bytes, limit, labels) {
                    assert(labels[0].len() == len);
                    assert((seq![labels[0].len() as u8] + labels[0]).skip(1) =~= labels[0]);
                    assert((seq![len as u8] + label).skip(1) =~= label);
                }
            }
        }
    } else if bytes[0] >= 192 && bytes.len() >= 2 {
        let offset = (bytes[0] - 192) * 256 + bytes[1];
        if labels.len() > 0 && 1 <= labels[0].len() <= 63 && bytes.len() >= 1 + labels[0].len() {
            assert(bytes.take(1 + labels[0].len() as int)[0] == bytes[0]);
            assert((seq![labels[0].len() as u8] + labels[0])[0] == labels[0].len());
        }
        if offset < limit {
            assert(sight.take(offset) =~= packet.take(offset));
            assert(sight.skip(offset) =~= packet.subrange(offset, limit));
            lemma_spells_decodes(packet, packet.subrange(offset, limit), offset, labels);
        }
    } else {
        if labels.len() > 0 && 1 <= labels[0].len() <= 63 && bytes.len() >= 1 + labels[0].len() {
            assert(bytes.take(1 + labels[0].len() as int)[0] == bytes[0]);
            assert((seq![labels[0].len() as u8] + labels[0])[0] == labels[0].len());
        }
    }
}

/// Bytes are read as a whole name with certain labels exactly where they spell
/// these labels.
pub proof fn law_name_read_as_spelled(packet: Seq<u8>, bytes: Seq<u8>, labels: Seq<Seq<u8>>)
    ensures
        NameModel::decode(packet, bytes) == (NameModel { labels, complete: true }) <==> spells(
            packet,
            bytes,
            packet.len() as int,
            labels,
        ),
{
    assert(packet.take(packet.len() as int) =~= packet);
    lemma_spells_decodes(packet, bytes, packet.len() as int, labels);
}

/// Reading a name takes a label off its front: a length from 1 to 63 and so
/// many bytes are the first label, and the other labels are those of the bytes
/// behind it.
pub proof fn law_label_is_read_first(packet: Seq<u8>, label: Seq<u8>, rest: Seq<u8>)
    requires
        1 <= label.len() <= 63,
    ensures
        ({
            let name = NameModel::decode(packet, seq![label.len() as u8] + label + rest);
            let behind = NameModel::decode(packet, rest);
            &&& name.labels == seq![label] + behind.labels
            &&& name.complete == behind.complete
        }),
{
    let bytes = seq![label.len() as u8] + label + rest;
    assert(bytes[0] == label.len());
    assert(bytes.subrange(1, 1 + label.len() as int) =~= label);
    assert(bytes.skip(1 + label.len() as int) =~= rest);
}

/// A compressed name is the labels before the pointer, and then the name at
/// the offset to which the pointer leads, read with the bytes before that
/// offset to look up further pointers in.
pub proof fn law_compressed_name(packet: Seq<u8>, head: Seq<Seq<u8>>, offset: int, tail: Seq<u8>)
    requires
        all_short(head),
        0 <= offset < packet.len(),
        offset < 0x4000,
    ensures
        ({
            let name = NameModel::decode(packet, headed(head) + pointer(offset) + tail);
            let behind = NameModel::decode(packet.take(offset), packet.skip(offset));
            &&& name.labels == head + behind.labels
            &&& name.complete == behind.complete
        }),
    decreases head.len(),
{
    let bytes = headed(head) + pointer(offset) + tail;
    let behind = NameModel::decode(packet.take(offset), packet.skip(offset));
    if head.len() == 0 {
        assert(bytes =~= pointer(offset) + tail);
        assert(bytes[0] == 192 + offset / 256);
        assert(bytes[1] == offset % 256);
        assert((bytes[0] - 192) * 256 + bytes[1] == offset);
        assert(head + behind.labels =~= behind.labels);
    } else {
        lemma_all_short_rest(head);
        law_compressed_name(packet, head.drop_first(), offset, tail);
        let rest = headed(head.drop_first()) + pointer(offset) + tail;
        law_label_is_read_first(packet, head[0], rest);
        assert(bytes =~= seq![head[0].len() as u8] + head[0] + rest);
        assert(head + behind.labels =~= seq![head[0]] + (head.drop_first() + behind.labels));
    }
}

/// A whole name is read the same where there is more to look up pointers in,
/// and where more bytes follow it.
pub proof fn law_whole_name_needs_no_more(packet: Seq<u8>, seen: int, bytes: Seq<u8>, tail: Seq<u8>)
    requires
        0 <= seen <= packet.len(),
        NameModel::decode(packet.take(seen), bytes).complete,
    ensures
        NameModel::decode(packet, bytes + tail) == NameModel::decode(packet.take(seen), bytes),
    decreases packet.len(), bytes.len(),
{
    let longer = bytes + tail;
    assert(longer[0] == bytes[0]);
    if bytes[0] == 0 {
    } else if bytes[0] < 64 {
        let len = bytes[0] as int;
        assert(longer.skip(1 + len) =~= bytes.skip(1 + len) + tail);
        assert(longer.subrange(1, 1 + len) =~= bytes.subrange(1, 1 + len));
        law_whole_name_needs_no_more(packet, seen, bytes.skip(1 + len), tail);
    } else {
        let offset = (bytes[0] - 192) * 256 + bytes[1];
        assert(longer[1] == bytes[1]);
        let less = packet.take(seen);
        assert(less.take(offset) =~= packet.take(offset));
        assert(packet.take(offset).take(offset) =~= packet.take(offset));
        assert(less.skip(offset) + packet.skip(seen) =~= packet.skip(offset));
        law_whole_name_needs_no_more(
            packet.take(offset),
            offset,
            less.skip(offset),
            packet.skip(seen),
        );
    }
}

/// A pointer stands for the whole name at its offset: where the bytes from the
/// offset on are a whole name that looks up its own pointers before the
/// offset, the pointer is read as that very name.
pub proof fn law_pointer_stands_for_name(
    packet: Seq<u8>,
    offset: int,
    tail: Seq<u8>,
    labels: Seq<Seq<u8>>,
)
    requires
        0 <= offset < packet.len(),
        offset < 0x4000,
        spells(packet, packet.skip(offset), offset, labels),
    ensures
        NameModel::decode(packet, pointer(offset) + tail) == (NameModel { labels, complete: true }),
        NameModel::decode(packet, packet.skip(offset)) == (NameModel { labels, complete: true }),
{
    lemma_spells_decodes(packet, packet.skip(offset), offset, labels);
    law_compressed_name(packet, Seq::empty(), offset, tail);
    let behind = NameModel::decode(packet.take(offset), packet.skip(offset));
    assert(Seq::<Seq<u8>>::empty() + behind.labels =~= behind.labels);
    assert(headed(Seq::empty()) + pointer(offset) + tail =~= pointer(offset) + tail);
    law_whole_name_needs_no_more(packet, offset, packet.skip(offset), Seq::empty());
    assert(packet.skip(offset) + Seq::<u8>::empty() =~= packet.skip(offset));
}

/// A name that is spelled out reads back as its labels, whatever follows it.
pub proof fn law_spelled_name_reads_back(packet: Seq<u8>, labels: Seq<Seq<u8>>, tail: Seq<u8>)
    requires
        all_short(labels),
    ensures
        NameModel::decode(packet, spelled(labels) + tail) == (NameModel { labels, complete: true }),
    decreases labels.len(),
{
    let bytes = spelled(labels) + tail;
    if labels.len() == 0 {
        assert(bytes[0] == 0);
        assert(labels =~= Seq::<Seq<u8>>::empty());
    } else {
        lemma_all_short_rest(labels);
        law_spelled_name_reads_back(packet, labels.drop_first(), tail);
        let rest = spelled(labels.drop_first()) + tail;
        law_label_is_read_first(packet, labels[0], rest);
        assert(bytes =~= seq![labels[0].len() as u8] + labels[0] + rest);
        assert(seq![labels[0]] + labels.drop_first() =~= labels);
    }
}

/// A name breaks off where the bytes end, where a label is cut short, where a
/// byte is neither a length nor the start of a pointer, and where a pointer is
/// cut short or leads out of the packet: the labels before that are read.
pub proof fn law_name_breaks_off(packet: Seq<u8>, head: Seq<Seq<u8>>, rest: Seq<u8>)
    requires
        all_short(head),
        ({
            ||| rest.len() == 0
            ||| 1 <= rest[0] <= 63 && rest.len() <= rest[0]
            ||| 64 <= rest[0] <= 191
            ||| rest[0] >= 192 && rest.len() == 1
            ||| rest[0] >= 192 && (rest[0] - 192) * 256 + rest[1] >= packet.len()
        }),
    ensures
        NameModel::decode(packet, headed(head) + rest) == (NameModel {
            labels: head,
            complete: false,
        }),
    decreases head.len(),
{
    let bytes = headed(head) + rest;
    if head.len() == 0 {
        assert(bytes =~= rest);
        assert(head =~= Seq::<Seq<u8>>::empty());
    } else {
        lemma_all_short_rest(head);
        law_name_breaks_off(packet, head.drop_first(), rest);
        let behind = headed(head.drop_first()) + rest;
        law_label_is_read_first(packet, head[0], behind);
        assert(bytes =~= seq![head[0].len() as u8] + head[0] + behind);
        assert(seq![head[0]] + head.drop_first() =~= head);
    }
}

/// Names are compared label by label, from the first on: they are different
/// where two labels at the same place are, or where one ends before the other;
/// an error where one breaks off before that; and else they are equal.
pub proof fn law_names_compared_by_label(a: NameModel, b: NameModel, differ: int)
    ensures
        0 <= differ < a.labels.len() && differ < b.labels.len() && a.labels[differ]
            != b.labels[differ] ==> a.compare(b) == Ok::<bool, Error>(false),
        a.complete && b.complete ==> a.compare(b) == Ok::<bool, Error>(a.labels == b.labels),
        !a.complete && a.labels.len() <= b.labels.len() && (forall|i: int|
            0 <= i < a.labels.len() ==> #[trigger] a.labels[i] == b.labels[i]) ==> a.compare(b)
            == Err::<bool, Error>(Error),
        !b.complete && b.labels.len() <= a.labels.len() && (forall|i: int|
            0 <= i < b.labels.len() ==> a.labels[i] == #[trigger] b.labels[i]) ==> a.compare(b)
            == Err::<bool, Error>(Error),
        a.complete && a.labels.len() < b.labels.len() ==> a.compare(b) == Ok::<bool, Error>(false),
        b.complete && b.labels.len() < a.labels.len() ==> a.compare(b) == Ok::<bool, Error>(false),
{
    let x = a.labels;
    let y = b.labels;
    if 0 <= differ < x.len() && differ < y.len() && x[differ] != y[differ] {
        if x.len() <= y.len() && x =~= y.subrange(0, x.len() as int) {
            assert(x[differ] == y.subrange(0, x.len() as int)[differ]);
        }
        if y.len() <= x.len() && y =~= x.subrange(0, y.len() as int) {
            assert(y[differ] == x.subrange(0, y.len() as int)[differ]);
        }
        assert(x != y);
    }
    if x.len() <= y.len() && (forall|i: int| 0 <= i < x.len() ==> #[trigger] x[i] == y[i]) {
        assert(x =~= y.subrange(0, x.len() as int));
    }
    if y.len() <= x.len() && (forall|i: int| 0 <= i < y.len() ==> x[i] == #[trigger] y[i]) {
        assert(y =~= x.subrange(0, y.len() as int));
    }
}

proof fn lemma_fitting_is(labels: Seq<Seq<u8>>, room: nat, k: int)
    requires
        0 <= k <= labels.len(),
        headed_len(labels, k) <= room,
        k < labels.len() ==> headed_len(labels, k + 1) > room,
    ensures
        name::fitting(labels, room) == k,
    decreases labels.len(),
{
    if labels.len() > 0 {
        let rest = labels.drop_first();
        assert(labels.take(1).drop_first() =~= Seq::<Seq<u8>>::empty());
        reveal_with_fuel(headed, 2);
        if k == 0 {
            assert(headed(labels.take(1)).len() == 1 + labels[0].len());
        } else {
            assert(labels.take(k).drop_first() =~= rest.take(k - 1));
            if k < labels.len() {
                assert(labels.take(k + 1).drop_first() =~= rest.take(k));
            }
            lemma_fitting_is(rest, (room - 1 - labels[0].len()) as nat, k - 1);
        }
    }
}

/// Copying a name into a buffer writes it without pointers: a whole name of no
/// more than 255 bytes is copied whole. A name that breaks off leaves its
/// labels there. One that does not fit leaves the labels that do, and the
/// length of the next label where there is room for that.
pub proof fn law_copied_name(labels: Seq<Seq<u8>>, over: int)
    requires
        all_short(labels),
    ensures
        spelled(labels).len() <= 255 ==> (NameModel { labels, complete: true }).copied() == (
            spelled(labels),
            true,
        ),
        headed(labels).len() == 255 ==> (NameModel { labels, complete: true }).copied() == (
            headed(labels),
            false,
        ),
        headed(labels).len() <= 255 ==> (NameModel { labels, complete: false }).copied() == (
            headed(labels),
            false,
        ),
        forall|complete: bool|
            0 <= over < labels.len() && headed_len(labels, over) <= 255 && headed_len(
                labels,
                over + 1,
            ) > 255 ==> (#[trigger] (NameModel { labels, complete }).copied()) == (
                if headed_len(labels, over) < 255 {
                    headed(labels.take(over)).push(labels[over].len() as u8)
                } else {
                    headed(labels.take(over))
                },
                false,
            ),
{
    let len = labels.len() as int;
    assert(labels.take(len) =~= labels);
    lemma_headed(labels);
    if headed(labels).len() <= 255 {
        lemma_fitting_is(labels, 255, len);
        assert(headed(labels).push(0) =~= spelled(labels));
    }
    if 0 <= over < labels.len() && headed_len(labels, over) <= 255 && headed_len(labels, over + 1)
        > 255 {
        lemma_fitting_is(labels, 255, over);
        lemma_headed(labels.take(over));
    }
}

/// A name takes so many bytes where it stands as its labels do, and one more
/// for the zero that ends it or two for the pointer that does.
pub proof fn law_name_measured(head: Seq<Seq<u8>>, end: Seq<u8>, tail: Seq<u8>)
    requires
        all_short(head),
        end == seq![0u8] || end.len() == 2 && end[0] >= 192,
    ensures
        wire::name_len(headed(head) + end + tail) == Some((headed(head) + end).len() as int),
    decreases head.len(),
{
    let bytes = headed(head) + end + tail;
    if head.len() == 0 {
        assert(bytes[0] == end[0]);
    } else {
        lemma_all_short_rest(head);
        law_name_measured(head.drop_first(), end, tail);
        assert(bytes[0] == head[0].len());
        assert(bytes.skip(1 + head[0].len() as int) =~= headed(head.drop_first()) + end + tail);
    }
}

/// Bytes of which a name takes some begin with labels, and a zero or a pointer
/// ends what it takes.
pub proof fn law_measured_name_ends(bytes: Seq<u8>) -> (r: (Seq<Seq<u8>>, Seq<u8>))
    requires
        wire::name_len(bytes) is Some,
    ensures
        all_short(r.0),
        r.1 == seq![0u8] || r.1.len() == 2 && r.1[0] >= 192,
        0 < wire::name_len(bytes)->0 <= bytes.len(),
        bytes.take(wire::name_len(bytes)->0) == headed(r.0) + r.1,
    decreases bytes.len(),
{
    let none = Seq::<Seq<u8>>::empty();
    if bytes[0] == 0 {
        assert(bytes.take(1) =~= headed(none) + seq![0u8]);
        (none, seq![0u8])
    } else if bytes[0] < 64 {
        let len = 1 + bytes[0] as int;
        let rest = bytes.skip(len);
        let (labels, end) = law_measured_name_ends(rest);
        let label = bytes.subrange(1, len);
        let all = seq![label] + labels;
        assert(all.drop_first() =~= labels);
        assert forall|i: int| 0 <= i < all.len() implies 1 <= (#[trigger] all[i]).len() <= 63 by {
            if i > 0 {
                assert(all[i] == labels[i - 1]);
            }
        }
        let n = wire::name_len(rest)->0;
        assert(bytes.take(len + n) =~= seq![label.len() as u8] + label + rest.take(n));
        assert(bytes.take(len + n) =~= headed(all) + end);
        (all, end)
    } else {
        assert(bytes.take(2) =~= headed(none) + bytes.take(2));
        (none, bytes.take(2))
    }
}

} // verus!
