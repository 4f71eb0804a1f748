//! The tolerant parser: it finds the packets in a byte stream that may hold
//! garbage between them, inside them, or in place of them.
//!
//! The parser looks for the signature. Where it finds one, it reads what
//! should be a packet. If the packet is sound it is yielded and the search
//! goes on behind it; if not, the search goes on one byte after the
//! signature, which was no packet's.

use crate::validity::ValidityCheck;
use crate::encoding::{get_le, lemma_le_value_bound, lemma_radix_values};
use crate::substream::DecodeError;
use crate::transport_packet::checkpoint_stream::StreamWithCheckpoints;
use crate::transport_packet::{is_signature, lemma_parse_frame_bounds, open_transport_frame, packet_wire, parse_frame, signature};
use crate::transport_packet::{parse_packet, TransportPacketData, TransportPacketDataView, MAX_DATA_LEN};
use vstd::prelude::*;
use vstd::slice::slice_subrange;

verus! {

/// The size of the pieces in which the parser scans for the signature.
pub const SCAN_BUFFER_LEN: usize = 256;

/// Whether the signature stands at index `i` of `bytes`.
pub open spec fn signature_at(bytes: Seq<u8>, i: int) -> bool {
    &&& 0 <= i
    &&& i + 4 <= bytes.len()
    &&& bytes[i] == 0x4C
    &&& bytes[i + 1] == 0x46
    &&& bytes[i + 2] == 0x54
    &&& bytes[i + 3] == 0x50
}

/// The first index at or after `from` at which the signature stands.
pub open spec fn find_signature_from(bytes: Seq<u8>, from: int) -> Option<int>
    decreases bytes.len() - from,
{
    if from < 0 || from + 4 > bytes.len() {
        None
    } else if signature_at(bytes, from) {
        Some(from)
    } else {
        find_signature_from(bytes, from + 1)
    }
}

/// The index from which on `bytes` that hold no signature may yet hold the
/// beginning of one: the last three bytes.
pub open spec fn unsearched_from(bytes: Seq<u8>) -> int {
    if bytes.len() < 3 {
        0
    } else {
        bytes.len() - 3
    }
}

/// The packets that `bytes` hold whole, and the index from which on `bytes`
/// are to be kept until more arrive: a signature behind which the frame is
/// cut short may be the beginning of a packet, and so may the last three
/// bytes where there is no signature.
pub open spec fn whole_packets(bytes: Seq<u8>) -> (Seq<TransportPacketDataView>, int)
    decreases bytes.len(),
{
    match find_signature_from(bytes, 0) {
        None => (Seq::empty(), unsearched_from(bytes)),
        Some(i) => if 0 <= i < bytes.len() {
            match parse_frame(bytes.skip(i + 4)) {
                Ok((v, n)) => if 0 <= i + 4 + n <= bytes.len() {
                    let rest = whole_packets(bytes.skip(i + 4 + n));
                    (seq![v] + rest.0, i + 4 + n + rest.1)
                } else {
                    (Seq::empty(), i)
                },
                Err(DecodeError::UnexpectedEof) => (Seq::empty(), i),
                Err(DecodeError::InvalidData) => {
                    let rest = whole_packets(bytes.skip(i + 1));
                    (rest.0, i + 1 + rest.1)
                },
            }
        } else {
            (Seq::empty(), unsearched_from(bytes))
        },
    }
}

/// The first packet in `bytes` and the index just behind it. A signature
/// that no sound frame follows is passed over; only the byte it starts at
/// is given up.
pub open spec fn first_packet(bytes: Seq<u8>) -> Option<(TransportPacketDataView, int)>
    decreases bytes.len(),
{
    match find_signature_from(bytes, 0) {
        None => None,
        Some(i) => if 0 <= i < bytes.len() {
            match parse_frame(bytes.skip(i + 4)) {
                Ok((v, n)) => Some((v, i + 4 + n)),
                Err(_) => shift_packet(first_packet(bytes.skip(i + 1)), i + 1),
            }
        } else {
            None
        },
    }
}

/// A packet found in a stream of which `by` bytes were left out in front.
pub open spec fn shift_packet(found: Option<(TransportPacketDataView, int)>, by: int) -> Option<
    (TransportPacketDataView, int),
> {
    match found {
        Some((v, end)) => Some((v, by + end)),
        None => None,
    }
}

/// All the packets in `bytes`, in the order in which they stand.
pub open spec fn parse_stream(bytes: Seq<u8>) -> Seq<TransportPacketDataView>
    decreases bytes.len(),
{
    match first_packet(bytes) {
        None => Seq::empty(),
        Some((v, end)) => if 0 < end <= bytes.len() {
            seq![v] + parse_stream(bytes.skip(end))
        } else {
            Seq::empty()
        },
    }
}

/// The messages of a list of packets' contents.
pub open spec fn views_of(packets: Seq<TransportPacketData>) -> Seq<TransportPacketDataView> {
    packets.map_values(|p: TransportPacketData| p@)
}

/// Whether a sound packet that carries `v` stands at index `at` of `bytes`:
/// the signature, the type byte, the length, and a payload that matches its
/// checksum and reads as `v`.
pub open spec fn framed_at(bytes: Seq<u8>, at: int, v: TransportPacketDataView) -> bool {
    &&& 0 <= at <= bytes.len()
    &&& parse_packet(bytes.skip(at)) is Ok
    &&& parse_packet(bytes.skip(at))->Ok_0.0 == v
}

/// `find_signature_from` gives the first index with the signature, and none
/// only where there is none.
pub proof fn lemma_find_signature(bytes: Seq<u8>, from: int)
    requires
        0 <= from,
    ensures
        match find_signature_from(bytes, from) {
            Some(i) => from <= i && signature_at(bytes, i) && forall|j: int|
                from <= j < i ==> !signature_at(bytes, j),
            None => forall|j: int| from <= j ==> !signature_at(bytes, j),
        },
    decreases bytes.len() - from,
{
    if from + 4 <= bytes.len() && !signature_at(bytes, from) {
        lemma_find_signature(bytes, from + 1);
    }
}

/// An index with the signature and none before it is what the search finds.
pub proof fn lemma_first_signature(bytes: Seq<u8>, i: int)
    requires
        signature_at(bytes, i),
        forall|j: int| 0 <= j < i ==> !signature_at(bytes, j),
    ensures
        find_signature_from(bytes, 0) == Some(i),
{
    lemma_find_signature(bytes, 0);
}

/// Where no index has the signature, the search finds none.
pub proof fn lemma_no_signature(bytes: Seq<u8>)
    requires
        forall|j: int| 0 <= j ==> !signature_at(bytes, j),
    ensures
        find_signature_from(bytes, 0) is None,
{
    lemma_find_signature(bytes, 0);
}

/// A packet that is found ends within the stream, and takes up at least the
/// seventeen bytes of an empty frame.
pub proof fn lemma_first_packet_bounds(bytes: Seq<u8>)
    ensures
        first_packet(bytes) is Some ==> 17 <= first_packet(bytes)->Some_0.1 <= bytes.len(),
    decreases bytes.len(),
{
    lemma_find_signature(bytes, 0);
    match find_signature_from(bytes, 0) {
        None => {},
        Some(i) => {
            lemma_parse_frame_bounds(bytes.skip(i + 4));
            if parse_frame(bytes.skip(i + 4)) is Err {
                lemma_first_packet_bounds(bytes.skip(i + 1));
            }
        },
    }
}

/// The index of the first signature in `buf`.
pub fn index_of_signature(buf: &[u8]) -> (index: Option<usize>)
    ensures
        match index {
            Some(i) => find_signature_from(buf@, 0) == Some(i as int),
            None => find_signature_from(buf@, 0) is None,
        },
{
    if buf.len() < 4 {
        return None;
    }
    let mut i: usize = 0;
    while i < buf.len() - 3
        invariant
            buf@.len() >= 4,
            i <= buf@.len() - 3,
            find_signature_from(buf@, 0) == find_signature_from(buf@, i as int),
        decreases buf@.len() - i,
    {
        if buf[i] == 0x4C && buf[i + 1] == 0x46 && buf[i + 2] == 0x54 && buf[i + 3] == 0x50 {
            return Some(i);
        }
        i += 1;
    }
    None
}

/// What a search for the signature came to.
#[derive(Debug, Clone, Copy, PartialEq, Eq, Structural)]
pub enum SearchSignatureStatus {
    Found,
    Eof,
}

/// Reads on until the signature is next in the stream, or until the stream
/// has too little left to hold one.
pub fn parse_until_signature(stream: &mut StreamWithCheckpoints) -> (status: SearchSignatureStatus)
    requires
        old(stream).wf(),
    ensures
        final(stream).wf(),
        match find_signature_from(old(stream).ahead(), 0) {
            Some(i) => {
                &&& status == SearchSignatureStatus::Found
                &&& final(stream).ahead() == old(stream).ahead().skip(i)
            },
            None => {
                &&& status == SearchSignatureStatus::Eof
                &&& final(stream).behind() + final(stream).ahead() == old(stream).ahead().skip(
                    unsearched_from(old(stream).ahead()),
                )
            },
        },
{
    let ghost start = stream.ahead();
    let ghost consumed: int = 0;
    assert(start.skip(0) =~= start);
    loop
        invariant
            stream.wf(),
            start == old(stream).ahead(),
            0 <= consumed <= start.len(),
            stream.ahead() == start.skip(consumed),
            consumed == 0 || start.len() - consumed >= 3,
            forall|j: int| 0 <= j < consumed ==> !signature_at(start, j),
        decreases start.len() - consumed,
    {
        stream.checkpoint();
        let buf = stream.read(SCAN_BUFFER_LEN);
        let read = buf.len();
        let ghost ahead = start.skip(consumed);
        if read < 4 {
            proof {
                assert forall|j: int| 0 <= j implies !signature_at(start, j) by {
                    if j >= consumed {
                        assert(ahead.len() < 4);
                    }
                }
                lemma_no_signature(start);
                assert(stream.behind() + stream.ahead() =~= ahead);
            }
            return SearchSignatureStatus::Eof;
        }
        proof {
            lemma_find_signature(buf@, 0);
            assert forall|j: int| 0 <= j && j + 4 <= read implies signature_at(buf@, j)
                == signature_at(start, consumed + j) by {
                assert(buf@[j] == ahead[j]);
                assert(buf@[j + 1] == ahead[j + 1]);
                assert(buf@[j + 2] == ahead[j + 2]);
                assert(buf@[j + 3] == ahead[j + 3]);
            }
        }
        if let Some(index) = index_of_signature(buf.as_slice()) {
            let backwards = read - index;
            stream.rollback_n(backwards);
            proof {
                assert(signature_at(start, consumed + index));
                assert forall|j: int| 0 <= j < consumed + index implies !signature_at(
                    start,
                    j,
                ) by {
                    if j >= consumed {
                        assert(!signature_at(buf@, j - consumed));
                    }
                }
                lemma_first_signature(start, consumed + index);
                assert(stream.ahead() =~= start.skip(consumed + index));
            }
            return SearchSignatureStatus::Found;
        }
        // Keep the last three bytes: a signature may begin in them.
        stream.rollback_n(3);
        proof {
            assert forall|j: int| 0 <= j < consumed + read - 3 implies !signature_at(start, j) by {
                if j >= consumed {
                    assert(!signature_at(buf@, j - consumed));
                }
            }
            assert(stream.ahead() =~= start.skip(consumed + read - 3));
            consumed = consumed + read - 3;
        }
    }
}

/// Reads the packet that stands next in the stream. A sound packet is read
/// and a checkpoint set behind it; otherwise the stream is rolled back to
/// where it stood.
pub fn parse_next_packet(stream: &mut StreamWithCheckpoints) -> (r: Result<
    TransportPacketData,
    DecodeError,
>)
    requires
        old(stream).wf(),
        old(stream).behind() == Seq::<u8>::empty(),
    ensures
        final(stream).wf(),
        final(stream).behind() == Seq::<u8>::empty(),
        match parse_packet(old(stream).ahead()) {
            Ok((v, n)) => {
                &&& r is Ok
                &&& r->Ok_0@ == v
                &&& n <= old(stream).ahead().len()
                &&& final(stream).ahead() == old(stream).ahead().skip(n as int)
            },
            Err(e) => r is Err && r->Err_0 == e && final(stream).ahead() == old(stream).ahead(),
        },
{
    let ghost input = stream.ahead();
    proof {
        reveal(parse_frame);
        lemma_radix_values();
    }
    // The signature.
    let signature_buf = match stream.read_exact(4) {
        Ok(buf) => buf,
        Err(e) => {
            stream.rollback();
            assert(stream.ahead() =~= input);
            return Err(e);
        },
    };
    if !is_signature(signature_buf.as_slice()) {
        stream.rollback();
        assert(stream.ahead() =~= input);
        return Err(DecodeError::InvalidData);
    }
    let ghost frame = input.skip(4);
    // The type byte and the length.
    let head = match stream.read_exact(5) {
        Ok(buf) => buf,
        Err(e) => {
            stream.rollback();
            assert(stream.ahead() =~= input);
            return Err(e);
        },
    };
    let tag = head[0];
    let length_buf = slice_subrange(head.as_slice(), 1, 5);
    proof {
        assert(length_buf@ =~= frame.subrange(1, 5));
        lemma_le_value_bound(length_buf@);
    }
    let length = get_le(length_buf);
    if length > MAX_DATA_LEN as u64 {
        stream.rollback();
        assert(stream.ahead() =~= input);
        return Err(DecodeError::InvalidData);
    }
    let length = length as usize;
    // The scrambled payload and its checksum.
    let tail = match stream.read_exact(length + 8) {
        Ok(buf) => buf,
        Err(e) => {
            stream.rollback();
            assert(stream.ahead() =~= input);
            return Err(e);
        },
    };
    let scrambled = slice_subrange(tail.as_slice(), 0, length);
    let hash_buf = slice_subrange(tail.as_slice(), length, length + 8);
    proof {
        assert(scrambled@ =~= frame.subrange(5, 5 + length));
        assert(hash_buf@ =~= frame.subrange(5 + length, 13 + length));
        lemma_le_value_bound(hash_buf@);
    }
    let hash = get_le(hash_buf);
    match open_transport_frame(tag, scrambled, hash) {
        Ok(data) => {
            stream.checkpoint();
            assert(stream.ahead() =~= input.skip(4 + 13 + length));
            Ok(data)
        },
        Err(e) => {
            stream.rollback();
            assert(stream.ahead() =~= input);
            Err(e)
        },
    }
}

/// The next packet in the stream, or none if the stream holds no more.
pub fn next_packet(stream: &mut StreamWithCheckpoints) -> (r: Option<TransportPacketData>)
    requires
        old(stream).wf(),
    ensures
        final(stream).wf(),
        match first_packet(old(stream).ahead()) {
            Some((v, end)) => r is Some && r->Some_0@ == v && 0 < end <= old(stream).ahead().len()
                && final(stream).ahead() == old(stream).ahead().skip(end),
            None => r is None,
        },
{
    let ghost start = stream.ahead();
    let ghost shift: int = 0;
    assert(start.skip(0) =~= start);
    loop
        invariant
            stream.wf(),
            start == old(stream).ahead(),
            0 <= shift <= start.len(),
            stream.ahead() == start.skip(shift),
            first_packet(start) == shift_packet(first_packet(stream.ahead()), shift),
        decreases start.len() - shift,
    {
        let ghost ahead = stream.ahead();
        proof {
            lemma_find_signature(ahead, 0);
            lemma_first_packet_bounds(start);
        }
        match parse_until_signature(stream) {
            SearchSignatureStatus::Found => {},
            SearchSignatureStatus::Eof => {
                return None;
            },
        }
        let ghost i = find_signature_from(ahead, 0)->Some_0;
        let ghost at_signature = stream.ahead();
        stream.checkpoint();
        proof {
            assert(at_signature.take(4) =~= signature());
            assert(at_signature.skip(4) =~= ahead.skip(i + 4));
        }
        match parse_next_packet(stream) {
            Ok(packet) => {
                proof {
                    let n = parse_frame(ahead.skip(i + 4))->Ok_0.1;
                    assert(stream.ahead() =~= ahead.skip(i + 4 + n));
                    assert(ahead.skip(i + 4 + n) =~= start.skip(shift + i + 4 + n));
                }
                return Some(packet);
            },
            Err(_) => {
                // No packet here: go on one byte behind the false signature.
                stream.skip_and_checkpoint(1);
                proof {
                    assert(stream.ahead() =~= ahead.skip(i + 1));
                    assert(ahead.skip(i + 1) =~= start.skip(shift + i + 1));
                    shift = shift + i + 1;
                }
            },
        }
    }
}

/// Reads every packet that a byte stream holds, passing over what is no
/// sound packet.
pub fn parse_transport_packet_stream(stream: Vec<u8>) -> (packets: Vec<TransportPacketData>)
    ensures
        views_of(packets@) == parse_stream(stream@),
{
    let ghost start = stream@;
    let mut source = StreamWithCheckpoints::new(stream);
    let mut packets: Vec<TransportPacketData> = Vec::new();
    assert(views_of(packets@) + parse_stream(source.ahead()) =~= parse_stream(start));
    loop
        invariant
            source.wf(),
            start == stream@,
            views_of(packets@) + parse_stream(source.ahead()) == parse_stream(start),
        decreases source.ahead().len(),
    {
        let ghost ahead = source.ahead();
        let ghost before = packets@;
        match next_packet(&mut source) {
            Some(packet) => {
                packets.push(packet);
                proof {
                    assert(views_of(packets@) =~= views_of(before) + seq![packet@]);
                    assert(views_of(packets@) + parse_stream(source.ahead()) =~= views_of(before)
                        + parse_stream(ahead));
                }
            },
            None => {
                assert(views_of(packets@) + parse_stream(ahead) =~= views_of(packets@));
                return packets;
            },
        }
    }
}

/// Takes out of `buffer` every packet that it holds whole, and leaves in it
/// what may be the beginning of a packet of which more is to arrive. For
/// a stream that comes in piece by piece: each piece is put behind what is
/// left in the buffer.
pub fn drain_packets(buffer: &mut Vec<u8>) -> (packets: Vec<TransportPacketData>)
    ensures
        views_of(packets@) == whole_packets(old(buffer)@).0,
        0 <= whole_packets(old(buffer)@).1 <= old(buffer)@.len(),
        final(buffer)@ == old(buffer)@.skip(whole_packets(old(buffer)@).1),
{
    let ghost start = buffer@;
    let mut taken: Vec<u8> = Vec::new();
    std::mem::swap(buffer, &mut taken);
    let mut source = StreamWithCheckpoints::new(taken);
    let mut packets: Vec<TransportPacketData> = Vec::new();
    let ghost mut shift: int = 0;
    let mut done = false;
    proof {
        assert(start.skip(0) =~= start);
        assert(views_of(packets@) + whole_packets(start).0 =~= whole_packets(start).0);
    }
    while !done
        invariant
            source.wf(),
            0 <= shift <= start.len(),
            !done ==> source.ahead() == start.skip(shift),
            !done ==> views_of(packets@) + whole_packets(source.ahead()).0 == whole_packets(start).0,
            !done ==> shift + whole_packets(source.ahead()).1 == whole_packets(start).1,
            done ==> views_of(packets@) == whole_packets(start).0,
            done ==> 0 <= whole_packets(start).1 <= start.len(),
            done ==> source.behind() + source.ahead() == start.skip(whole_packets(start).1),
        decreases start.len() - shift, (if done { 0int } else { 1int }),
    {
        let ghost ahead = source.ahead();
        let ghost before = packets@;
        proof {
            lemma_find_signature(ahead, 0);
        }
        match parse_until_signature(&mut source) {
            SearchSignatureStatus::Eof => {
                proof {
                    assert(views_of(packets@) + Seq::<TransportPacketDataView>::empty() =~= views_of(
                        packets@,
                    ));
                    assert(ahead.skip(unsearched_from(ahead)) =~= start.skip(
                        shift + unsearched_from(ahead),
                    ));
                }
                done = true;
            },
            SearchSignatureStatus::Found => {
                let ghost i = find_signature_from(ahead, 0)->Some_0;
                let ghost at_signature = source.ahead();
                source.checkpoint();
                proof {
                    assert(at_signature.take(4) =~= signature());
                    assert(at_signature.skip(4) =~= ahead.skip(i + 4));
                    lemma_parse_frame_bounds(ahead.skip(i + 4));
                }
                match parse_next_packet(&mut source) {
                    Ok(packet) => {
                        packets.push(packet);
                        proof {
                            let n = parse_frame(ahead.skip(i + 4))->Ok_0.1;
                            assert(source.ahead() =~= ahead.skip(i + 4 + n));
                            assert(ahead.skip(i + 4 + n) =~= start.skip(shift + i + 4 + n));
                            assert(views_of(packets@) =~= views_of(before) + seq![packet@]);
                            assert(views_of(packets@) + whole_packets(source.ahead()).0 =~= views_of(
                                before,
                            ) + whole_packets(ahead).0);
                            shift = shift + i + 4 + n;
                        }
                    },
                    Err(DecodeError::UnexpectedEof) => {
                        // The packet may not have wholly arrived.
                        proof {
                            assert(views_of(packets@) + Seq::<TransportPacketDataView>::empty()
                                =~= views_of(packets@));
                            assert(source.behind() + source.ahead() =~= ahead.skip(i));
                            assert(ahead.skip(i) =~= start.skip(shift + i));
                        }
                        done = true;
                    },
                    Err(DecodeError::InvalidData) => {
                        source.skip_and_checkpoint(1);
                        proof {
                            assert(source.ahead() =~= ahead.skip(i + 1));
                            assert(ahead.skip(i + 1) =~= start.skip(shift + i + 1));
                            shift = shift + i + 1;
                        }
                    },
                }
            },
        }
    }
    source.rollback();
    let mut rest = source.into_remaining();
    std::mem::swap(buffer, &mut rest);
    packets
}

/// A valid packet at the head of a stream is the first that the parser
/// yields, and the parser goes on right behind it.
pub proof fn lemma_packet_then_rest(packet: TransportPacketData, rest: Seq<u8>)
    requires
        packet.valid(),
    ensures
        first_packet(packet_wire(packet@) + rest) == Some((packet@, packet_wire(packet@).len() as int)),
        parse_stream(packet_wire(packet@) + rest) == seq![packet@] + parse_stream(rest),
{
    let v = packet@;
    let bytes = packet_wire(v) + rest;
    packet.lemma_frame_roundtrip(rest);
    assert(signature_at(bytes, 0));
    lemma_first_signature(bytes, 0);
    assert(bytes.skip(4) =~= v.frame() + rest);
    let end = packet_wire(v).len() as int;
    assert(end == 4 + v.frame().len());
    assert(bytes.skip(end) =~= rest);
}

/// A valid packet at the head of what has arrived is taken out whole, and
/// the rest is looked at as if it had arrived alone.
pub proof fn lemma_whole_packet_then_rest(packet: TransportPacketData, rest: Seq<u8>)
    requires
        packet.valid(),
    ensures
        whole_packets(packet_wire(packet@) + rest).0 == seq![packet@] + whole_packets(rest).0,
        whole_packets(packet_wire(packet@) + rest).1 == packet_wire(packet@).len() + whole_packets(
            rest,
        ).1,
{
    let v = packet@;
    let bytes = packet_wire(v) + rest;
    packet.lemma_frame_roundtrip(rest);
    assert(signature_at(bytes, 0));
    lemma_first_signature(bytes, 0);
    assert(bytes.skip(4) =~= v.frame() + rest);
    let end = packet_wire(v).len() as int;
    assert(end == 4 + v.frame().len());
    assert(bytes.skip(end) =~= rest);
}

/// A stream that holds one valid packet and nothing else parses to that
/// packet's message.
pub proof fn lemma_parse_single_packet(packet: TransportPacketData)
    requires
        packet.valid(),
    ensures
        parse_stream(packet_wire(packet@)) == seq![packet@],
{
    lemma_packet_then_rest(packet, Seq::empty());
    assert(packet_wire(packet@) + Seq::<u8>::empty() =~= packet_wire(packet@));
    lemma_find_signature(Seq::<u8>::empty(), 0);
    assert(parse_stream(Seq::<u8>::empty()) =~= Seq::<TransportPacketDataView>::empty());
}

/// The first packet that the parser finds stands in the stream as a sound
/// packet: signature, type, length, and a payload that matches its checksum.
pub proof fn lemma_first_packet_was_framed(bytes: Seq<u8>)
    requires
        first_packet(bytes) is Some,
    ensures
        exists|at: int| #[trigger] framed_at(bytes, at, first_packet(bytes)->Some_0.0),
    decreases bytes.len(),
{
    lemma_find_signature(bytes, 0);
    let i = find_signature_from(bytes, 0)->Some_0;
    let here = bytes.skip(i);
    assert(here.take(4) =~= signature());
    assert(here.skip(4) =~= bytes.skip(i + 4));
    if parse_frame(bytes.skip(i + 4)) is Ok {
        assert(framed_at(bytes, i, first_packet(bytes)->Some_0.0));
    } else {
        let tail = bytes.skip(i + 1);
        lemma_first_packet_was_framed(tail);
        let v = first_packet(bytes)->Some_0.0;
        let at = choose|at: int| framed_at(tail, at, v);
        assert(tail.skip(at) =~= bytes.skip(i + 1 + at));
        assert(framed_at(bytes, i + 1 + at, v));
    }
}

/// The packet of every message that the parser yields stands in the stream,
/// byte for byte. The parser makes up nothing: whatever was done to the
/// stream, what comes out of it is a packet that is in it.
pub proof fn lemma_parsed_stands_in_stream(bytes: Seq<u8>, k: int)
    requires
        0 <= k < parse_stream(bytes).len(),
    ensures
        exists|at: int|
            0 <= at && at + packet_wire(parse_stream(bytes)[k]).len() <= bytes.len()
                && #[trigger] bytes.subrange(
                at,
                at + packet_wire(parse_stream(bytes)[k]).len(),
            ) == packet_wire(parse_stream(bytes)[k]),
{
    let v = parse_stream(bytes)[k];
    lemma_parsed_was_framed(bytes, k);
    let at = choose|at: int| #[trigger] framed_at(bytes, at, v);
    let tail = bytes.skip(at);
    crate::transport_packet::lemma_parse_packet_inverse(tail);
    let n = parse_packet(tail)->Ok_0.1 as int;
    assert(tail.take(n) =~= bytes.subrange(at, at + n));
}

/// Every message that the parser yields stands in the stream as a sound
/// packet. Whatever was done to the stream, the parser makes up no message:
/// each one came with its signature and with a checksum that matches it.
pub proof fn lemma_parsed_was_framed(bytes: Seq<u8>, k: int)
    requires
        0 <= k < parse_stream(bytes).len(),
    ensures
        exists|at: int| #[trigger] framed_at(bytes, at, parse_stream(bytes)[k]),
    decreases bytes.len(),
{
    lemma_first_packet_bounds(bytes);
    let v = first_packet(bytes)->Some_0.0;
    let end = first_packet(bytes)->Some_0.1;
    assert(first_packet(bytes) is Some);
    assert(parse_stream(bytes) == seq![v] + parse_stream(bytes.skip(end)));
    if k == 0 {
        lemma_first_packet_was_framed(bytes);
        assert(parse_stream(bytes)[0] == v);
        let at = choose|at: int| #[trigger] framed_at(bytes, at, v);
        assert(framed_at(bytes, at, parse_stream(bytes)[k]));
    } else {
        let tail = bytes.skip(end);
        assert(parse_stream(bytes)[k] == parse_stream(tail)[k - 1]);
        lemma_parsed_was_framed(tail, k - 1);
        let w = parse_stream(tail)[k - 1];
        let at = choose|at: int| framed_at(tail, at, w);
        assert(tail.skip(at) =~= bytes.skip(end + at));
        assert(framed_at(bytes, end + at, w));
    }
}

/// The stream that holds the packets of `packets`, one behind the other.
pub open spec fn stream_of(packets: Seq<TransportPacketData>) -> Seq<u8>
    decreases packets.len(),
{
    if packets.len() == 0 {
        Seq::empty()
    } else {
        packet_wire(packets.first()@) + stream_of(packets.drop_first())
    }
}

/// A stream of valid packets, one behind the other, parses to their
/// messages, in order, and to nothing else.
pub proof fn lemma_parse_packets(packets: Seq<TransportPacketData>)
    requires
        forall|k: int| 0 <= k < packets.len() ==> (#[trigger] packets[k]).valid(),
    ensures
        parse_stream(stream_of(packets)) == views_of(packets),
    decreases packets.len(),
{
    if packets.len() == 0 {
        lemma_first_packet_bounds(Seq::<u8>::empty());
        assert(parse_stream(stream_of(packets)) =~= views_of(packets));
    } else {
        let rest = packets.drop_first();
        assert forall|k: int| 0 <= k < rest.len() implies (#[trigger] rest[k]).valid() by {
            assert(rest[k] == packets[k + 1]);
        }
        lemma_parse_packets(rest);
        lemma_packet_then_rest(packets.first(), stream_of(rest));
        assert(views_of(packets) =~= seq![packets.first()@] + views_of(rest));
    }
}

/// Damage to a stream makes up no message, unless it makes up a sound
/// packet: where every sound packet that stands in the stream carries one
/// of the messages in `sent`, every message that the parser yields is one of
/// them.
pub proof fn lemma_nothing_made_up(bytes: Seq<u8>, sent: Seq<TransportPacketDataView>)
    requires
        forall|at: int, v: TransportPacketDataView| #[trigger]
            framed_at(bytes, at, v) ==> sent.contains(v),
    ensures
        forall|k: int|
            0 <= k < parse_stream(bytes).len() ==> sent.contains(#[trigger] parse_stream(bytes)[k]),
{
    assert forall|k: int| 0 <= k < parse_stream(bytes).len() implies sent.contains(
        #[trigger] parse_stream(bytes)[k],
    ) by {
        lemma_parsed_was_framed(bytes, k);
        let at = choose|at: int| #[trigger] framed_at(bytes, at, parse_stream(bytes)[k]);
        assert(framed_at(bytes, at, parse_stream(bytes)[k]));
    }
}

} // verus!
