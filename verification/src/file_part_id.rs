//! Which part of a file a message speaks of: its header, or one of its
//! numbered body parts; and inclusive ranges of such parts.

use crate::binary_serialize::BinarySerialize;
use crate::decimal::{decimal, decimal_digits, lemma_ascii_is_utf8, lemma_decimal_is_digits, lemma_decimal_value, read_decimal, same_bytes, string_from_utf8};
use crate::encoding::{be_bytes, be_value, get_be, put_be};
use crate::encoding::{lemma_be_value_of_bytes, lemma_le_value_bound, lemma_radix_values};
use crate::substream::{DecodeError, SubstreamReader};
use crate::validity::ValidityCheck;
use vstd::prelude::*;
use vstd::utf8::encode_utf8;

verus! {

/// The six bytes `header`.
pub open spec fn header_name() -> Seq<u8> {
    seq![0x68u8, 0x65u8, 0x61u8, 0x64u8, 0x65u8, 0x72u8]
}

/// The six bytes `header`.
fn header_name_bytes() -> (name: Vec<u8>)
    ensures
        name@ == header_name(),
{
    let mut name: Vec<u8> = Vec::new();
    name.push(0x68);
    name.push(0x65);
    name.push(0x61);
    name.push(0x64);
    name.push(0x65);
    name.push(0x72);
    assert(name@ =~= header_name());
    name
}

/// The header of a file, or its body part with the given number.
#[derive(Clone, Copy, Debug, PartialEq, Eq, PartialOrd, Ord, Hash, Structural)]
pub enum FilePartId {
    Header,
    Part(u32),
}

impl FilePartId {
    /// The place of the part in the order of parts: the header first, then
    /// the body parts by number.
    pub open spec fn rank(self) -> int {
        match self {
            FilePartId::Header => 0,
            FilePartId::Part(i) => i + 1,
        }
    }

    /// The part at a place in the order of parts.
    pub open spec fn at_rank(rank: int) -> FilePartId {
        if rank == 0 {
            FilePartId::Header
        } else {
            FilePartId::Part((rank - 1) as u32)
        }
    }

    /// The name of the part in text: `header`, or the part's number in
    /// decimal.
    pub open spec fn name(self) -> Seq<u8> {
        match self {
            FilePartId::Header => header_name(),
            FilePartId::Part(i) => decimal(i as nat),
        }
    }

    /// The part that a text names: the header for `header`, a body part for
    /// its number in decimal without leading zeros, and none for any other
    /// text.
    pub fn from_string(s: &str) -> (part: Option<Self>)
        ensures
            match part {
                Some(p) => encode_utf8(s@) == p.name(),
                None => forall|p: FilePartId| encode_utf8(s@) != #[trigger] p.name(),
            },
    {
        let bytes = s.as_bytes();
        let header = header_name_bytes();
        if same_bytes(bytes, header.as_slice()) {
            return Some(FilePartId::Header);
        }
        let candidate = read_decimal(bytes);
        proof {
            assert forall|i: u32| bytes@ == decimal(i as nat) implies candidate == Some(i) by {
                lemma_decimal_value(i as nat);
            }
        }
        let found = match candidate {
            Some(i) => {
                let digits = decimal_digits(i);
                if same_bytes(bytes, digits.as_slice()) {
                    Some(FilePartId::Part(i))
                } else {
                    None
                }
            },
            None => None,
        };
        proof {
            if found is None {
                assert forall|p: FilePartId| encode_utf8(s@) != #[trigger] p.name() by {
                    match p {
                        FilePartId::Header => {},
                        FilePartId::Part(i) => {
                            if bytes@ == decimal(i as nat) {
                                assert(candidate == Some(i));
                            }
                        },
                    }
                }
            }
        }
        found
    }

    /// The name of the part in text.
    pub fn as_string(&self) -> (text: String)
        ensures
            encode_utf8(text@) == self.name(),
    {
        let bytes = match self {
            FilePartId::Header => header_name_bytes(),
            FilePartId::Part(i) => decimal_digits(*i),
        };
        proof {
            if let FilePartId::Part(i) = *self {
                lemma_decimal_is_digits(i as nat);
            }
            lemma_ascii_is_utf8(bytes@);
        }
        match string_from_utf8(bytes) {
            Some(text) => text,
            None => String::new(),
        }
    }

    /// The number that stands for the part in state files and on the wire:
    /// 0 for the header, one more than its number for a body part.
    pub fn to_index(&self) -> (index: u32)
        requires
            self.valid(),
        ensures
            index == self.rank(),
    {
        match self {
            FilePartId::Header => 0,
            FilePartId::Part(i) => *i + 1,
        }
    }

    /// The part that a number stands for.
    pub fn from_index(i: u32) -> (part: Self)
        ensures
            part == Self::at_rank(i as int),
            part.valid(),
            part.rank() == i,
    {
        if i == 0 {
            FilePartId::Header
        } else {
            FilePartId::Part(i - 1)
        }
    }

    /// Whether this part comes before or is `other`.
    pub fn le(&self, other: &FilePartId) -> (b: bool)
        ensures
            b == (self.rank() <= other.rank()),
    {
        match (self, other) {
            (FilePartId::Header, _) => true,
            (FilePartId::Part(_), FilePartId::Header) => false,
            (FilePartId::Part(a), FilePartId::Part(b)) => *a <= *b,
        }
    }

    /// Whether this part comes strictly before `other`.
    pub fn lt(&self, other: &FilePartId) -> (b: bool)
        ensures
            b == (self.rank() < other.rank()),
    {
        match (self, other) {
            (_, FilePartId::Header) => false,
            (FilePartId::Header, FilePartId::Part(_)) => true,
            (FilePartId::Part(a), FilePartId::Part(b)) => *a < *b,
        }
    }

    /// A part can be told from its rank.
    pub proof fn lemma_rank_injective(a: FilePartId, b: FilePartId)
        requires
            a.rank() == b.rank(),
        ensures
            a == b,
    {
    }

    /// Numbers and valid parts correspond one to one.
    pub proof fn lemma_index_roundtrip(self, i: u32)
        ensures
            self.valid() ==> Self::at_rank(self.rank()) == self,
            Self::at_rank(i as int).rank() == i,
    {
    }
}

impl ValidityCheck for FilePartId {
    /// Every part but the one body part whose number is reserved.
    open spec fn valid(&self) -> bool {
        match self {
            FilePartId::Header => true,
            FilePartId::Part(i) => *i != u32::MAX,
        }
    }

    fn is_valid(&self) -> (ok: bool) {
        match self {
            FilePartId::Header => true,
            FilePartId::Part(i) => *i != u32::MAX,
        }
    }
}

/// All parts from `from` through `to`, both included.
#[derive(Clone, Copy, Debug, PartialEq, Eq, Structural)]
pub struct FilePartIdRangeInclusive {
    pub from: FilePartId,
    pub to: FilePartId,
}

impl FilePartIdRangeInclusive {
    /// Whether the part lies in the range.
    pub open spec fn covers(self, id: FilePartId) -> bool {
        self.from.rank() <= id.rank() <= self.to.rank()
    }

    /// The parts of the range, in order.
    pub open spec fn parts(self) -> Seq<FilePartId> {
        Seq::new(
            (self.to.rank() - self.from.rank() + 1) as nat,
            |k: int| FilePartId::at_rank(self.from.rank() + k),
        )
    }

    /// The eight bytes of the range on the wire.
    pub open spec fn encoded(self) -> Seq<u8> {
        be_bytes(self.from.rank() as nat, 4) + be_bytes(self.to.rank() as nat, 4)
    }

    /// What eight bytes say as a range: none if they name an end before the
    /// start.
    pub open spec fn from_wire(bytes: Seq<u8>) -> Option<FilePartIdRangeInclusive> {
        let from = be_value(bytes.take(4)) as int;
        let to = be_value(bytes.skip(4)) as int;
        if from > to {
            None
        } else {
            Some(
                FilePartIdRangeInclusive {
                    from: FilePartId::at_rank(from),
                    to: FilePartId::at_rank(to),
                },
            )
        }
    }

    /// What a reader makes of the front of `bytes` as a range.
    pub open spec fn decoded(bytes: Seq<u8>) -> Result<(FilePartIdRangeInclusive, nat), DecodeError> {
        if bytes.len() < 8 {
            Err(DecodeError::UnexpectedEof)
        } else {
            match Self::from_wire(bytes.take(8)) {
                Some(range) => Ok((range, 8)),
                None => Err(DecodeError::InvalidData),
            }
        }
    }

    pub fn new(from: FilePartId, to: FilePartId) -> (r: Self)
        requires
            from.rank() <= to.rank(),
        ensures
            r.from == from,
            r.to == to,
            r.from.rank() <= r.to.rank(),
    {
        Self { from, to }
    }

    pub fn new_single(id: FilePartId) -> (r: Self)
        ensures
            r.from == id,
            r.to == id,
            r.from.rank() <= r.to.rank(),
            forall|p: FilePartId| r.covers(p) <==> p == id,
    {
        Self { from: id, to: id }
    }

    pub fn contains(&self, id: FilePartId) -> (b: bool)
        ensures
            b == self.covers(id),
    {
        self.from.le(&id) && id.le(&self.to)
    }

    /// Every part of the range, from the first to the last.
    pub fn iter_parts(&self) -> (parts: Vec<FilePartId>)
        requires
            self.valid(),
        ensures
            parts@ == self.parts(),
    {
        let from_index = self.from.to_index();
        let to_index = self.to.to_index();
        let mut parts: Vec<FilePartId> = Vec::new();
        let mut i: u32 = from_index;
        while i < to_index
            invariant
                from_index <= i <= to_index,
                from_index == self.from.rank(),
                to_index == self.to.rank(),
                parts@ == self.parts().take(i - from_index),
            decreases to_index - i,
        {
            parts.push(FilePartId::from_index(i));
            assert(parts@ =~= self.parts().take(i + 1 - from_index));
            i = i + 1;
        }
        parts.push(FilePartId::from_index(to_index));
        assert(parts@ =~= self.parts());
        parts
    }

    pub proof fn lemma_wire_len(self)
        ensures
            self.encoded().len() == 8,
    {
        lemma_radix_values();
        crate::encoding::lemma_le_bytes_len(self.from.rank() as nat, 4);
        crate::encoding::lemma_le_bytes_len(self.to.rank() as nat, 4);
    }

    /// A valid range reads back from its eight bytes.
    pub proof fn lemma_wire_roundtrip(self)
        requires
            self.valid(),
        ensures
            Self::from_wire(self.encoded()) == Some(self),
    {
        lemma_radix_values();
        let a = be_bytes(self.from.rank() as nat, 4);
        let b = be_bytes(self.to.rank() as nat, 4);
        lemma_be_value_of_bytes(self.from.rank() as nat, 4);
        lemma_be_value_of_bytes(self.to.rank() as nat, 4);
        assert(self.encoded().take(4) =~= a);
        assert(self.encoded().skip(4) =~= b);
    }

    /// The eight bytes that a range was read from are the bytes of the
    /// range.
    pub proof fn lemma_decoded_inverse(bytes: Seq<u8>)
        requires
            Self::decoded(bytes) is Ok,
        ensures
            Self::decoded(bytes)->Ok_0.1 == 8,
            bytes.len() >= 8,
            Self::decoded(bytes)->Ok_0.0.encoded() == bytes.take(8),
    {
        lemma_radix_values();
        let head = bytes.take(8);
        let a = head.take(4);
        let b = head.skip(4);
        lemma_le_value_bound(a.reverse());
        lemma_le_value_bound(b.reverse());
        crate::encoding::lemma_be_bytes_of_value(a);
        crate::encoding::lemma_be_bytes_of_value(b);
        assert(a + b =~= head);
    }

    /// A range that was read from the wire does not end before it starts,
    /// and both its ends are valid parts.
    pub proof fn lemma_decoded_is_ordered(bytes: Seq<u8>)
        requires
            Self::decoded(bytes) is Ok,
        ensures
            Self::decoded(bytes)->Ok_0.0.from.rank() <= Self::decoded(bytes)->Ok_0.0.to.rank(),
            Self::decoded(bytes)->Ok_0.0.valid(),
    {
        lemma_radix_values();
        let head = bytes.take(8);
        lemma_le_value_bound(head.take(4).reverse());
        lemma_le_value_bound(head.skip(4).reverse());
    }

    /// The parts of a range are exactly the parts it covers, each once and
    /// in rising order.
    pub proof fn lemma_parts_cover(self, p: FilePartId)
        requires
            self.valid(),
            p.valid(),
        ensures
            self.covers(p) <==> self.parts().contains(p),
    {
        if self.covers(p) {
            let k = p.rank() - self.from.rank();
            assert(self.parts()[k] == p);
        }
    }
}

impl View for FilePartIdRangeInclusive {
    type V = FilePartIdRangeInclusive;

    open spec fn view(&self) -> FilePartIdRangeInclusive {
        *self
    }
}

impl BinarySerialize for FilePartIdRangeInclusive {
    open spec fn wire(v: FilePartIdRangeInclusive) -> Seq<u8> {
        v.encoded()
    }

    open spec fn parse(bytes: Seq<u8>) -> Result<(FilePartIdRangeInclusive, nat), DecodeError> {
        FilePartIdRangeInclusive::decoded(bytes)
    }

    fn serialize_to_stream(&self, writer: &mut Vec<u8>) {
        let ghost start = writer@;
        put_be(writer, self.from.to_index() as u64, 4);
        put_be(writer, self.to.to_index() as u64, 4);
        assert(writer@ =~= start + self.encoded());
    }

    fn length_when_serialized(&self) -> (n: u32) {
        proof {
            self.lemma_wire_len();
        }
        8
    }

    /// Refuses a range whose end comes before its start.
    fn deserialize_from_stream(reader: &mut SubstreamReader) -> (r: Result<Self, DecodeError>) {
        if reader.remaining() < 8 {
            return Err(DecodeError::UnexpectedEof);
        }
        let ghost input = reader.unread();
        let from_bytes = reader.read(4);
        let to_bytes = reader.read(4);
        proof {
            assert(from_bytes@ =~= input.take(8).take(4));
            assert(to_bytes@ =~= input.take(8).skip(4));
            assert(input.skip(4).skip(4) =~= input.skip(8));
            lemma_le_value_bound(from_bytes@.reverse());
            lemma_le_value_bound(to_bytes@.reverse());
            lemma_radix_values();
        }
        let from_int = get_be(from_bytes) as u32;
        let to_int = get_be(to_bytes) as u32;
        if from_int > to_int {
            return Err(DecodeError::InvalidData);
        }
        Ok(Self { from: FilePartId::from_index(from_int), to: FilePartId::from_index(to_int) })
    }

    proof fn lemma_parse_inverse(bytes: Seq<u8>) {
        Self::lemma_decoded_inverse(bytes);
    }

    proof fn lemma_roundtrip(&self, rest: Seq<u8>) {
        self.lemma_wire_len();
        self.lemma_wire_roundtrip();
        assert((self.encoded() + rest).take(8) =~= self.encoded());
    }
}

impl ValidityCheck for FilePartIdRangeInclusive {
    /// Both ends are valid parts and the start does not come after the end.
    open spec fn valid(&self) -> bool {
        self.from.valid() && self.to.valid() && self.from.rank() <= self.to.rank()
    }

    fn is_valid(&self) -> (ok: bool) {
        self.from.is_valid() && self.to.is_valid() && self.from.le(&self.to)
    }
}

} // verus!
