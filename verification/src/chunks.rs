//! What the sender tells the receiver: the header that describes a file, and
//! the numbered parts of its body.

use crate::binary_serialize::{read_le, BinarySerialize};
use crate::decimal::string_from_utf8;
use crate::encoding::{i64_of_twos, le_bytes, le_value, put_le, twos, twos_of_i64, untwos};
use crate::encoding::{lemma_le_bytes_len, lemma_le_value_of_bytes, lemma_radix_values, lemma_twos_roundtrip};
use crate::file_id::FileId;
use crate::file_part_id::FilePartId;
use crate::substream::{DecodeError, SubstreamReader};
use crate::validity::ValidityCheck;
use vstd::prelude::*;
use vstd::slice::slice_to_vec;
use vstd::utf8::{encode_utf8, valid_utf8, decode_utf8};

verus! {

/// The most bytes that one body part may hold: 1 MiB.
pub const MAX_PART_LEN: u32 = 1048576;

/// The most bytes that a file name may take on the wire.
pub const MAX_NAME_LEN: usize = 1024;

/// The least number of parts of `part_size` bytes that hold `size` bytes.
pub open spec fn parts_needed(size: nat, part_size: nat) -> nat {
    ((size + part_size - 1) / (part_size as int)) as nat
}

/// One numbered part of a file's body.
#[derive(Debug, PartialEq, Eq)]
pub struct DataChunk {
    pub file_id: FileId,
    pub part: u32,
    pub data: Vec<u8>,
}

pub struct DataChunkView {
    pub file_id: FileId,
    pub part: u32,
    pub data: Seq<u8>,
}

impl View for DataChunk {
    type V = DataChunkView;

    open spec fn view(&self) -> DataChunkView {
        DataChunkView { file_id: self.file_id, part: self.part, data: self.data@ }
    }
}

impl Clone for DataChunk {
    fn clone(&self) -> (copy: Self)
        ensures
            copy@ == self@,
    {
        DataChunk { file_id: self.file_id, part: self.part, data: self.data.clone() }
    }
}

impl ValidityCheck for DataChunk {
    /// At most 1 MiB of data, and a part number that is not the reserved one.
    open spec fn valid(&self) -> bool {
        self.data@.len() <= MAX_PART_LEN && FilePartId::Part(self.part).valid()
    }

    fn is_valid(&self) -> (ok: bool) {
        self.data.len() <= MAX_PART_LEN as usize && FilePartId::Part(self.part).is_valid()
    }
}

impl DataChunkView {
    /// The bytes of the part on the wire.
    pub open spec fn encoded(self) -> Seq<u8> {
        self.file_id.wire() + le_bytes(self.part as nat, 4) + le_bytes(self.data.len(), 4)
            + self.data
    }

    /// What a reader makes of the front of `bytes` as a body part.
    pub open spec fn decoded(bytes: Seq<u8>) -> Result<(DataChunkView, nat), DecodeError> {
        if bytes.len() < 24 {
            Err(DecodeError::UnexpectedEof)
        } else {
            let len = le_value(bytes.subrange(20, 24)) as int;
            if len > MAX_PART_LEN {
                Err(DecodeError::InvalidData)
            } else if bytes.len() < 24 + len {
                Err(DecodeError::UnexpectedEof)
            } else {
                Ok(
                    (
                        DataChunkView {
                            file_id: FileId::from_wire(bytes.take(16)),
                            part: le_value(bytes.subrange(16, 20)) as u32,
                            data: bytes.subrange(24, 24 + len),
                        },
                        (24 + len) as nat,
                    ),
                )
            }
        }
    }
}

impl DataChunkView {
    /// The bytes that a body part was read from are the bytes of the part.
    pub proof fn lemma_decoded_inverse(bytes: Seq<u8>)
        requires
            Self::decoded(bytes) is Ok,
        ensures
            Self::decoded(bytes)->Ok_0.1 <= bytes.len(),
            Self::decoded(bytes)->Ok_0.0.encoded() == bytes.take(Self::decoded(bytes)->Ok_0.1 as int),
    {
        lemma_radix_values();
        let id = bytes.take(16);
        let part = bytes.subrange(16, 20);
        let len_bytes = bytes.subrange(20, 24);
        let len = le_value(len_bytes) as int;
        let data = bytes.subrange(24, 24 + len);
        FileId::lemma_from_wire_roundtrip(id);
        crate::encoding::lemma_le_value_bound(part);
        crate::encoding::lemma_le_value_bound(len_bytes);
        crate::encoding::lemma_le_bytes_of_value(part);
        crate::encoding::lemma_le_bytes_of_value(len_bytes);
        assert(id + part + len_bytes + data =~= bytes.take(24 + len));
    }
}

impl BinarySerialize for DataChunk {
    open spec fn wire(v: DataChunkView) -> Seq<u8> {
        v.encoded()
    }

    open spec fn parse(bytes: Seq<u8>) -> Result<(DataChunkView, nat), DecodeError> {
        DataChunkView::decoded(bytes)
    }

    fn serialize_to_stream(&self, writer: &mut Vec<u8>) {
        let ghost start = writer@;
        self.file_id.serialize_to_stream(writer);
        put_le(writer, self.part as u64, 4);
        put_le(writer, self.data.len() as u64, 4);
        writer.extend_from_slice(self.data.as_slice());
        assert(writer@ =~= start + Self::wire(self@));
    }

    fn length_when_serialized(&self) -> (n: u32) {
        proof {
            self.file_id.lemma_wire_len();
            lemma_le_bytes_len(self.part as nat, 4);
            lemma_le_bytes_len(self.data@.len(), 4);
        }
        16 + 4 + 4 + self.data.len() as u32
    }

    /// Refuses a part that announces more than 1 MiB of data.
    fn deserialize_from_stream(reader: &mut SubstreamReader) -> (r: Result<Self, DecodeError>) {
        let ghost input = reader.unread();
        proof {
            lemma_radix_values();
        }
        let file_id = FileId::deserialize_from_stream(reader)?;
        let part = read_le(reader, 4)?;
        let len = read_le(reader, 4)?;
        proof {
            if input.len() >= 24 {
                assert(input.skip(16).take(4) =~= input.subrange(16, 20));
                assert(input.skip(16).skip(4).take(4) =~= input.subrange(20, 24));
            }
        }
        if len > MAX_PART_LEN as u64 {
            return Err(DecodeError::InvalidData);
        }
        let data = reader.read_exact(len as usize)?;
        proof {
            assert(input.skip(16).skip(4).skip(4).take(len as int) =~= input.subrange(
                24,
                24 + len,
            ));
            assert(input.skip(16).skip(4).skip(4).skip(len as int) =~= input.skip(24 + len));
        }
        Ok(DataChunk { file_id, part: part as u32, data: slice_to_vec(data) })
    }

    proof fn lemma_parse_inverse(bytes: Seq<u8>) {
        DataChunkView::lemma_decoded_inverse(bytes);
    }

    proof fn lemma_roundtrip(&self, rest: Seq<u8>) {
        lemma_radix_values();
        let v = self@;
        let len = v.data.len() as int;
        v.file_id.lemma_wire_len();
        v.file_id.lemma_wire_roundtrip();
        lemma_le_bytes_len(v.part as nat, 4);
        lemma_le_bytes_len(len as nat, 4);
        lemma_le_value_of_bytes(v.part as nat, 4);
        lemma_le_value_of_bytes(len as nat, 4);
        let all = Self::wire(v) + rest;
        assert(all.take(16) =~= v.file_id.wire());
        assert(all.subrange(16, 20) =~= le_bytes(v.part as nat, 4));
        assert(all.subrange(20, 24) =~= le_bytes(len as nat, 4));
        assert(all.subrange(24, 24 + len) =~= v.data);
    }
}

/// The description of a file: its name, date, size, and how it is cut into
/// parts.
#[derive(Debug, PartialEq, Eq)]
pub struct HeaderChunk {
    pub id: FileId,
    pub name: String,
    /// Nanoseconds since the Unix epoch.
    pub date: i64,
    pub part_count: u32,
    pub size: u64,
    pub file_part_size: u32,
}

pub struct HeaderChunkView {
    pub id: FileId,
    pub name: Seq<char>,
    pub date: i64,
    pub part_count: u32,
    pub size: u64,
    pub file_part_size: u32,
}

impl View for HeaderChunk {
    type V = HeaderChunkView;

    open spec fn view(&self) -> HeaderChunkView {
        HeaderChunkView {
            id: self.id,
            name: self.name@,
            date: self.date,
            part_count: self.part_count,
            size: self.size,
            file_part_size: self.file_part_size,
        }
    }
}

impl Clone for HeaderChunk {
    fn clone(&self) -> (copy: Self)
        ensures
            copy@ == self@,
    {
        HeaderChunk {
            id: self.id,
            name: self.name.clone(),
            date: self.date,
            part_count: self.part_count,
            size: self.size,
            file_part_size: self.file_part_size,
        }
    }
}

impl HeaderChunkView {
    /// The name fits the wire, the parts are not empty, and there are as
    /// many of them as the size takes.
    pub open spec fn valid(self) -> bool {
        &&& encode_utf8(self.name).len() <= MAX_NAME_LEN
        &&& self.file_part_size > 0
        &&& self.part_count == parts_needed(self.size as nat, self.file_part_size as nat)
    }

    /// The bytes that follow the name on the wire.
    pub open spec fn tail_wire(self) -> Seq<u8> {
        le_bytes(twos(self.date as int, 8), 8) + le_bytes(self.part_count as nat, 4) + le_bytes(
            self.size as nat,
            8,
        ) + le_bytes(self.file_part_size as nat, 4)
    }

    /// Where in the file body part `part` begins.
    pub open spec fn part_start(self, part: u32) -> nat {
        part as nat * self.file_part_size as nat
    }

    /// The number of bytes that body part `part` holds: a full part, but for
    /// the last one, which holds what is left.
    pub open spec fn part_len(self, part: u32) -> nat {
        let start = self.part_start(part);
        if start + self.file_part_size <= self.size {
            self.file_part_size as nat
        } else if start <= self.size {
            (self.size - start) as nat
        } else {
            0
        }
    }

    /// Where in the file body part `part` ends.
    pub open spec fn part_end(self, part: u32) -> nat {
        self.part_start(part) + self.part_len(part)
    }

    /// Where the body parts of a valid header lie: each begins within the
    /// file, holds between one byte and a full part, and ends where the next
    /// begins or, for the last, where the file ends.
    pub proof fn lemma_part_bounds(self, part: u32)
        requires
            self.valid(),
            part < self.part_count,
        ensures
            self.part_start(part) < self.size,
            1 <= self.part_len(part) <= self.file_part_size,
            self.part_end(part) <= self.size,
            self.part_end(part) <= (part + 1) * self.file_part_size,
            part + 1 < self.part_count ==> self.part_end(part) == self.part_start((part + 1) as u32),
            part + 1 == self.part_count ==> self.part_end(part) == self.size,
    {
        let ps = self.file_part_size as nat;
        let size = self.size as nat;
        let count = self.part_count as nat;
        lemma_parts_needed(size, ps);
        assert(part as nat * ps <= (count - 1) * ps) by (nonlinear_arith)
            requires
                part as nat <= count - 1,
        ;
        assert((part + 1) * ps == part as nat * ps + ps) by (nonlinear_arith);
        if part + 1 < count {
            assert((part + 1) * ps <= (count - 1) * ps) by (nonlinear_arith)
                requires
                    part + 1 <= count - 1,
            ;
        } else {
            assert(count * ps == (count - 1) * ps + ps) by (nonlinear_arith);
        }
    }

    /// Body parts lie one behind the other.
    pub proof fn lemma_parts_in_order(self, a: u32, b: u32)
        requires
            self.valid(),
            a < b < self.part_count,
        ensures
            self.part_end(a) <= self.part_start(b),
    {
        let ps = self.file_part_size as nat;
        self.lemma_part_bounds(a);
        assert((a + 1) * ps <= b as nat * ps) by (nonlinear_arith)
            requires
                a + 1 <= b,
        ;
    }
}

impl ValidityCheck for HeaderChunk {
    open spec fn valid(&self) -> bool {
        self@.valid()
    }

    fn is_valid(&self) -> (ok: bool) {
        if self.name.as_str().as_bytes().len() > MAX_NAME_LEN || self.file_part_size == 0 {
            return false;
        }
        let part_size = self.file_part_size as u64;
        let full = self.size / part_size;
        proof {
            lemma_parts_needed(self.size as nat, part_size as nat);
            if part_size >= 2 {
                assert(full * 2 <= self.size) by (nonlinear_arith)
                    requires
                        full == self.size / part_size,
                        part_size >= 2,
                ;
            }
        }
        let needed = if self.size % part_size == 0 {
            full
        } else {
            full + 1
        };
        needed == self.part_count as u64
    }
}

/// `parts_needed` is the quotient, and one more where a remainder is left.
pub proof fn lemma_parts_needed(size: nat, part_size: nat)
    requires
        part_size > 0,
    ensures
        parts_needed(size, part_size) == (if size % part_size == 0 {
            size / part_size
        } else {
            size / part_size + 1
        }),
        parts_needed(size, part_size) * part_size >= size,
        size > 0 ==> (parts_needed(size, part_size) - 1) * part_size < size,
        size == 0 ==> parts_needed(size, part_size) == 0,
{
    let q = size / part_size;
    let r = size % part_size;
    assert(size == q * part_size + r) by {
        vstd::arithmetic::div_mod::lemma_fundamental_div_mod(size as int, part_size as int);
        assert(q * part_size == part_size * q) by (nonlinear_arith);
    }
    let n = (size + part_size - 1) as int;
    if r == 0 {
        assert(n == q * part_size + (part_size - 1));
        vstd::arithmetic::div_mod::lemma_fundamental_div_mod_converse(
            n,
            part_size as int,
            q as int,
            (part_size - 1) as int,
        );
        assert((q - 1) * part_size < q * part_size) by (nonlinear_arith)
            requires
                part_size > 0,
        ;
    } else {
        assert(n == (q + 1) * part_size + (r - 1)) by (nonlinear_arith)
            requires
                n == size + part_size - 1,
                size == q * part_size + r,
        ;
        vstd::arithmetic::div_mod::lemma_fundamental_div_mod_converse(
            n,
            part_size as int,
            (q + 1) as int,
            (r - 1) as int,
        );
        assert((q + 1) * part_size >= size) by (nonlinear_arith)
            requires
                size == q * part_size + r,
                r < part_size,
        ;
    }
}

impl HeaderChunkView {
    /// The bytes of the header on the wire.
    pub open spec fn encoded(self) -> Seq<u8> {
        self.id.wire() + le_bytes(encode_utf8(self.name).len(), 2) + encode_utf8(self.name)
            + self.tail_wire()
    }

    /// What a reader makes of the front of `bytes` as a header.
    pub open spec fn decoded(bytes: Seq<u8>) -> Result<(HeaderChunkView, nat), DecodeError> {
        if bytes.len() < 18 {
            Err(DecodeError::UnexpectedEof)
        } else {
            let name_len = le_value(bytes.subrange(16, 18));
            let end = 18 + name_len as int;
            if name_len > MAX_NAME_LEN {
                Err(DecodeError::InvalidData)
            } else if bytes.len() < end {
                Err(DecodeError::UnexpectedEof)
            } else if !valid_utf8(bytes.subrange(18, end)) {
                Err(DecodeError::InvalidData)
            } else if bytes.len() < end + 24 {
                Err(DecodeError::UnexpectedEof)
            } else {
                Ok(
                    (
                        HeaderChunkView {
                            id: FileId::from_wire(bytes.take(16)),
                            name: decode_utf8(bytes.subrange(18, end)),
                            date: untwos(le_value(bytes.subrange(end, end + 8)), 8) as i64,
                            part_count: le_value(bytes.subrange(end + 8, end + 12)) as u32,
                            size: le_value(bytes.subrange(end + 12, end + 20)) as u64,
                            file_part_size: le_value(bytes.subrange(end + 20, end + 24)) as u32,
                        },
                        (end + 24) as nat,
                    ),
                )
            }
        }
    }
}

impl HeaderChunkView {
    /// The bytes that a header was read from are the bytes of the header.
    pub proof fn lemma_decoded_inverse(bytes: Seq<u8>)
        requires
            Self::decoded(bytes) is Ok,
        ensures
            Self::decoded(bytes)->Ok_0.1 <= bytes.len(),
            Self::decoded(bytes)->Ok_0.0.encoded() == bytes.take(Self::decoded(bytes)->Ok_0.1 as int),
    {
        lemma_radix_values();
        let id = bytes.take(16);
        let name_len_bytes = bytes.subrange(16, 18);
        let name_len = le_value(name_len_bytes);
        let end = 18 + name_len as int;
        let name = bytes.subrange(18, end);
        let date = bytes.subrange(end, end + 8);
        let count = bytes.subrange(end + 8, end + 12);
        let size = bytes.subrange(end + 12, end + 20);
        let part_size = bytes.subrange(end + 20, end + 24);
        FileId::lemma_from_wire_roundtrip(id);
        vstd::utf8::decode_utf8_encode_utf8(name);
        crate::encoding::lemma_le_value_bound(name_len_bytes);
        crate::encoding::lemma_le_value_bound(date);
        crate::encoding::lemma_le_value_bound(count);
        crate::encoding::lemma_le_value_bound(size);
        crate::encoding::lemma_le_value_bound(part_size);
        crate::encoding::lemma_le_bytes_of_value(name_len_bytes);
        crate::encoding::lemma_le_bytes_of_value(date);
        crate::encoding::lemma_le_bytes_of_value(count);
        crate::encoding::lemma_le_bytes_of_value(size);
        crate::encoding::lemma_le_bytes_of_value(part_size);
        crate::encoding::lemma_untwos_roundtrip(le_value(date), 8);
        let v = Self::decoded(bytes)->Ok_0.0;
        assert(v.tail_wire() =~= date + count + size + part_size);
        assert(id + name_len_bytes + name + (date + count + size + part_size) =~= bytes.take(
            end + 24,
        ));
    }
}

impl BinarySerialize for HeaderChunk {
    open spec fn wire(v: HeaderChunkView) -> Seq<u8> {
        v.encoded()
    }

    open spec fn parse(bytes: Seq<u8>) -> Result<(HeaderChunkView, nat), DecodeError> {
        HeaderChunkView::decoded(bytes)
    }

    fn serialize_to_stream(&self, writer: &mut Vec<u8>) {
        let ghost start = writer@;
        self.id.serialize_to_stream(writer);
        let name_bytes = self.name.as_str().as_bytes();
        put_le(writer, name_bytes.len() as u64, 2);
        writer.extend_from_slice(name_bytes);
        put_le(writer, twos_of_i64(self.date), 8);
        put_le(writer, self.part_count as u64, 4);
        put_le(writer, self.size, 8);
        put_le(writer, self.file_part_size as u64, 4);
        assert(writer@ =~= start + Self::wire(self@));
    }

    fn length_when_serialized(&self) -> (n: u32) {
        proof {
            let v = self@;
            v.id.lemma_wire_len();
            lemma_le_bytes_len(encode_utf8(v.name).len(), 2);
            lemma_le_bytes_len(twos(v.date as int, 8), 8);
            lemma_le_bytes_len(v.part_count as nat, 4);
            lemma_le_bytes_len(v.size as nat, 8);
            lemma_le_bytes_len(v.file_part_size as nat, 4);
        }
        16 + 2 + self.name.as_str().len() as u32 + 8 + 4 + 8 + 4
    }

    /// Refuses a name of more than 1024 bytes and one that is not UTF-8.
    fn deserialize_from_stream(reader: &mut SubstreamReader) -> (r: Result<Self, DecodeError>) {
        let ghost input = reader.unread();
        proof {
            lemma_radix_values();
        }
        let id = FileId::deserialize_from_stream(reader)?;
        let name_len = read_le(reader, 2)?;
        proof {
            if input.len() >= 18 {
                assert(input.skip(16).take(2) =~= input.subrange(16, 18));
            }
        }
        if name_len > MAX_NAME_LEN as u64 {
            return Err(DecodeError::InvalidData);
        }
        let ghost end = 18 + name_len as int;
        let name_bytes = reader.read_exact(name_len as usize)?;
        proof {
            assert(input.skip(16).skip(2).take(name_len as int) =~= input.subrange(18, end));
        }
        let name = match string_from_utf8(slice_to_vec(name_bytes)) {
            Some(name) => name,
            None => {
                return Err(DecodeError::InvalidData);
            },
        };
        proof {
            vstd::utf8::encode_utf8_decode_utf8(name@);
        }
        let ghost rest = reader.unread();
        assert(rest =~= input.skip(end));
        let date = read_le(reader, 8)?;
        let part_count = read_le(reader, 4)?;
        let size = read_le(reader, 8)?;
        let file_part_size = read_le(reader, 4)?;
        proof {
            assert(rest.take(8) =~= input.subrange(end, end + 8));
            assert(rest.skip(8).take(4) =~= input.subrange(end + 8, end + 12));
            assert(rest.skip(8).skip(4).take(8) =~= input.subrange(end + 12, end + 20));
            assert(rest.skip(8).skip(4).skip(8).take(4) =~= input.subrange(end + 20, end + 24));
            assert(rest.skip(8).skip(4).skip(8).skip(4) =~= input.skip(end + 24));
        }
        Ok(
            HeaderChunk {
                id,
                name,
                date: i64_of_twos(date),
                part_count: part_count as u32,
                size,
                file_part_size: file_part_size as u32,
            },
        )
    }

    proof fn lemma_parse_inverse(bytes: Seq<u8>) {
        HeaderChunkView::lemma_decoded_inverse(bytes);
    }

    proof fn lemma_roundtrip(&self, rest: Seq<u8>) {
        lemma_radix_values();
        let v = self@;
        let name = encode_utf8(v.name);
        let end = 18 + name.len() as int;
        v.id.lemma_wire_len();
        v.id.lemma_wire_roundtrip();
        vstd::utf8::encode_utf8_valid_utf8(v.name);
        vstd::utf8::encode_utf8_decode_utf8(v.name);
        let date = twos(v.date as int, 8);
        lemma_twos_roundtrip(v.date as int, 8);
        lemma_le_bytes_len(name.len(), 2);
        lemma_le_bytes_len(date, 8);
        lemma_le_bytes_len(v.part_count as nat, 4);
        lemma_le_bytes_len(v.size as nat, 8);
        lemma_le_bytes_len(v.file_part_size as nat, 4);
        lemma_le_value_of_bytes(name.len(), 2);
        lemma_le_value_of_bytes(date, 8);
        lemma_le_value_of_bytes(v.part_count as nat, 4);
        lemma_le_value_of_bytes(v.size as nat, 8);
        lemma_le_value_of_bytes(v.file_part_size as nat, 4);
        let all = Self::wire(v) + rest;
        assert(all.take(16) =~= v.id.wire());
        assert(all.subrange(16, 18) =~= le_bytes(name.len(), 2));
        assert(all.subrange(18, end) =~= name);
        assert(all.subrange(end, end + 8) =~= le_bytes(date, 8));
        assert(all.subrange(end + 8, end + 12) =~= le_bytes(v.part_count as nat, 4));
        assert(all.subrange(end + 12, end + 20) =~= le_bytes(v.size as nat, 8));
        assert(all.subrange(end + 20, end + 24) =~= le_bytes(v.file_part_size as nat, 4));
    }
}

/// The header of a file that is admitted with the given identifier, name,
/// size and date, cut into parts of `file_part_size` bytes. There is none
/// where the name is too long for the wire, the part size is zero, or the
/// file has more parts than can be numbered.
pub fn generate_file_header(
    id: FileId,
    name: String,
    size: u64,
    date: i64,
    file_part_size: u32,
) -> (header: Option<HeaderChunk>)
    ensures
        match header {
            Some(h) => {
                &&& h.valid()
                &&& h.id == id
                &&& h.name@ == name@
                &&& h.date == date
                &&& h.size == size
                &&& h.file_part_size == file_part_size
                &&& h.part_count == parts_needed(size as nat, file_part_size as nat)
            },
            None => encode_utf8(name@).len() > MAX_NAME_LEN || file_part_size == 0 || parts_needed(
                size as nat,
                file_part_size as nat,
            ) > u32::MAX,
        },
{
    if name.as_str().as_bytes().len() > MAX_NAME_LEN || file_part_size == 0 {
        return None;
    }
    let part_size = file_part_size as u64;
    let full = size / part_size;
    proof {
        lemma_parts_needed(size as nat, part_size as nat);
        if part_size >= 2 {
            assert(full * 2 <= size) by (nonlinear_arith)
                requires
                    full == size / part_size,
                    part_size >= 2,
            ;
        }
    }
    let part_count = if size % part_size == 0 {
        full
    } else {
        full + 1
    };
    if part_count > u32::MAX as u64 {
        return None;
    }
    Some(HeaderChunk { id, name, date, part_count: part_count as u32, size, file_part_size })
}

/// A header or a body part, as the sender emits them.
#[derive(Debug, PartialEq, Eq)]
pub enum Chunk {
    Data(DataChunk),
    Header(HeaderChunk),
}

pub enum ChunkView {
    Data(DataChunkView),
    Header(HeaderChunkView),
}

impl View for Chunk {
    type V = ChunkView;

    open spec fn view(&self) -> ChunkView {
        match self {
            Chunk::Data(c) => ChunkView::Data(c@),
            Chunk::Header(c) => ChunkView::Header(c@),
        }
    }
}

impl Clone for Chunk {
    fn clone(&self) -> (copy: Self)
        ensures
            copy@ == self@,
    {
        match self {
            Chunk::Data(c) => Chunk::Data(c.clone()),
            Chunk::Header(c) => Chunk::Header(c.clone()),
        }
    }
}

impl ChunkView {
    pub open spec fn file_id(self) -> FileId {
        match self {
            ChunkView::Data(c) => c.file_id,
            ChunkView::Header(c) => c.id,
        }
    }

    pub open spec fn part_index(self) -> FilePartId {
        match self {
            ChunkView::Data(c) => FilePartId::Part(c.part),
            ChunkView::Header(_) => FilePartId::Header,
        }
    }
}

impl Chunk {
    /// The file that the chunk belongs to.
    pub fn file_id(&self) -> (id: FileId)
        ensures
            id == self@.file_id(),
    {
        match self {
            Chunk::Data(data_chunk) => data_chunk.file_id,
            Chunk::Header(header_chunk) => header_chunk.id,
        }
    }

    /// Which part of its file the chunk is.
    pub fn part_index(&self) -> (part: FilePartId)
        ensures
            part == self@.part_index(),
    {
        match self {
            Chunk::Data(data_chunk) => FilePartId::Part(data_chunk.part),
            Chunk::Header(_) => FilePartId::Header,
        }
    }
}

impl ValidityCheck for Chunk {
    open spec fn valid(&self) -> bool {
        match self {
            Chunk::Data(c) => c.valid(),
            Chunk::Header(c) => c.valid(),
        }
    }

    fn is_valid(&self) -> (ok: bool) {
        match self {
            Chunk::Data(c) => c.is_valid(),
            Chunk::Header(c) => c.is_valid(),
        }
    }
}

} // verus!
