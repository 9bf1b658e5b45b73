//! Shreds: the packets that a block is cut into, and their wire format.
//!
//! A shred starts with a common header (a 64-byte signature, then the kind, the slot, the
//! index, the version and the erasure set index, little-endian), followed by a data header or
//! a coding header, followed by its data.

use vstd::prelude::*;
use vstd::bytes::{
    lemma_auto_spec_u16_to_from_le_bytes, lemma_auto_spec_u32_to_from_le_bytes,
    lemma_auto_spec_u64_to_from_le_bytes, spec_u16_from_le_bytes, spec_u16_to_le_bytes,
    spec_u32_from_le_bytes, spec_u32_to_le_bytes, spec_u64_from_le_bytes, spec_u64_to_le_bytes,
    u16_from_le_bytes, u16_to_le_bytes, u32_from_le_bytes, u32_to_le_bytes, u64_from_le_bytes,
    u64_to_le_bytes,
};
use vstd::slice::slice_subrange;
use crate::column::Duplicate;
use crate::meta::{ErasureConfig, ErasureMeta};
use crate::types::Slot;

verus! {

/// The length of a shred on the wire.
pub const SHRED_PAYLOAD_SIZE: usize = 1228;

/// Where the kind of a shred stands.
pub const OFFSET_OF_SHRED_TYPE: usize = 64;

/// The length of the common header.
pub const SIZE_OF_COMMON_SHRED_HEADER: usize = 83;

/// Where the data of a data shred starts.
pub const SHRED_DATA_OFFSET: usize = 88;

/// The most data that one data shred carries.
pub const SIZE_OF_DATA_SHRED_PAYLOAD: usize = 1051;

/// The most data shreds that one erasure set has.
pub const MAX_DATA_SHREDS_PER_FEC_BLOCK: u32 = 32;

/// The byte that marks a data shred.
pub const DATA_SHRED: u8 = 0xa5;

/// The byte that marks a coding shred.
pub const CODING_SHRED: u8 = 0x5a;

/// The part of the flags that holds the tick.
pub const SHRED_TICK_REFERENCE_MASK: u8 = 0x3f;

/// The flag of a shred that ends a run of entries.
pub const DATA_COMPLETE_SHRED: u8 = 0x40;

/// The flag of the last shred of a slot.
pub const LAST_SHRED_IN_SLOT: u8 = 0x80;

/// The two kinds of shreds.
#[derive(Clone, Copy, PartialEq, Eq, Structural, Debug)]
pub enum ShredType {
    Data,
    Code,
}

/// The header that every shred has. The signature stays in the payload.
#[derive(Clone, Copy, PartialEq, Eq, Structural, Debug)]
pub struct ShredCommonHeader {
    pub shred_type: ShredType,
    pub slot: Slot,
    pub index: u32,
    pub version: u16,
    pub fec_set_index: u32,
}

/// The header of a data shred.
#[derive(Clone, Copy, PartialEq, Eq, Structural, Debug)]
pub struct DataShredHeader {
    /// How far below the slot its parent is.
    pub parent_offset: u16,
    pub flags: u8,
    /// The length of the headers and the data.
    pub size: u16,
}

/// The header of a coding shred.
#[derive(Clone, Copy, PartialEq, Eq, Structural, Debug)]
pub struct CodingShredHeader {
    pub num_data_shreds: u16,
    pub num_coding_shreds: u16,
    /// The position of this shred among the coding shreds of its set.
    pub position: u16,
}

/// A shred: its headers and its bytes.
#[derive(Clone, Debug, PartialEq, Eq)]
pub struct Shred {
    pub common_header: ShredCommonHeader,
    pub data_header: DataShredHeader,
    pub coding_header: CodingShredHeader,
    pub payload: Vec<u8>,
}

/// The model of a `Shred`.
#[verifier::ext_equal]
pub struct ShredView {
    pub common_header: ShredCommonHeader,
    pub data_header: DataShredHeader,
    pub coding_header: CodingShredHeader,
    pub payload: Seq<u8>,
}

impl View for Shred {
    type V = ShredView;

    open spec fn view(&self) -> ShredView {
        ShredView {
            common_header: self.common_header,
            data_header: self.data_header,
            coding_header: self.coding_header,
            payload: self.payload@,
        }
    }
}

pub open spec fn no_data_header() -> DataShredHeader {
    DataShredHeader { parent_offset: 0, flags: 0, size: 0 }
}

pub open spec fn no_coding_header() -> CodingShredHeader {
    CodingShredHeader { num_data_shreds: 0, num_coding_shreds: 0, position: 0 }
}

/// `n` zero bytes.
pub open spec fn zeros(n: int) -> Seq<u8> {
    Seq::new(n as nat, |i: int| 0u8)
}

/// `bytes` cut or filled with zeros to the length of a shred.
pub open spec fn padded(bytes: Seq<u8>) -> Seq<u8> {
    Seq::new(
        SHRED_PAYLOAD_SIZE as nat,
        |i: int|
            if i < bytes.len() {
                bytes[i]
            } else {
                0u8
            },
    )
}

pub open spec fn u16_at(bytes: Seq<u8>, at: int) -> u16 {
    spec_u16_from_le_bytes(bytes.subrange(at, at + 2))
}

pub open spec fn u32_at(bytes: Seq<u8>, at: int) -> u32 {
    spec_u32_from_le_bytes(bytes.subrange(at, at + 4))
}

pub open spec fn u64_at(bytes: Seq<u8>, at: int) -> u64 {
    spec_u64_from_le_bytes(bytes.subrange(at, at + 8))
}

/// The common header that starts `bytes`.
pub open spec fn common_header_of(bytes: Seq<u8>) -> Option<ShredCommonHeader> {
    if bytes.len() < SIZE_OF_COMMON_SHRED_HEADER || (bytes[64] != DATA_SHRED && bytes[64]
        != CODING_SHRED) {
        None
    } else {
        Some(
            ShredCommonHeader {
                shred_type: if bytes[64] == DATA_SHRED {
                    ShredType::Data
                } else {
                    ShredType::Code
                },
                slot: u64_at(bytes, 65),
                index: u32_at(bytes, 73),
                version: u16_at(bytes, 77),
                fec_set_index: u32_at(bytes, 79),
            },
        )
    }
}

/// The shred that `bytes` hold, if they hold one.
pub open spec fn parse_shred(bytes: Seq<u8>) -> Option<ShredView> {
    match common_header_of(bytes) {
        None => None,
        Some(common_header) => {
            let payload = padded(bytes);
            match common_header.shred_type {
                ShredType::Data => {
                    let data_header = DataShredHeader {
                        parent_offset: u16_at(payload, 83),
                        flags: payload[85],
                        size: u16_at(payload, 86),
                    };
                    if data_header.parent_offset > common_header.slot {
                        None
                    } else {
                        Some(
                            ShredView {
                                common_header,
                                data_header,
                                coding_header: no_coding_header(),
                                payload,
                            },
                        )
                    }
                },
                ShredType::Code => Some(
                    ShredView {
                        common_header,
                        data_header: no_data_header(),
                        coding_header: CodingShredHeader {
                            num_data_shreds: u16_at(payload, 83),
                            num_coding_shreds: u16_at(payload, 85),
                            position: u16_at(payload, 87),
                        },
                        payload,
                    },
                ),
            }
        },
    }
}

/// The bytes of a common header, after the signature.
pub open spec fn common_header_bytes(h: ShredCommonHeader) -> Seq<u8> {
    seq![
        match h.shred_type {
            ShredType::Data => DATA_SHRED,
            ShredType::Code => CODING_SHRED,
        },
    ] + spec_u64_to_le_bytes(h.slot) + spec_u32_to_le_bytes(h.index) + spec_u16_to_le_bytes(
        h.version,
    ) + spec_u32_to_le_bytes(h.fec_set_index)
}

/// The bytes of a data header.
pub open spec fn data_header_bytes(h: DataShredHeader) -> Seq<u8> {
    spec_u16_to_le_bytes(h.parent_offset) + seq![h.flags] + spec_u16_to_le_bytes(h.size)
}

/// The bytes of a coding header.
pub open spec fn coding_header_bytes(h: CodingShredHeader) -> Seq<u8> {
    spec_u16_to_le_bytes(h.num_data_shreds) + spec_u16_to_le_bytes(h.num_coding_shreds)
        + spec_u16_to_le_bytes(h.position)
}

/// The smaller of two numbers.
pub open spec fn min_int(a: int, b: int) -> int {
    if a < b {
        a
    } else {
        b
    }
}

impl ShredView {
    pub open spec fn slot(self) -> Slot {
        self.common_header.slot
    }

    pub open spec fn index(self) -> u32 {
        self.common_header.index
    }

    pub open spec fn fec_set_index(self) -> u32 {
        self.common_header.fec_set_index
    }

    pub open spec fn is_data(self) -> bool {
        self.common_header.shred_type == ShredType::Data
    }

    pub open spec fn is_code(self) -> bool {
        self.common_header.shred_type == ShredType::Code
    }

    /// The shred is the last one of its slot.
    pub open spec fn last_in_slot(self) -> bool {
        self.is_data() && self.data_header.flags & LAST_SHRED_IN_SLOT == LAST_SHRED_IN_SLOT
    }

    /// The shred ends a run of entries.
    pub open spec fn data_complete(self) -> bool {
        self.is_data() && self.data_header.flags & DATA_COMPLETE_SHRED == DATA_COMPLETE_SHRED
    }

    /// The tick in which the shred was made.
    pub open spec fn reference_tick(self) -> u8 {
        if self.is_data() {
            self.data_header.flags & SHRED_TICK_REFERENCE_MASK
        } else {
            SHRED_TICK_REFERENCE_MASK
        }
    }

    /// The parent of the shred's slot. A slot other than 0 is not its own parent.
    pub open spec fn parent(self) -> Option<Slot> {
        if self.is_code() || self.data_header.parent_offset > self.slot() || (
        self.data_header.parent_offset == 0 && self.slot() != 0) {
            None
        } else {
            Some((self.slot() - self.data_header.parent_offset) as u64)
        }
    }

    /// The index of the first coding shred of the set of a coding shred.
    pub open spec fn first_coding_index(self) -> Option<u32> {
        if self.is_data() || self.index() < self.coding_header.position {
            None
        } else {
            Some((self.index() - self.coding_header.position) as u32)
        }
    }

    /// The shred's headers are consistent.
    pub open spec fn sanitize(self) -> bool {
        if self.is_data() {
            &&& self.fec_set_index() <= self.index()
            &&& self.parent() is Some
            &&& self.data_header.size <= self.payload.len()
        } else {
            let h = self.coding_header;
            &&& h.num_coding_shreds <= 8 * MAX_DATA_SHREDS_PER_FEC_BLOCK
            &&& h.num_data_shreds > 0
            &&& h.position < h.num_coding_shreds
            &&& h.position <= self.index()
            &&& self.fec_set_index() + h.num_data_shreds - 1 <= u32::MAX
            &&& self.fec_set_index() + h.num_coding_shreds - 1 <= u32::MAX
            &&& self.index() - h.position + h.num_coding_shreds - 1 <= u32::MAX
        }
    }

    /// The entries' bytes that a data shred carries.
    pub open spec fn data(self) -> Seq<u8> {
        let size = min_int(self.payload.len() as int, self.data_header.size as int);
        self.payload.subrange(min_int(SHRED_DATA_OFFSET as int, size), size)
    }

    /// What is kept of a data shred: the bytes within its size.
    pub open spec fn stored(self) -> Seq<u8> {
        self.payload.take(self.data_header.size as int)
    }

    /// The metadata of the erasure set of a coding shred.
    pub open spec fn erasure_meta(self) -> Option<ErasureMeta> {
        match self.first_coding_index() {
            None => None,
            Some(first) => Some(
                ErasureMeta {
                    set_index: self.fec_set_index() as u64,
                    first_coding_index: first as u64,
                    config: ErasureConfig {
                        num_data: self.coding_header.num_data_shreds as u64,
                        num_coding: self.coding_header.num_coding_shreds as u64,
                    },
                },
            ),
        }
    }

    /// A coding shred agrees with what is known of its erasure set. The first coding index is
    /// not looked at.
    pub open spec fn agrees_with(self, meta: ErasureMeta) -> bool {
        match self.erasure_meta() {
            None => false,
            Some(own) => own.set_index == meta.set_index && own.config == meta.config,
        }
    }
}

/// `bytes` cut or filled with zeros to the length of a shred.
pub fn pad_payload(bytes: &Vec<u8>) -> (result: Vec<u8>)
    ensures
        result@ == padded(bytes@),
{
    let mut result: Vec<u8> = Vec::with_capacity(SHRED_PAYLOAD_SIZE);
    let mut i: usize = 0;
    while i < SHRED_PAYLOAD_SIZE
        invariant
            0 <= i <= SHRED_PAYLOAD_SIZE,
            result@ == padded(bytes@).take(i as int),
        decreases SHRED_PAYLOAD_SIZE - i,
    {
        let b: u8 = if i < bytes.len() {
            bytes[i]
        } else {
            0
        };
        result.push(b);
        assert(result@ =~= padded(bytes@).take(i + 1));
        i += 1;
    }
    assert(result@ =~= padded(bytes@));
    result
}

fn read_u16(bytes: &Vec<u8>, at: usize) -> (result: u16)
    requires
        at + 2 <= bytes@.len(),
    ensures
        result == u16_at(bytes@, at as int),
{
    let _n: usize = bytes.len();
    u16_from_le_bytes(slice_subrange(bytes.as_slice(), at, at + 2))
}

fn read_u32(bytes: &Vec<u8>, at: usize) -> (result: u32)
    requires
        at + 4 <= bytes@.len(),
    ensures
        result == u32_at(bytes@, at as int),
{
    let _n: usize = bytes.len();
    u32_from_le_bytes(slice_subrange(bytes.as_slice(), at, at + 4))
}

fn read_u64(bytes: &Vec<u8>, at: usize) -> (result: u64)
    requires
        at + 8 <= bytes@.len(),
    ensures
        result == u64_at(bytes@, at as int),
{
    let _n: usize = bytes.len();
    u64_from_le_bytes(slice_subrange(bytes.as_slice(), at, at + 8))
}

fn append_bytes(to: &mut Vec<u8>, from: &Vec<u8>)
    ensures
        final(to)@ == old(to)@ + from@,
{
    to.extend_from_slice(from.as_slice());
    assert(to@ =~= old(to)@ + from@);
}

/// The bytes of a common header, after the signature.
fn write_common_header(h: &ShredCommonHeader) -> (result: Vec<u8>)
    ensures
        result@ == common_header_bytes(*h),
        result@.len() == 19,
{
    let mut result: Vec<u8> = Vec::new();
    let kind: u8 = match h.shred_type {
        ShredType::Data => DATA_SHRED,
        ShredType::Code => CODING_SHRED,
    };
    result.push(kind);
    append_bytes(&mut result, &u64_to_le_bytes(h.slot));
    append_bytes(&mut result, &u32_to_le_bytes(h.index));
    append_bytes(&mut result, &u16_to_le_bytes(h.version));
    append_bytes(&mut result, &u32_to_le_bytes(h.fec_set_index));
    assert(result@ =~= common_header_bytes(*h));
    result
}

/// The payload of a new data shred: a signature of zeros, the headers, the data, and zeros.
pub open spec fn data_payload(
    common: ShredCommonHeader,
    header: DataShredHeader,
    data: Seq<u8>,
) -> Seq<u8> {
    padded(zeros(64) + common_header_bytes(common) + data_header_bytes(header) + data)
}

/// The payload of a new coding shred without parity data.
pub open spec fn coding_payload(common: ShredCommonHeader, header: CodingShredHeader) -> Seq<u8> {
    padded(zeros(64) + common_header_bytes(common) + coding_header_bytes(header))
}

/// The flags of a new data shred.
pub open spec fn data_flags(tick: u8, is_last_data: bool, is_last_in_slot: bool) -> u8 {
    let ticks = if tick < SHRED_TICK_REFERENCE_MASK {
        tick
    } else {
        SHRED_TICK_REFERENCE_MASK
    };
    let complete = if is_last_data {
        ticks | DATA_COMPLETE_SHRED
    } else {
        ticks
    };
    if is_last_in_slot {
        complete | LAST_SHRED_IN_SLOT
    } else {
        complete
    }
}

/// A new data shred.
pub open spec fn new_data_shred(
    slot: Slot,
    index: u32,
    parent_offset: u16,
    data: Seq<u8>,
    flags: u8,
    version: u16,
    fec_set_index: u32,
) -> ShredView {
    let common_header = ShredCommonHeader {
        shred_type: ShredType::Data,
        slot,
        index,
        version,
        fec_set_index,
    };
    let data_header = DataShredHeader {
        parent_offset,
        flags,
        size: (data.len() + SHRED_DATA_OFFSET) as u16,
    };
    ShredView {
        common_header,
        data_header,
        coding_header: no_coding_header(),
        payload: data_payload(common_header, data_header, data),
    }
}

fn zero_bytes(n: usize) -> (result: Vec<u8>)
    ensures
        result@ == zeros(n as int),
{
    let mut result: Vec<u8> = Vec::with_capacity(n);
    let mut i: usize = 0;
    while i < n
        invariant
            0 <= i <= n,
            result@ == zeros(i as int),
        decreases n - i,
    {
        result.push(0);
        assert(result@ =~= zeros(i + 1));
        i += 1;
    }
    result
}

impl Shred {
    /// A data shred that carries `data`.
    pub fn new_from_data(
        slot: Slot,
        index: u32,
        parent_offset: u16,
        data: &Vec<u8>,
        is_last_data: bool,
        is_last_in_slot: bool,
        reference_tick: u8,
        version: u16,
        fec_set_index: u32,
    ) -> (result: Self)
        requires
            data@.len() + SHRED_DATA_OFFSET <= SHRED_PAYLOAD_SIZE,
        ensures
            result@ == new_data_shred(
                slot,
                index,
                parent_offset,
                data@,
                data_flags(reference_tick, is_last_data, is_last_in_slot),
                version,
                fec_set_index,
            ),
    {
        let common_header = ShredCommonHeader {
            shred_type: ShredType::Data,
            slot,
            index,
            version,
            fec_set_index,
        };
        let mut flags: u8 = if reference_tick < SHRED_TICK_REFERENCE_MASK {
            reference_tick
        } else {
            SHRED_TICK_REFERENCE_MASK
        };
        if is_last_data {
            flags = flags | DATA_COMPLETE_SHRED;
        }
        if is_last_in_slot {
            flags = flags | LAST_SHRED_IN_SLOT;
        }
        let size: u16 = (data.len() + SHRED_DATA_OFFSET) as u16;
        let data_header = DataShredHeader { parent_offset, flags, size };
        let mut bytes: Vec<u8> = zero_bytes(64);
        append_bytes(&mut bytes, &write_common_header(&common_header));
        let mut header: Vec<u8> = u16_to_le_bytes(parent_offset);
        header.push(flags);
        append_bytes(&mut header, &u16_to_le_bytes(size));
        assert(header@ =~= data_header_bytes(data_header));
        append_bytes(&mut bytes, &header);
        append_bytes(&mut bytes, data);
        Shred {
            common_header,
            data_header,
            coding_header: CodingShredHeader {
                num_data_shreds: 0,
                num_coding_shreds: 0,
                position: 0,
            },
            payload: pad_payload(&bytes),
        }
    }

    /// A coding shred without parity data.
    pub fn new_empty_coding(
        slot: Slot,
        index: u32,
        fec_set_index: u32,
        num_data_shreds: u16,
        num_coding_shreds: u16,
        position: u16,
        version: u16,
    ) -> (result: Self)
        ensures
            ({
                let common_header = ShredCommonHeader {
                    shred_type: ShredType::Code,
                    slot,
                    index,
                    version,
                    fec_set_index,
                };
                let coding_header = CodingShredHeader {
                    num_data_shreds,
                    num_coding_shreds,
                    position,
                };
                result@ == ShredView {
                    common_header,
                    data_header: no_data_header(),
                    coding_header,
                    payload: coding_payload(common_header, coding_header),
                }
            }),
    {
        let common_header = ShredCommonHeader {
            shred_type: ShredType::Code,
            slot,
            index,
            version,
            fec_set_index,
        };
        let coding_header = CodingShredHeader { num_data_shreds, num_coding_shreds, position };
        let mut bytes: Vec<u8> = zero_bytes(64);
        append_bytes(&mut bytes, &write_common_header(&common_header));
        let mut header: Vec<u8> = u16_to_le_bytes(num_data_shreds);
        append_bytes(&mut header, &u16_to_le_bytes(num_coding_shreds));
        append_bytes(&mut header, &u16_to_le_bytes(position));
        append_bytes(&mut bytes, &header);
        Shred {
            common_header,
            data_header: DataShredHeader { parent_offset: 0, flags: 0, size: 0 },
            coding_header,
            payload: pad_payload(&bytes),
        }
    }

    /// Reads a shred from its bytes, which are cut or padded to the length of a shred.
    pub fn new_from_serialized_shred(bytes: &Vec<u8>) -> (result: Option<Self>)
        ensures
            (match result {
                Some(shred) => Some(shred@),
                None => None,
            }) == parse_shred(bytes@),
    {
        if bytes.len() < SIZE_OF_COMMON_SHRED_HEADER {
            return None;
        }
        let kind: u8 = bytes[OFFSET_OF_SHRED_TYPE];
        if kind != DATA_SHRED && kind != CODING_SHRED {
            return None;
        }
        let shred_type = if kind == DATA_SHRED {
            ShredType::Data
        } else {
            ShredType::Code
        };
        let common_header = ShredCommonHeader {
            shred_type,
            slot: read_u64(bytes, 65),
            index: read_u32(bytes, 73),
            version: read_u16(bytes, 77),
            fec_set_index: read_u32(bytes, 79),
        };
        let payload = pad_payload(bytes);
        if kind == DATA_SHRED {
            let data_header = DataShredHeader {
                parent_offset: read_u16(&payload, 83),
                flags: payload[85],
                size: read_u16(&payload, 86),
            };
            if data_header.parent_offset as u64 > common_header.slot {
                return None;
            }
            Some(
                Shred {
                    common_header,
                    data_header,
                    coding_header: CodingShredHeader {
                        num_data_shreds: 0,
                        num_coding_shreds: 0,
                        position: 0,
                    },
                    payload,
                },
            )
        } else {
            let coding_header = CodingShredHeader {
                num_data_shreds: read_u16(&payload, 83),
                num_coding_shreds: read_u16(&payload, 85),
                position: read_u16(&payload, 87),
            };
            Some(
                Shred {
                    common_header,
                    data_header: DataShredHeader { parent_offset: 0, flags: 0, size: 0 },
                    coding_header,
                    payload,
                },
            )
        }
    }

    pub fn slot(&self) -> (result: Slot)
        ensures
            result == self@.slot(),
    {
        self.common_header.slot
    }

    pub fn index(&self) -> (result: u32)
        ensures
            result == self@.index(),
    {
        self.common_header.index
    }

    pub fn fec_set_index(&self) -> (result: u32)
        ensures
            result == self@.fec_set_index(),
    {
        self.common_header.fec_set_index
    }

    pub fn is_data(&self) -> (result: bool)
        ensures
            result == self@.is_data(),
    {
        self.common_header.shred_type == ShredType::Data
    }

    pub fn is_code(&self) -> (result: bool)
        ensures
            result == self@.is_code(),
    {
        self.common_header.shred_type == ShredType::Code
    }

    /// Whether the shred is the last one of its slot.
    pub fn last_in_slot(&self) -> (result: bool)
        ensures
            result == self@.last_in_slot(),
    {
        self.is_data() && self.data_header.flags & LAST_SHRED_IN_SLOT == LAST_SHRED_IN_SLOT
    }

    /// Whether the shred ends a run of entries.
    pub fn data_complete(&self) -> (result: bool)
        ensures
            result == self@.data_complete(),
    {
        self.is_data() && self.data_header.flags & DATA_COMPLETE_SHRED == DATA_COMPLETE_SHRED
    }

    /// The tick in which the shred was made.
    pub fn reference_tick(&self) -> (result: u8)
        ensures
            result == self@.reference_tick(),
    {
        if self.is_data() {
            self.data_header.flags & SHRED_TICK_REFERENCE_MASK
        } else {
            SHRED_TICK_REFERENCE_MASK
        }
    }

    /// The parent of the shred's slot.
    pub fn parent(&self) -> (result: Option<Slot>)
        ensures
            result == self@.parent(),
    {
        let slot: u64 = self.slot();
        let offset: u64 = self.data_header.parent_offset as u64;
        if self.is_code() || offset > slot || (offset == 0 && slot != 0) {
            None
        } else {
            Some(slot - offset)
        }
    }

    /// Whether the shred's headers are consistent.
    pub fn sanitize(&self) -> (result: bool)
        ensures
            result == self@.sanitize(),
    {
        if self.is_data() {
            self.fec_set_index() <= self.index() && self.parent().is_some()
                && self.data_header.size as usize <= self.payload.len()
        } else {
            let h = self.coding_header;
            let set: u64 = self.fec_set_index() as u64;
            let index: u64 = self.index() as u64;
            h.num_coding_shreds as u32 <= 8 * MAX_DATA_SHREDS_PER_FEC_BLOCK && h.num_data_shreds > 0
                && h.position < h.num_coding_shreds && h.position as u64 <= index && set
                + h.num_data_shreds as u64 - 1 <= 0xffff_ffff && set + h.num_coding_shreds as u64
                - 1 <= 0xffff_ffff && index - h.position as u64 + h.num_coding_shreds as u64 - 1
                <= 0xffff_ffff
        }
    }

    /// The metadata of the erasure set of a coding shred.
    pub fn erasure_meta(&self) -> (result: Option<ErasureMeta>)
        ensures
            result == self@.erasure_meta(),
    {
        if self.is_data() || self.index() < self.coding_header.position as u32 {
            None
        } else {
            Some(
                ErasureMeta {
                    set_index: self.fec_set_index() as u64,
                    first_coding_index: (self.index() - self.coding_header.position as u32) as u64,
                    config: ErasureConfig {
                        num_data: self.coding_header.num_data_shreds as u64,
                        num_coding: self.coding_header.num_coding_shreds as u64,
                    },
                },
            )
        }
    }

    /// Whether a coding shred agrees with what is known of its erasure set.
    pub fn agrees_with(&self, meta: &ErasureMeta) -> (result: bool)
        ensures
            result == self@.agrees_with(*meta),
    {
        match self.erasure_meta() {
            None => false,
            Some(own) => own.set_index == meta.set_index && own.config.num_data
                == meta.config.num_data && own.config.num_coding == meta.config.num_coding,
        }
    }

    /// What is kept of a data shred: the bytes within its size.
    pub fn stored(&self) -> (result: Vec<u8>)
        requires
            self@.data_header.size <= self@.payload.len(),
        ensures
            result@ == self@.stored(),
    {
        let part = slice_subrange(self.payload.as_slice(), 0, self.data_header.size as usize);
        let mut result: Vec<u8> = Vec::new();
        result.extend_from_slice(part);
        assert(result@ =~= self@.stored());
        result
    }

    /// Writes the common header into the payload.
    fn store_common_header(&mut self)
        requires
            old(self)@.payload.len() >= SIZE_OF_COMMON_SHRED_HEADER,
        ensures
            final(self)@ == old(self)@.with_common_header(old(self)@.common_header),
    {
        let header = write_common_header(&self.common_header);
        let mut bytes: Vec<u8> = Vec::new();
        bytes.extend_from_slice(slice_subrange(self.payload.as_slice(), 0, 64));
        append_bytes(&mut bytes, &header);
        let n: usize = self.payload.len();
        let mut rest: Vec<u8> = Vec::new();
        rest.extend_from_slice(
            slice_subrange(self.payload.as_slice(), SIZE_OF_COMMON_SHRED_HEADER, n),
        );
        append_bytes(&mut bytes, &rest);
        assert(bytes@ =~= self@.payload.take(64) + common_header_bytes(self.common_header)
            + self@.payload.skip(SIZE_OF_COMMON_SHRED_HEADER as int));
        self.payload = bytes;
    }

    /// Moves the shred to another index.
    pub fn set_index(&mut self, index: u32)
        requires
            old(self)@.payload.len() >= SIZE_OF_COMMON_SHRED_HEADER,
        ensures
            final(self)@ == old(self)@.with_common_header(
                ShredCommonHeader { index, ..old(self)@.common_header },
            ),
    {
        self.common_header.index = index;
        self.store_common_header();
    }

    /// Moves the shred to another slot.
    pub fn set_slot(&mut self, slot: Slot)
        requires
            old(self)@.payload.len() >= SIZE_OF_COMMON_SHRED_HEADER,
        ensures
            final(self)@ == old(self)@.with_common_header(
                ShredCommonHeader { slot, ..old(self)@.common_header },
            ),
    {
        self.common_header.slot = slot;
        self.store_common_header();
    }
}

impl Shred {
    /// Replaces the flags of a data shred.
    fn set_flags(&mut self, flags: u8)
        requires
            old(self)@.payload.len() >= SHRED_DATA_OFFSET,
        ensures
            final(self)@ == old(self)@.with_flags(flags),
    {
        self.data_header.flags = flags;
        self.payload.set(85, flags);
    }

    /// Makes a data shred the last one of its slot.
    pub fn set_last_in_slot(&mut self)
        requires
            old(self)@.is_data(),
            old(self)@.payload.len() >= SHRED_DATA_OFFSET,
        ensures
            final(self)@ == old(self)@.with_flags(
                old(self)@.data_header.flags | LAST_SHRED_IN_SLOT,
            ),
    {
        self.set_flags(self.data_header.flags | LAST_SHRED_IN_SLOT);
    }

    /// Makes a data shred one that ends no run of entries.
    pub fn unset_data_complete(&mut self)
        requires
            old(self)@.is_data(),
            old(self)@.payload.len() >= SHRED_DATA_OFFSET,
        ensures
            final(self)@ == old(self)@.with_flags(
                old(self)@.data_header.flags & !DATA_COMPLETE_SHRED,
            ),
    {
        self.set_flags(self.data_header.flags & !DATA_COMPLETE_SHRED);
    }
}

impl ShredView {
    /// The shred with other flags, in its field and in its bytes.
    pub open spec fn with_flags(self, flags: u8) -> Self {
        ShredView {
            data_header: DataShredHeader { flags, ..self.data_header },
            payload: self.payload.update(85, flags),
            ..self
        }
    }

    /// The shred with another common header, in its fields and in its bytes.
    pub open spec fn with_common_header(self, common_header: ShredCommonHeader) -> Self {
        ShredView {
            common_header,
            payload: self.payload.take(64) + common_header_bytes(common_header)
                + self.payload.skip(SIZE_OF_COMMON_SHRED_HEADER as int),
            ..self
        }
    }
}

impl Duplicate for Shred {
    fn duplicate(&self) -> (result: Self) {
        Shred {
            common_header: self.common_header,
            data_header: self.data_header,
            coding_header: self.coding_header,
            payload: self.payload.duplicate(),
        }
    }
}

/// The data of `shreds`, one after the other.
pub open spec fn joined_data(shreds: Seq<ShredView>) -> Seq<u8>
    decreases shreds.len(),
{
    if shreds.len() == 0 {
        Seq::empty()
    } else {
        joined_data(shreds.drop_last()) + shreds.last().data()
    }
}

/// The models of the shreds in a vector.
pub open spec fn shred_views(shreds: Seq<Shred>) -> Seq<ShredView> {
    Seq::new(shreds.len(), |i: int| shreds[i]@)
}

/// The bytes that a run of data shreds carries: the shreds follow each other by index, are of
/// one length, and the last ends a run of entries. Shreds without data stand for zeros.
pub open spec fn deshredded(shreds: Seq<ShredView>) -> Option<Seq<u8>> {
    if shreds.len() == 0 || !(forall|i: int|
        0 <= i < shreds.len() ==> (#[trigger] shreds[i]).payload.len() == shreds[0].payload.len())
        || !(forall|i: int|
        0 <= i < shreds.len() ==> (#[trigger] shreds[i]).index() == shreds[0].index() + i) || !(
    shreds.last().data_complete() || shreds.last().last_in_slot()) {
        None
    } else if joined_data(shreds).len() == 0 {
        Some(zeros(SIZE_OF_DATA_SHRED_PAYLOAD as int))
    } else {
        Some(joined_data(shreds))
    }
}

/// Puts the data of a run of data shreds together.
pub fn deshred(shreds: &Vec<Shred>) -> (result: Option<Vec<u8>>)
    ensures
        (match result {
            Some(bytes) => Some(bytes@),
            None => None,
        }) == deshredded(shred_views(shreds@)),
{
    let n: usize = shreds.len();
    if n == 0 {
        return None;
    }
    let ghost views = shred_views(shreds@);
    let first: u64 = shreds[0].index() as u64;
    let length: usize = shreds[0].payload.len();
    let mut data: Vec<u8> = Vec::new();
    let mut i: usize = 0;
    assert(joined_data(views.take(0)) =~= Seq::<u8>::empty());
    while i < n
        invariant
            0 <= i <= n,
            n == shreds@.len(),
            views == shred_views(shreds@),
            first == views[0].index(),
            length == views[0].payload.len(),
            data@ == joined_data(views.take(i as int)),
            forall|j: int|
                0 <= j < i ==> (#[trigger] views[j]).payload.len() == views[0].payload.len(),
            forall|j: int| 0 <= j < i ==> (#[trigger] views[j]).index() == views[0].index() + j,
        decreases n - i,
    {
        let shred = &shreds[i];
        assert(views[i as int] == shred@);
        if shred.payload.len() != length || shred.index() as u64 != first + i as u64 {
            return None;
        }
        let size: usize = if shred.payload.len() < shred.data_header.size as usize {
            shred.payload.len()
        } else {
            shred.data_header.size as usize
        };
        let offset: usize = if SHRED_DATA_OFFSET < size {
            SHRED_DATA_OFFSET
        } else {
            size
        };
        data.extend_from_slice(slice_subrange(shred.payload.as_slice(), offset, size));
        proof {
            assert(views.take(i + 1).drop_last() =~= views.take(i as int));
            assert(data@ =~= joined_data(views.take(i as int)) + views[i as int].data());
        }
        i += 1;
    }
    assert(views.take(n as int) =~= views);
    let last = &shreds[n - 1];
    assert(views.last() == last@);
    if !(last.data_complete() || last.last_in_slot()) {
        return None;
    }
    if data.len() == 0 {
        Some(zero_bytes(SIZE_OF_DATA_SHRED_PAYLOAD))
    } else {
        Some(data)
    }
}

/// Where the fields of a common header stand behind a signature.
proof fn lemma_common_header_layout(signature: Seq<u8>, h: ShredCommonHeader, rest: Seq<u8>)
    requires
        signature.len() == 64,
    ensures
        ({
            let s = signature + common_header_bytes(h) + rest;
            &&& common_header_bytes(h).len() == 19
            &&& s.len() == 83 + rest.len()
            &&& s[64] == match h.shred_type {
                ShredType::Data => DATA_SHRED,
                ShredType::Code => CODING_SHRED,
            }
            &&& u64_at(s, 65) == h.slot
            &&& u32_at(s, 73) == h.index
            &&& u16_at(s, 77) == h.version
            &&& u32_at(s, 79) == h.fec_set_index
            &&& forall|i: int| 0 <= i < rest.len() ==> s[83 + i] == rest[i]
        }),
{
    lemma_auto_spec_u16_to_from_le_bytes();
    lemma_auto_spec_u32_to_from_le_bytes();
    lemma_auto_spec_u64_to_from_le_bytes();
    let s = signature + common_header_bytes(h) + rest;
    let a = spec_u64_to_le_bytes(h.slot);
    let b = spec_u32_to_le_bytes(h.index);
    let c = spec_u16_to_le_bytes(h.version);
    let d = spec_u32_to_le_bytes(h.fec_set_index);
    assert(a.len() == 8 && b.len() == 4 && c.len() == 2 && d.len() == 4);
    assert(s.subrange(65, 73) =~= a);
    assert(s.subrange(73, 77) =~= b);
    assert(s.subrange(77, 79) =~= c);
    assert(s.subrange(79, 83) =~= d);
}

/// Padding and cutting leave a common header as it is.
proof fn lemma_common_header_padded(a: Seq<u8>, b: Seq<u8>)
    requires
        a.len() >= 83,
        b.len() >= 83,
        forall|i: int| 0 <= i < 83 ==> a[i] == b[i],
    ensures
        common_header_of(a) == common_header_of(b),
{
    assert(a.subrange(65, 73) =~= b.subrange(65, 73));
    assert(a.subrange(73, 77) =~= b.subrange(73, 77));
    assert(a.subrange(77, 79) =~= b.subrange(77, 79));
    assert(a.subrange(79, 83) =~= b.subrange(79, 83));
}

/// Where the fields of a data header stand.
proof fn lemma_data_header_layout(h: DataShredHeader, data: Seq<u8>)
    ensures
        ({
            let s = data_header_bytes(h) + data;
            &&& s.len() == 5 + data.len()
            &&& u16_at(s, 0) == h.parent_offset
            &&& s[2] == h.flags
            &&& u16_at(s, 3) == h.size
            &&& s.skip(5) == data
        }),
{
    lemma_auto_spec_u16_to_from_le_bytes();
    let s = data_header_bytes(h) + data;
    let a = spec_u16_to_le_bytes(h.parent_offset);
    let b = spec_u16_to_le_bytes(h.size);
    assert(a.len() == 2 && b.len() == 2);
    assert(s.subrange(0, 2) =~= a);
    assert(s.subrange(3, 5) =~= b);
    assert(s.skip(5) =~= data);
}

/// Where the fields of a coding header stand.
proof fn lemma_coding_header_layout(h: CodingShredHeader)
    ensures
        ({
            let s = coding_header_bytes(h);
            &&& s.len() == 6
            &&& u16_at(s, 0) == h.num_data_shreds
            &&& u16_at(s, 2) == h.num_coding_shreds
            &&& u16_at(s, 4) == h.position
        }),
{
    lemma_auto_spec_u16_to_from_le_bytes();
    let s = coding_header_bytes(h);
    let a = spec_u16_to_le_bytes(h.num_data_shreds);
    let b = spec_u16_to_le_bytes(h.num_coding_shreds);
    let c = spec_u16_to_le_bytes(h.position);
    assert(a.len() == 2 && b.len() == 2 && c.len() == 2);
    assert(s.subrange(0, 2) =~= a);
    assert(s.subrange(2, 4) =~= b);
    assert(s.subrange(4, 6) =~= c);
}

/// What a new data shred carries can be read back, from its whole payload and from the part
/// that is stored.
pub proof fn law_data_shred_round_trip(
    slot: Slot,
    index: u32,
    parent_offset: u16,
    data: Seq<u8>,
    flags: u8,
    version: u16,
    fec_set_index: u32,
)
    requires
        data.len() + SHRED_DATA_OFFSET <= SHRED_PAYLOAD_SIZE,
        parent_offset <= slot,
    ensures
        ({
            let shred = new_data_shred(
                slot,
                index,
                parent_offset,
                data,
                flags,
                version,
                fec_set_index,
            );
            &&& parse_shred(shred.payload) == Some(shred)
            &&& parse_shred(shred.stored()) == Some(shred)
            &&& shred.data() == data
        }),
{
    let shred = new_data_shred(slot, index, parent_offset, data, flags, version, fec_set_index);
    let c = shred.common_header;
    let h = shred.data_header;
    let rest = data_header_bytes(h) + data;
    let raw = zeros(64) + common_header_bytes(c) + rest;
    let p = shred.payload;
    let s = shred.stored();
    assert(zeros(64) + common_header_bytes(c) + data_header_bytes(h) + data =~= raw);
    lemma_common_header_layout(zeros(64), c, rest);
    lemma_data_header_layout(h, data);
    assert(raw.len() == SHRED_DATA_OFFSET + data.len());
    assert(h.size == raw.len());
    assert(p == padded(raw));
    assert(s =~= raw);
    assert(padded(p) =~= p);
    lemma_common_header_padded(raw, p);
    assert(common_header_of(raw) == Some(c));
    assert(p.subrange(83, 85) =~= rest.subrange(0, 2));
    assert(p.subrange(86, 88) =~= rest.subrange(3, 5));
    assert(p[85] == rest[2]);
    assert(shred.data() =~= data) by {
        assert(forall|i: int| 0 <= i < data.len() ==> rest.skip(5)[i] == data[i]);
    }
}

/// A new coding shred can be read back from its payload.
pub proof fn law_coding_shred_round_trip(common: ShredCommonHeader, coding: CodingShredHeader)
    requires
        common.shred_type == ShredType::Code,
    ensures
        parse_shred(coding_payload(common, coding)) == Some(
            ShredView {
                common_header: common,
                data_header: no_data_header(),
                coding_header: coding,
                payload: coding_payload(common, coding),
            },
        ),
{
    let rest = coding_header_bytes(coding);
    let raw = zeros(64) + common_header_bytes(common) + rest;
    let p = coding_payload(common, coding);
    lemma_common_header_layout(zeros(64), common, rest);
    lemma_coding_header_layout(coding);
    assert(p == padded(raw));
    assert(padded(p) =~= p);
    lemma_common_header_padded(raw, p);
    assert(common_header_of(raw) == Some(common));
    assert(p.subrange(83, 85) =~= rest.subrange(0, 2));
    assert(p.subrange(85, 87) =~= rest.subrange(2, 4));
    assert(p.subrange(87, 89) =~= rest.subrange(4, 6));
}

/// Where the headers of a shred stand in its bytes: the kind, the slot, the index, the version and
/// the first index of the erasure set after the signature; then, of a data shred, how far below the
/// slot its parent is, the flags and the size, and, of a coding shred, how many data and coding
/// shreds its erasure set has and which of the coding shreds it is. Numbers are little-endian, and
/// bytes that are missing at the end are zeros.
pub proof fn law_where_headers_stand(bytes: Seq<u8>)
    ensures
        parse_shred(bytes) is Some ==> bytes.len() >= 83,
        parse_shred(bytes) is Some ==> {
            let shred = parse_shred(bytes)->0;
            let common = shred.common_header;
            let p = shred.payload;
            &&& p.len() == SHRED_PAYLOAD_SIZE
            &&& forall|i: int|
                0 <= i < p.len() ==> #[trigger] p[i] == if i < bytes.len() {
                    bytes[i]
                } else {
                    0
                }
            &&& bytes[64] == if common.shred_type == ShredType::Data {
                0xa5u8
            } else {
                0x5au8
            }
            &&& common.slot == spec_u64_from_le_bytes(bytes.subrange(65, 73))
            &&& common.index == spec_u32_from_le_bytes(bytes.subrange(73, 77))
            &&& common.version == spec_u16_from_le_bytes(bytes.subrange(77, 79))
            &&& common.fec_set_index == spec_u32_from_le_bytes(bytes.subrange(79, 83))
            &&& common.shred_type == ShredType::Data ==> {
                &&& shred.data_header.parent_offset == spec_u16_from_le_bytes(p.subrange(83, 85))
                &&& shred.data_header.flags == p[85]
                &&& shred.data_header.size == spec_u16_from_le_bytes(p.subrange(86, 88))
                &&& shred.data_header.parent_offset <= common.slot
            }
            &&& common.shred_type == ShredType::Code ==> {
                &&& shred.coding_header.num_data_shreds == spec_u16_from_le_bytes(
                    p.subrange(83, 85),
                )
                &&& shred.coding_header.num_coding_shreds == spec_u16_from_le_bytes(
                    p.subrange(85, 87),
                )
                &&& shred.coding_header.position == spec_u16_from_le_bytes(p.subrange(87, 89))
            }
        },
        bytes.len() >= 83 && (bytes[64] == 0x5a || (bytes[64] == 0xa5 && spec_u16_from_le_bytes(
            padded(bytes).subrange(83, 85),
        ) <= spec_u64_from_le_bytes(bytes.subrange(65, 73)))) ==> parse_shred(bytes) is Some,
{
}

/// A shred that is moved to another slot or index is read back as such from its bytes. Nothing
/// else of it changes.
pub proof fn law_moved_shred_reads_back(shred: ShredView, slot: Slot, index: u32)
    requires
        parse_shred(shred.payload) == Some(shred),
        shred.common_header.shred_type == ShredType::Data ==> shred.data_header.parent_offset
            <= slot,
    ensures
        ({
            let moved = shred.with_common_header(
                ShredCommonHeader { slot, index, ..shred.common_header },
            );
            &&& parse_shred(moved.payload) == Some(moved)
            &&& moved.common_header == ShredCommonHeader { slot, index, ..shred.common_header }
            &&& moved.data_header == shred.data_header
            &&& moved.coding_header == shred.coding_header
            &&& forall|i: int|
                0 <= i < 64 || 83 <= i < shred.payload.len() ==> #[trigger] moved.payload[i]
                    == shred.payload[i]
        }),
{
    let header = ShredCommonHeader { slot, index, ..shred.common_header };
    let p = shred.payload;
    let moved = shred.with_common_header(header);
    lemma_common_header_layout(p.take(64), header, p.skip(83));
    assert(moved.payload.len() == p.len());
    assert(padded(p) =~= p);
    assert(padded(moved.payload) =~= moved.payload);
    assert(common_header_of(moved.payload) == Some(header));
    assert(moved.payload.subrange(83, 85) =~= p.subrange(83, 85));
    assert(moved.payload.subrange(86, 88) =~= p.subrange(86, 88));
    assert(moved.payload.subrange(85, 87) =~= p.subrange(85, 87));
    assert(moved.payload.subrange(87, 89) =~= p.subrange(87, 89));
}

/// A data shred with other flags is read back as such from its bytes. Nothing else of it changes.
pub proof fn law_flags_read_back(shred: ShredView, flags: u8)
    requires
        parse_shred(shred.payload) == Some(shred),
        shred.common_header.shred_type == ShredType::Data,
    ensures
        ({
            let marked = shred.with_flags(flags);
            &&& parse_shred(marked.payload) == Some(marked)
            &&& marked.data_header.flags == flags
            &&& marked.data_header.parent_offset == shred.data_header.parent_offset
            &&& marked.data_header.size == shred.data_header.size
            &&& marked.common_header == shred.common_header
            &&& marked.data() == shred.data()
        }),
{
    let p = shred.payload;
    let marked = shred.with_flags(flags);
    assert(padded(p) =~= p);
    assert(padded(marked.payload) =~= marked.payload);
    lemma_common_header_padded(p, marked.payload);
    assert(marked.payload.subrange(83, 85) =~= p.subrange(83, 85));
    assert(marked.payload.subrange(86, 88) =~= p.subrange(86, 88));
    assert(marked.data() =~= shred.data());
}

/// Shreds are put together exactly where there are some, they follow each other by index, they are
/// of one length, and the last is marked as the end of a run or of its slot. They give all the data
/// that they carry, in their order, and nothing else, but for shreds without any data, which stand
/// for as many zeros as one shred carries at most.
pub proof fn law_which_shreds_join(shreds: Seq<ShredView>)
    ensures
        deshredded(shreds) is Some <==> {
            let n = shreds.len() - 1;
            &&& shreds.len() > 0
            &&& forall|i: int|
                0 < i <= n ==> (#[trigger] shreds[i]).common_header.index
                    == shreds[0].common_header.index + i
            &&& forall|i: int|
                0 < i <= n ==> (#[trigger] shreds[i]).payload.len() == shreds[0].payload.len()
            &&& shreds[n].common_header.shred_type == ShredType::Data
            &&& shreds[n].data_header.flags & 0x40 == 0x40 || shreds[n].data_header.flags & 0x80
                == 0x80
        },
        deshredded(shreds) is Some ==> ({
            let carried = shreds.map_values(|shred: ShredView| shred.data()).flatten();
            deshredded(shreds)->0 == if carried.len() > 0 {
                carried
            } else {
                Seq::new(1051, |i: int| 0u8)
            }
        }),
{
    lemma_joined_flat(shreds);
    assert(zeros(SIZE_OF_DATA_SHRED_PAYLOAD as int) =~= Seq::new(1051, |i: int| 0u8));
    if shreds.len() > 0 {
        assert(shreds.last() == shreds[shreds.len() - 1]);
    }
    if deshredded(shreds) is Some {
        assert forall|i: int| 0 < i < shreds.len() implies (#[trigger] shreds[i]).common_header.index
            == shreds[0].common_header.index + i && shreds[i].payload.len()
            == shreds[0].payload.len() by {
            assert(shreds[i].index() == shreds[0].index() + i);
        }
    }
}

proof fn lemma_joined_flat(shreds: Seq<ShredView>)
    ensures
        joined_data(shreds) == shreds.map_values(|shred: ShredView| shred.data()).flatten(),
    decreases shreds.len(),
{
    let each = shreds.map_values(|shred: ShredView| shred.data());
    if shreds.len() > 0 {
        let before = shreds.drop_last();
        lemma_joined_flat(before);
        let each_before = before.map_values(|shred: ShredView| shred.data());
        assert(each =~= each_before.push(shreds.last().data()));
        each_before.lemma_flatten_push(shreds.last().data());
    } else {
        assert(each =~= Seq::empty());
    }
}

/// The data that a data shred carries lies behind its headers, up to its size.
pub proof fn law_data_of_a_shred(shred: ShredView)
    requires
        88 <= shred.data_header.size <= shred.payload.len(),
    ensures
        shred.data() == shred.payload.subrange(88, shred.data_header.size as int),
        shred.stored() == shred.payload.subrange(0, shred.data_header.size as int),
{
}

} // verus!
