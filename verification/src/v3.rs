//! The v3 journal-style codec.
//!
//! A v3 image is up to 16 contiguous `0x10000`-byte banks.  Each bank is a
//! store: a 24-byte header followed by an append-only log of variable
//! records.  Superseded records stay in place with their state bits
//! cleared (tombstoned); the live record for a key is the unique log entry
//! with state [`VAR_ADDED`].  When the log outgrows a bank, `apply`
//! compacts the live records into the next bank with the generation
//! advanced by one.

use vstd::prelude::*;

use crate::sums::{crc32_of, crc32_sum};
use crate::writer::{MediumOp, NvramWriter};
use crate::{bytes_eq, read_le16, read_le32, Error, VarType};

verus! {
pub const PARTITION_SIZE: usize = 0x10000;

pub const STORE_HEADER_SIZE: usize = 24;

pub const VAR_HEADER_SIZE: usize = 36;

/// State byte of a live record.
pub const VAR_ADDED: u8 = 0x7F;

pub const VAR_IN_DELETED_TRANSITION: u8 = 0xFE;

pub const VAR_DELETED: u8 = 0xFD;

/// Record start marker, little-endian at offset 0 of every record header.
pub const VARIABLE_DATA: u16 = 0x55AA;

/// Version byte every store header must carry.
pub const VARIABLE_STORE_VERSION: u8 = 0x1;

/// The maximal number of banks an image may hold.
pub const MAX_BANKS: usize = 16;

/// The state of a record superseded by a later insert or a remove: the
/// `VAR_ADDED`, `VAR_DELETED` and `VAR_IN_DELETED_TRANSITION` bits all
/// masked in.
pub open spec fn superseded_state() -> u8 {
    VAR_ADDED & VAR_DELETED & VAR_IN_DELETED_TRANSITION
}

/// The store signature, `"3VVN"` in ASCII.
pub open spec fn store_signature() -> Seq<u8> {
    seq![0x33u8, 0x56u8, 0x56u8, 0x4Eu8]
}

/// The GUID marking a variable as belonging to the common namespace.
pub open spec fn common_guid() -> Seq<u8> {
    seq![
        0x7Cu8, 0x43u8, 0x61u8, 0x10u8, 0xABu8, 0x2Au8, 0x4Bu8, 0xBBu8,
        0xA8u8, 0x80u8, 0xFEu8, 0x41u8, 0x99u8, 0x5Cu8, 0x9Fu8, 0x82u8,
    ]
}

/// The GUID marking a variable as belonging to the system namespace.
pub open spec fn system_guid() -> Seq<u8> {
    seq![
        0x40u8, 0xA0u8, 0xDDu8, 0xD2u8, 0x77u8, 0xF8u8, 0x43u8, 0x92u8,
        0xB4u8, 0xA3u8, 0x1Eu8, 0x73u8, 0x04u8, 0x20u8, 0x65u8, 0x16u8,
    ]
}

/// The GUID written for a given namespace.
pub open spec fn guid_of(t: VarType) -> Seq<u8> {
    match t {
        VarType::Common => common_guid(),
        VarType::System => system_guid(),
    }
}

/// The namespace a GUID denotes; everything but the system GUID reads as
/// common.
pub open spec fn kind_of(guid: Seq<u8>) -> VarType {
    if guid == system_guid() {
        VarType::System
    } else {
        VarType::Common
    }
}

/// The common-namespace GUID as owned bytes.
pub fn common_guid_bytes() -> (r: Vec<u8>)
    ensures
        r@ == common_guid(),
{
    let mut v: Vec<u8> = Vec::new();
    v.push(0x7C);
    v.push(0x43);
    v.push(0x61);
    v.push(0x10);
    v.push(0xAB);
    v.push(0x2A);
    v.push(0x4B);
    v.push(0xBB);
    v.push(0xA8);
    v.push(0x80);
    v.push(0xFE);
    v.push(0x41);
    v.push(0x99);
    v.push(0x5C);
    v.push(0x9F);
    v.push(0x82);
    proof {
        assert(v@ =~= common_guid());
    }
    v
}

/// The system-namespace GUID as owned bytes.
pub fn system_guid_bytes() -> (r: Vec<u8>)
    ensures
        r@ == system_guid(),
{
    let mut v: Vec<u8> = Vec::new();
    v.push(0x40);
    v.push(0xA0);
    v.push(0xDD);
    v.push(0xD2);
    v.push(0x77);
    v.push(0xF8);
    v.push(0x43);
    v.push(0x92);
    v.push(0xB4);
    v.push(0xA3);
    v.push(0x1E);
    v.push(0x73);
    v.push(0x04);
    v.push(0x20);
    v.push(0x65);
    v.push(0x16);
    proof {
        assert(v@ =~= system_guid());
    }
    v
}

/// Parse failures local to this format: a bank is either undecodable or
/// wholly erased.
#[derive(Debug, PartialEq, Eq, Structural)]
pub enum V3Error {
    ParseError,
    Empty,
}

/// The store header of one bank.  The four-byte signature and the version
/// byte are fixed by the format and are not stored.
#[derive(Debug, Clone, Copy)]
pub struct StoreHeader {
    /// Size in bytes that the serialized store occupies, padding included.
    pub size: u32,
    /// Monotonically increasing counter electing the active bank.
    pub generation: u32,
    pub state: u8,
    pub flags: u8,
    /// Quota on the summed size of live system-namespace records.
    pub system_size: u32,
    /// Quota on the summed size of live common-namespace records.
    pub common_size: u32,
}

/// The record header fields that are stored.  The record CRC is derived
/// from the value bytes when a record is written, so it is not a field.
#[derive(Debug)]
pub struct VarHeader {
    pub state: u8,
    pub attrs: u32,
    /// Length of the key plus its trailing NUL.
    pub name_size: u32,
    /// Length of the value.
    pub data_size: u32,
    /// 16 bytes naming the namespace.
    pub guid: Vec<u8>,
}

/// One record of the log.
#[derive(Debug)]
pub struct Variable {
    pub header: VarHeader,
    pub key: Vec<u8>,
    pub value: Vec<u8>,
}

/// The mathematical content of one record.
#[verifier::ext_equal]
pub struct VarV {
    pub state: u8,
    pub attrs: u32,
    pub name_size: u32,
    pub data_size: u32,
    pub guid: Seq<u8>,
    pub key: Seq<u8>,
    pub value: Seq<u8>,
}

impl View for Variable {
    type V = VarV;

    open spec fn view(&self) -> VarV {
        VarV {
            state: self.header.state,
            attrs: self.header.attrs,
            name_size: self.header.name_size,
            data_size: self.header.data_size,
            guid: self.header.guid@,
            key: self.key@,
            value: self.value@,
        }
    }
}

/// Structural well-formedness of a record: the GUID is 16 bytes and the
/// size fields agree with the key and value lengths.
pub open spec fn var_wf(v: VarV) -> bool {
    &&& v.guid.len() == 16
    &&& v.name_size == v.key.len() + 1
    &&& v.data_size == v.value.len()
}

/// Bytes a record occupies: fixed header plus key with NUL plus value,
/// going by the stored size fields.
pub open spec fn spec_var_size(v: VarV) -> int {
    VAR_HEADER_SIZE + v.name_size + v.data_size
}

/// The first 32 record-header bytes: marker, state, reserved, attributes,
/// sizes and GUID.
pub open spec fn spec_var_prefix_bytes(v: VarV) -> Seq<u8> {
    crate::spec_le16_bytes(VARIABLE_DATA) + seq![v.state, 0u8]
        + crate::spec_le32_bytes(v.attrs)
        + crate::spec_le32_bytes(v.name_size)
        + crate::spec_le32_bytes(v.data_size) + v.guid
}

/// The full serialized form of one record.
pub open spec fn spec_var_bytes(v: VarV) -> Seq<u8> {
    spec_var_prefix_bytes(v) + crate::spec_le32_bytes(crc32_of(v.value)) + v.key
        + seq![0u8] + v.value
}

/// The 24 serialized store-header bytes.
pub open spec fn spec_store_header_bytes(h: StoreHeader) -> Seq<u8> {
    store_signature() + crate::spec_le32_bytes(h.size)
        + crate::spec_le32_bytes(h.generation)
        + seq![h.state, h.flags, VARIABLE_STORE_VERSION, 0u8]
        + crate::spec_le32_bytes(h.system_size)
        + crate::spec_le32_bytes(h.common_size)
}

impl StoreHeader {
    /// Decodes a store header from the start of `nvr`, requiring the
    /// signature and the version byte.
    pub fn parse(nvr: &[u8]) -> (r: Result<StoreHeader, V3Error>)
        requires
            nvr@.len() >= STORE_HEADER_SIZE,
        ensures
            match r {
                Ok(h) => spec_parse_store_header(nvr@) == Some(h),
                Err(e) => spec_parse_store_header(nvr@) is None && e == V3Error::ParseError,
            },
    {
        let sig = vstd::slice::slice_subrange(nvr, 0, 4);
        let size = read_le32(nvr, 4);
        let generation = read_le32(nvr, 8);
        let state = nvr[12];
        let flags = nvr[13];
        let version = nvr[14];
        let system_size = read_le32(nvr, 16);
        let common_size = read_le32(nvr, 20);

        let mut expected: Vec<u8> = Vec::new();
        expected.push(0x33);
        expected.push(0x56);
        expected.push(0x56);
        expected.push(0x4E);
        proof {
            assert(expected@ =~= store_signature());
        }
        if !bytes_eq(sig, expected.as_slice()) {
            return Err(V3Error::ParseError);
        }
        if version != VARIABLE_STORE_VERSION {
            return Err(V3Error::ParseError);
        }
        Ok(StoreHeader { size, generation, state, flags, system_size, common_size })
    }

    /// Appends the 24 serialized header bytes to `v`.
    pub fn serialize(&self, v: &mut Vec<u8>)
        ensures
            final(v)@ == old(v)@ + spec_store_header_bytes(*self),
    {
        v.push(0x33);
        v.push(0x56);
        v.push(0x56);
        v.push(0x4E);
        crate::push_le32(v, self.size);
        crate::push_le32(v, self.generation);
        v.push(self.state);
        v.push(self.flags);
        v.push(VARIABLE_STORE_VERSION);
        v.push(0);
        crate::push_le32(v, self.system_size);
        crate::push_le32(v, self.common_size);
        proof {
            assert(v@ =~= old(v)@ + spec_store_header_bytes(*self));
        }
    }

    /// The declared store size in bytes.
    pub fn size(&self) -> (r: usize)
        ensures
            r == self.size as usize,
    {
        self.size as usize
    }
}

impl Variable {
    /// Bytes this record occupies on the medium.
    pub fn size(&self) -> (r: usize)
        requires
            spec_var_size(self@) <= usize::MAX,
        ensures
            r == spec_var_size(self@),
    {
        VAR_HEADER_SIZE + self.header.name_size as usize + self.header.data_size as usize
    }

    /// The namespace this record belongs to, read off its GUID.
    pub fn typ(&self) -> (t: VarType)
        ensures
            t == kind_of(self@.guid),
    {
        let sg = system_guid_bytes();
        if bytes_eq(self.header.guid.as_slice(), sg.as_slice()) {
            VarType::System
        } else {
            VarType::Common
        }
    }

    /// An owned copy of this record.
    pub fn duplicate(&self) -> (r: Variable)
        ensures
            r@ == self@,
    {
        Variable {
            header: VarHeader {
                state: self.header.state,
                attrs: self.header.attrs,
                name_size: self.header.name_size,
                data_size: self.header.data_size,
                guid: vstd::slice::slice_to_vec(self.header.guid.as_slice()),
            },
            key: vstd::slice::slice_to_vec(self.key.as_slice()),
            value: vstd::slice::slice_to_vec(self.value.as_slice()),
        }
    }

    /// Appends the serialized record — header, derived CRC, key with NUL,
    /// value — to `v`.
    pub fn serialize(&self, v: &mut Vec<u8>)
        ensures
            final(v)@ == old(v)@ + spec_var_bytes(self@),
    {
        crate::push_le16(v, VARIABLE_DATA);
        v.push(self.header.state);
        v.push(0);
        crate::push_le32(v, self.header.attrs);
        crate::push_le32(v, self.header.name_size);
        crate::push_le32(v, self.header.data_size);
        v.extend_from_slice(self.header.guid.as_slice());
        let c = crc32_sum(self.value.as_slice());
        crate::push_le32(v, c);
        v.extend_from_slice(self.key.as_slice());
        v.push(0);
        v.extend_from_slice(self.value.as_slice());
        proof {
            assert(v@ =~= old(v)@ + spec_var_bytes(self@));
        }
    }
}

/// The views of a sequence of records.
pub open spec fn views_of(s: Seq<Variable>) -> Seq<VarV> {
    s.map_values(|v: Variable| v@)
}

/// The concatenated serialized form of a record sequence, in log order.
pub open spec fn vars_bytes(vs: Seq<VarV>) -> Seq<u8>
    decreases vs.len(),
{
    if vs.len() == 0 {
        Seq::empty()
    } else {
        spec_var_bytes(vs[0]) + vars_bytes(vs.drop_first())
    }
}

pub proof fn lemma_vars_bytes_push(vs: Seq<VarV>, v: VarV)
    ensures
        vars_bytes(vs.push(v)) == vars_bytes(vs) + spec_var_bytes(v),
    decreases vs.len(),
{
    reveal_with_fuel(vars_bytes, 3);
    if vs.len() == 0 {
        assert(vs.push(v)[0] == v);
        assert(vs.push(v).drop_first() =~= Seq::<VarV>::empty());
        assert(vars_bytes(vs.push(v)) =~= vars_bytes(vs) + spec_var_bytes(v));
    } else {
        assert(vs.push(v)[0] == vs[0]);
        assert(vs.push(v).drop_first() =~= vs.drop_first().push(v));
        lemma_vars_bytes_push(vs.drop_first(), v);
        assert(vars_bytes(vs.push(v)) =~= spec_var_bytes(vs[0]) + (vars_bytes(vs.drop_first())
            + spec_var_bytes(v)));
        assert(vars_bytes(vs.push(v)) =~= vars_bytes(vs) + spec_var_bytes(v));
    }
}

/// Bytes the store header and every record of the log occupy together.
pub open spec fn sum_sizes(vs: Seq<VarV>) -> int
    decreases vs.len(),
{
    if vs.len() == 0 {
        0
    } else {
        spec_var_size(vs[0]) + sum_sizes(vs.drop_first())
    }
}

pub proof fn lemma_sum_sizes_push(vs: Seq<VarV>, v: VarV)
    ensures
        sum_sizes(vs.push(v)) == sum_sizes(vs) + spec_var_size(v),
    decreases vs.len(),
{
    reveal_with_fuel(sum_sizes, 3);
    if vs.len() == 0 {
        assert(vs.push(v)[0] == v);
        assert(vs.push(v).drop_first() =~= Seq::<VarV>::empty());
    } else {
        assert(vs.push(v)[0] == vs[0]);
        assert(vs.push(v).drop_first() =~= vs.drop_first().push(v));
        lemma_sum_sizes_push(vs.drop_first(), v);
    }
}

/// Decode of the store header at the start of a bank.
pub open spec fn spec_parse_store_header(b: Seq<u8>) -> Option<StoreHeader> {
    if b.len() >= STORE_HEADER_SIZE && b.subrange(0, 4) == store_signature() && b[14]
        == VARIABLE_STORE_VERSION {
        Some(
            StoreHeader {
                size: crate::spec_le32_val(b.subrange(4, 8)),
                generation: crate::spec_le32_val(b.subrange(8, 12)),
                state: b[12],
                flags: b[13],
                system_size: crate::spec_le32_val(b.subrange(16, 20)),
                common_size: crate::spec_le32_val(b.subrange(20, 24)),
            },
        )
    } else {
        None
    }
}

/// True when the 36 bytes at `offset` hold only `0x00` and `0xFF`: the
/// walk of the log treats such a block as its end.
pub open spec fn is_end_marker(b: Seq<u8>, offset: int) -> bool {
    forall|j: int|
        0 <= j < VAR_HEADER_SIZE ==> (#[trigger] b[offset + j] == 0 || b[offset + j] == 0xFF)
}

/// Decode of one record at `offset`: start marker, fields, bounds and CRC
/// all checked.
pub open spec fn spec_parse_var(b: Seq<u8>, offset: int) -> Option<VarV> {
    let start_id = crate::spec_le16_val(b.subrange(offset, offset + 2));
    let state = b[offset + 2];
    let attrs = crate::spec_le32_val(b.subrange(offset + 4, offset + 8));
    let name_size = crate::spec_le32_val(b.subrange(offset + 8, offset + 12));
    let data_size = crate::spec_le32_val(b.subrange(offset + 12, offset + 16));
    let guid = b.subrange(offset + 16, offset + 32);
    let crc = crate::spec_le32_val(b.subrange(offset + 32, offset + 36));
    if start_id != VARIABLE_DATA {
        None
    } else if name_size == 0 {
        None
    } else if offset + VAR_HEADER_SIZE + name_size + data_size > b.len() {
        None
    } else {
        let key = b.subrange(offset + 36, offset + 36 + name_size - 1);
        let value = b.subrange(offset + 36 + name_size, offset + 36 + name_size + data_size);
        if crc32_of(value) != crc {
            None
        } else {
            Some(VarV { state, attrs, name_size, data_size, guid, key, value })
        }
    }
}

/// Decode of the log from `offset` up to the store boundary `end`.  `None`
/// is a malformed record; the walk otherwise stops at an end marker or
/// when fewer than a record header of bytes is left.
pub open spec fn spec_parse_records(b: Seq<u8>, offset: int, end: int) -> Option<Seq<VarV>>
    decreases b.len() - offset
        when 0 <= offset <= b.len()
{
    if !(offset + VAR_HEADER_SIZE < end && end <= b.len()) {
        Some(Seq::empty())
    } else if is_end_marker(b, offset) {
        Some(Seq::empty())
    } else {
        match spec_parse_var(b, offset) {
            Option::None => None,
            Option::Some(v) => match spec_parse_records(b, offset + spec_var_size(v), end) {
                Option::None => None,
                Option::Some(rest) => Some(seq![v] + rest),
            },
        }
    }
}

/// Every record a successful log decode yields is well formed, and the
/// records together fit in the window after `offset`.
pub proof fn lemma_records_wf(b: Seq<u8>, offset: int, end: int, vs: Seq<VarV>)
    requires
        spec_parse_records(b, offset, end) == Some(vs),
        0 <= offset <= b.len(),
    ensures
        forall|i: int| 0 <= i < vs.len() ==> var_wf(#[trigger] vs[i]),
        sum_sizes(vs) <= b.len() - offset,
    decreases b.len() - offset,
{
    if !(offset + VAR_HEADER_SIZE < end && end <= b.len()) {
    } else if is_end_marker(b, offset) {
    } else {
        match spec_parse_var(b, offset) {
            Option::None => {},
            Option::Some(v) => {
                assert(var_wf(v));
                match spec_parse_records(b, offset + spec_var_size(v), end) {
                    Option::None => {},
                    Option::Some(rest) => {
                        lemma_records_wf(b, offset + spec_var_size(v), end, rest);
                        assert(vs =~= seq![v] + rest);
                        assert(vs.drop_first() =~= rest);
                    },
                }
            },
        }
    }
}

/// What a bank of the image holds.
pub enum BankState {
    Valid(PartV),
    Empty,
    Invalid,
}

/// The mathematical content of one bank: its header and its record log in
/// order.
#[verifier::ext_equal]
pub struct PartV {
    pub header: StoreHeader,
    pub vars: Seq<VarV>,
}

/// True when every byte of the bank is `0xFF`.
pub open spec fn is_all_ff(b: Seq<u8>) -> bool {
    forall|i: int| 0 <= i < b.len() ==> b[i] == 0xFF
}

/// The store boundary the log walk runs to: the declared store size,
/// clamped to the window.
pub open spec fn spec_store_end(h: StoreHeader, b: Seq<u8>) -> int {
    if h.size as int <= b.len() {
        h.size as int
    } else {
        b.len() as int
    }
}

/// Decode of one whole bank.
pub open spec fn spec_parse_partition(b: Seq<u8>) -> BankState {
    match spec_parse_store_header(b) {
        Option::Some(h) => match spec_parse_records(
            b,
            STORE_HEADER_SIZE as int,
            spec_store_end(h, b),
        ) {
            Option::Some(vs) => BankState::Valid(PartV { header: h, vars: vs }),
            Option::None => BankState::Invalid,
        },
        Option::None => if is_all_ff(b) {
            BankState::Empty
        } else {
            BankState::Invalid
        },
    }
}

/// One bank of a v3 store: its header and the record log, oldest first.
#[derive(Debug)]
pub struct Partition {
    pub header: StoreHeader,
    pub values: Vec<Variable>,
}

impl View for Partition {
    type V = PartV;

    open spec fn view(&self) -> PartV {
        PartV { header: self.header, vars: views_of(self.values@) }
    }
}

/// The serialized content of a bank before padding: header then records.
pub open spec fn spec_part_content(p: PartV) -> Seq<u8> {
    spec_store_header_bytes(p.header) + vars_bytes(p.vars)
}

/// The full serialized bank: content padded with `0xFF` up to the declared
/// store size.
pub open spec fn spec_part_bytes(p: PartV) -> Seq<u8> {
    let content = spec_part_content(p);
    if content.len() >= p.header.size {
        content
    } else {
        content + Seq::new((p.header.size - content.len()) as nat, |i: int| 0xFFu8)
    }
}

/// Store-header size plus every record of the log, tombstoned ones
/// included.
pub open spec fn spec_total_used(p: PartV) -> int {
    STORE_HEADER_SIZE + sum_sizes(p.vars)
}

impl Partition {
    /// Every record of the log is structurally well formed.
    pub open spec fn wf(&self) -> bool {
        forall|i: int| 0 <= i < self@.vars.len() ==> var_wf(#[trigger] self@.vars[i])
    }

    /// The bank's generation counter.
    pub fn generation(&self) -> (r: u32)
        ensures
            r == self@.header.generation,
    {
        self.header.generation
    }

    /// Appends the serialized bank — header, records in log order, `0xFF`
    /// padding up to the declared size — to `v`.
    pub fn serialize(&self, v: &mut Vec<u8>)
        ensures
            final(v)@ == old(v)@ + spec_part_bytes(self@),
    {
        let start_size = v.len();
        self.header.serialize(v);
        let mut i: usize = 0;
        while i < self.values.len()
            invariant
                i <= self.values@.len(),
                v@ == old(v)@ + spec_store_header_bytes(self.header) + vars_bytes(
                    views_of(self.values@.take(i as int)),
                ),
            decreases self.values@.len() - i,
        {
            let var = &self.values[i];
            var.serialize(v);
            proof {
                assert(views_of(self.values@.take(i + 1)) =~= views_of(
                    self.values@.take(i as int),
                ).push(self.values@[i as int]@));
                lemma_vars_bytes_push(views_of(self.values@.take(i as int)), self.values@[i as int]@);
            }
            i = i + 1;
        }
        proof {
            assert(self.values@.take(self.values@.len() as int) =~= self.values@);
        }
        let size = self.header.size();
        let mut written: usize = v.len() - start_size;
        proof {
            assert(v@ == old(v)@ + spec_part_content(self@));
            assert(v@ =~= old(v)@ + spec_part_content(self@) + Seq::new(
                (written - spec_part_content(self@).len()) as nat,
                |j: int| 0xFFu8,
            ));
        }
        while written < size
            invariant
                spec_part_content(self@).len() <= written <= v@.len(),
                written == spec_part_content(self@).len() || written <= size,
                size == self@.header.size,
                v@ == old(v)@ + spec_part_content(self@) + Seq::new(
                    (written - spec_part_content(self@).len()) as nat,
                    |j: int| 0xFFu8,
                ),
            decreases size - written,
        {
            v.push(0xFF);
            written = written + 1;
            proof {
                assert(v@ =~= old(v)@ + spec_part_content(self@) + Seq::new(
                    (written - spec_part_content(self@).len()) as nat,
                    |j: int| 0xFFu8,
                ));
            }
        }
        proof {
            if spec_part_content(self@).len() >= self@.header.size {
                assert(v@ =~= old(v)@ + spec_part_bytes(self@));
            } else {
                assert(v@ =~= old(v)@ + spec_part_bytes(self@));
            }
        }
    }

    /// Decodes one bank window.  `Empty` classifies a window of pure
    /// `0xFF`; any other undecodable window is a parse error.
    pub fn parse(nvr: &[u8]) -> (r: Result<Partition, V3Error>)
        ensures
            match r {
                Ok(p) => spec_parse_partition(nvr@) == BankState::Valid(p@) && p.wf(),
                Err(e) => match e {
                    V3Error::Empty => spec_parse_partition(nvr@) == BankState::Empty,
                    V3Error::ParseError => spec_parse_partition(nvr@) == BankState::Invalid,
                },
            },
    {
        let n = nvr.len();
        if n >= STORE_HEADER_SIZE {
            match StoreHeader::parse(nvr) {
                Ok(header) => {
                    let size = header.size();
                    let end = if size < n {
                        size
                    } else {
                        n
                    };
                    proof {
                        assert(end as int == spec_store_end(header, nvr@));
                    }
                    match Self::parse_records(nvr, end) {
                        Ok(values) => {
                            let p = Partition { header, values };
                            proof {
                                lemma_records_wf(
                                    nvr@,
                                    STORE_HEADER_SIZE as int,
                                    end as int,
                                    p@.vars,
                                );
                            }
                            Ok(p)
                        },
                        Err(e) => Err(e),
                    }
                },
                Err(_) => {
                    if Self::all_ff(nvr) {
                        Err(V3Error::Empty)
                    } else {
                        Err(V3Error::ParseError)
                    }
                },
            }
        } else {
            if Self::all_ff(nvr) {
                Err(V3Error::Empty)
            } else {
                Err(V3Error::ParseError)
            }
        }
    }

    /// True when every byte of the window is `0xFF`.
    fn all_ff(nvr: &[u8]) -> (r: bool)
        ensures
            r == is_all_ff(nvr@),
    {
        let mut i: usize = 0;
        while i < nvr.len()
            invariant
                i <= nvr@.len(),
                forall|j: int| 0 <= j < i ==> nvr@[j] == 0xFF,
            decreases nvr@.len() - i,
        {
            if nvr[i] != 0xFF {
                return false;
            }
            i = i + 1;
        }
        true
    }

    /// Walks the record log of a decoded store up to `end`.
    fn parse_records(nvr: &[u8], end: usize) -> (r: Result<Vec<Variable>, V3Error>)
        requires
            STORE_HEADER_SIZE <= nvr@.len(),
            end <= nvr@.len(),
        ensures
            match r {
                Ok(vs) => spec_parse_records(nvr@, STORE_HEADER_SIZE as int, end as int) == Some(
                    views_of(vs@),
                ),
                Err(e) => e == V3Error::ParseError && spec_parse_records(
                    nvr@,
                    STORE_HEADER_SIZE as int,
                    end as int,
                ) is None,
            },
    {
        let n = nvr.len();
        let mut values: Vec<Variable> = Vec::new();
        let mut offset: usize = STORE_HEADER_SIZE;
        proof {
            assert(views_of(values@) =~= Seq::<VarV>::empty());
        }
        while offset < end && end - offset > VAR_HEADER_SIZE
            invariant
                STORE_HEADER_SIZE <= offset <= nvr@.len(),
                end <= nvr@.len(),
                n == nvr@.len(),
                match spec_parse_records(nvr@, offset as int, end as int) {
                    Option::Some(rest) => spec_parse_records(
                        nvr@,
                        STORE_HEADER_SIZE as int,
                        end as int,
                    ) == Some(views_of(values@) + rest),
                    Option::None => spec_parse_records(
                        nvr@,
                        STORE_HEADER_SIZE as int,
                        end as int,
                    ) is None,
                },
            decreases nvr@.len() - offset,
        {
            // a block of pure 0x00/0xFF filler ends the log
            let mut empty = true;
            let mut i: usize = 0;
            while i < VAR_HEADER_SIZE
                invariant
                    i <= VAR_HEADER_SIZE,
                    n == nvr@.len(),
                    offset + VAR_HEADER_SIZE <= n,
                    empty == (forall|j: int|
                        0 <= j < i ==> (#[trigger] nvr@[offset + j] == 0 || nvr@[offset + j]
                            == 0xFF)),
                decreases VAR_HEADER_SIZE - i,
            {
                let b = nvr[offset + i];
                if b != 0 && b != 0xFF {
                    empty = false;
                }
                i = i + 1;
            }
            if empty {
                proof {
                    assert(is_end_marker(nvr@, offset as int));
                    assert(spec_parse_records(nvr@, offset as int, end as int) == Some(
                        Seq::<VarV>::empty(),
                    ));
                    assert(views_of(values@) + Seq::<VarV>::empty() =~= views_of(values@));
                }
                return Ok(values);
            }
            let start_id = read_le16(nvr, offset);
            let state = nvr[offset + 2];
            let attrs = read_le32(nvr, offset + 4);
            let name_size = read_le32(nvr, offset + 8);
            let data_size = read_le32(nvr, offset + 12);
            let guid_slice = vstd::slice::slice_subrange(nvr, offset + 16, offset + 32);
            let crc = read_le32(nvr, offset + 32);
            if start_id != VARIABLE_DATA {
                return Err(V3Error::ParseError);
            }
            if name_size == 0 {
                return Err(V3Error::ParseError);
            }
            let ns = name_size as usize;
            let ds = data_size as usize;
            let room = n - (offset + VAR_HEADER_SIZE);
            if ns > room || ds > room - ns {
                return Err(V3Error::ParseError);
            }
            let k_begin = offset + VAR_HEADER_SIZE;
            let k_end = k_begin + ns;
            let key_slice = vstd::slice::slice_subrange(nvr, k_begin, k_end - 1);
            let value_slice = vstd::slice::slice_subrange(nvr, k_end, k_end + ds);
            let c = crc32_sum(value_slice);
            if c != crc {
                return Err(V3Error::ParseError);
            }
            let var = Variable {
                header: VarHeader {
                    state,
                    attrs,
                    name_size,
                    data_size,
                    guid: vstd::slice::slice_to_vec(guid_slice),
                },
                key: vstd::slice::slice_to_vec(key_slice),
                value: vstd::slice::slice_to_vec(value_slice),
            };
            proof {
                assert(spec_parse_var(nvr@, offset as int) == Some(var@));
                assert(views_of(values@.push(var)) =~= views_of(values@).push(var@));
                let rest0 = spec_parse_records(nvr@, offset as int, end as int);
                let next = offset + spec_var_size(var@);
                match spec_parse_records(nvr@, next, end as int) {
                    Option::Some(rest) => {
                        assert(rest0 == Some(seq![var@] + rest));
                        assert(views_of(values@) + (seq![var@] + rest) =~= views_of(
                            values@.push(var),
                        ) + rest);
                    },
                    Option::None => {
                        assert(rest0 is None);
                    },
                }
            }
            values.push(var);
            offset = k_end + ds;
        }
        proof {
            assert(spec_parse_records(nvr@, offset as int, end as int) == Some(
                Seq::<VarV>::empty(),
            ));
            assert(views_of(values@) + Seq::<VarV>::empty() =~= views_of(values@));
        }
        Ok(values)
    }
}

/// True when a record is the live instance of `(key, t)`.
pub open spec fn is_live_match(v: VarV, key: Seq<u8>, t: VarType) -> bool {
    v.key == key && kind_of(v.guid) == t && v.state == VAR_ADDED
}

/// The first live record for `(key, t)` in log order, if any.
pub open spec fn spec_get_live(vs: Seq<VarV>, key: Seq<u8>, t: VarType) -> Option<VarV>
    decreases vs.len(),
{
    if vs.len() == 0 {
        None
    } else if is_live_match(vs[0], key, t) {
        Some(vs[0])
    } else {
        spec_get_live(vs.drop_first(), key, t)
    }
}

/// A record with its state bits cleared to the superseded state, all else
/// unchanged.
pub open spec fn spec_tombstoned(v: VarV) -> VarV {
    VarV { state: v.state & VAR_DELETED & VAR_IN_DELETED_TRANSITION, ..v }
}

/// A tombstoned live record carries exactly the superseded state.
pub proof fn lemma_tombstoned_live(v: VarV)
    requires
        v.state == VAR_ADDED,
    ensures
        spec_tombstoned(v).state == superseded_state(),
        superseded_state() == 0x7C,
{
    assert(0x7Fu8 & 0xFDu8 & 0xFEu8 == 0x7Cu8) by (bit_vector);
}

/// The log after every live record for `(key, t)` has been tombstoned.
pub open spec fn spec_tombstone(vs: Seq<VarV>, key: Seq<u8>, t: VarType) -> Seq<VarV> {
    Seq::new(
        vs.len(),
        |i: int|
            if is_live_match(vs[i], key, t) {
                spec_tombstoned(vs[i])
            } else {
                vs[i]
            },
    )
}

/// The record appended for an insert of `(key, value, t)`.
pub open spec fn spec_new_var(key: Seq<u8>, value: Seq<u8>, t: VarType) -> VarV {
    VarV {
        state: VAR_ADDED,
        attrs: 0,
        name_size: (key.len() + 1) as u32,
        data_size: value.len() as u32,
        guid: guid_of(t),
        key: key,
        value: value,
    }
}

/// The live records of a log, in order.
pub open spec fn live_only(vs: Seq<VarV>) -> Seq<VarV>
    decreases vs.len(),
{
    if vs.len() == 0 {
        Seq::empty()
    } else if vs[0].state == VAR_ADDED {
        seq![vs[0]] + live_only(vs.drop_first())
    } else {
        live_only(vs.drop_first())
    }
}

pub proof fn lemma_live_only_push(vs: Seq<VarV>, v: VarV)
    ensures
        live_only(vs.push(v)) == if v.state == VAR_ADDED {
            live_only(vs).push(v)
        } else {
            live_only(vs)
        },
    decreases vs.len(),
{
    reveal_with_fuel(live_only, 3);
    if vs.len() == 0 {
        assert(vs.push(v)[0] == v);
        assert(vs.push(v).drop_first() =~= Seq::<VarV>::empty());
        if v.state == VAR_ADDED {
            assert(live_only(vs.push(v)) =~= live_only(vs).push(v));
        }
    } else {
        assert(vs.push(v)[0] == vs[0]);
        assert(vs.push(v).drop_first() =~= vs.drop_first().push(v));
        lemma_live_only_push(vs.drop_first(), v);
        if v.state == VAR_ADDED {
            assert(live_only(vs.push(v)) =~= live_only(vs).push(v));
        }
    }
}

/// The summed size of the live records carrying `guid`.
pub open spec fn sum_used(vs: Seq<VarV>, guid: Seq<u8>) -> int
    decreases vs.len(),
{
    if vs.len() == 0 {
        0
    } else {
        (if vs[0].state == VAR_ADDED && vs[0].guid == guid {
            spec_var_size(vs[0])
        } else {
            0
        }) + sum_used(vs.drop_first(), guid)
    }
}

pub proof fn lemma_sum_used_push(vs: Seq<VarV>, guid: Seq<u8>, v: VarV)
    ensures
        sum_used(vs.push(v), guid) == sum_used(vs, guid) + if v.state == VAR_ADDED && v.guid
            == guid {
            spec_var_size(v)
        } else {
            0
        },
    decreases vs.len(),
{
    reveal_with_fuel(sum_used, 3);
    if vs.len() == 0 {
        assert(vs.push(v)[0] == v);
        assert(vs.push(v).drop_first() =~= Seq::<VarV>::empty());
    } else {
        assert(vs.push(v)[0] == vs[0]);
        assert(vs.push(v).drop_first() =~= vs.drop_first().push(v));
        lemma_sum_used_push(vs.drop_first(), guid, v);
    }
}

/// Record sizes are nonnegative, so every partial sum is bounded by the
/// whole, and the used sums are bounded by the total.
pub proof fn lemma_sums_bounds(vs: Seq<VarV>, guid: Seq<u8>)
    ensures
        0 <= sum_sizes(vs),
        0 <= sum_used(vs, guid) <= sum_sizes(vs),
    decreases vs.len(),
{
    if vs.len() > 0 {
        lemma_sums_bounds(vs.drop_first(), guid);
    }
}

/// A prefix of the log never sums to more than the whole log.
pub proof fn lemma_sum_sizes_prefix(vs: Seq<VarV>, i: int)
    requires
        0 <= i <= vs.len(),
    ensures
        sum_sizes(vs.take(i)) <= sum_sizes(vs),
    decreases i,
{
    if i == 0 {
        assert(vs.take(0) =~= Seq::<VarV>::empty());
        lemma_sums_bounds(vs, Seq::empty());
    } else {
        lemma_sum_sizes_prefix(vs, i - 1);
        assert(vs.take(i) =~= vs.take(i - 1).push(vs[i - 1]));
        lemma_sum_sizes_push(vs.take(i - 1), vs[i - 1]);
        lemma_sum_sizes_suffix_ge(vs, i);
    }
}

/// Helper: the sum over the whole log is at least the sum over a prefix
/// plus the size of the next record.
proof fn lemma_sum_sizes_suffix_ge(vs: Seq<VarV>, i: int)
    requires
        0 < i <= vs.len(),
    ensures
        sum_sizes(vs) >= sum_sizes(vs.take(i - 1)) + spec_var_size(vs[i - 1]),
    decreases vs.len(),
{
    if i == 1 {
        assert(vs.take(0) =~= Seq::<VarV>::empty());
        lemma_sums_bounds(vs.drop_first(), Seq::empty());
    } else {
        lemma_sum_sizes_suffix_ge(vs.drop_first(), i - 1);
        assert(vs.drop_first().take(i - 2) =~= vs.take(i - 1).drop_first());
        assert(vs.take(i - 1)[0] == vs[0]);
        assert(vs.drop_first()[i - 2] == vs[i - 1]);
    }
}

impl Partition {
    /// The first live record for `(key, typ)` in log order.
    pub fn get_variable(&self, key: &[u8], typ: VarType) -> (r: Option<&Variable>)
        ensures
            match r {
                Some(v) => spec_get_live(self@.vars, key@, typ) == Some(v@),
                None => spec_get_live(self@.vars, key@, typ) is None,
            },
    {
        let ghost vs = self@.vars;
        let mut i: usize = 0;
        proof {
            assert(vs.skip(0) =~= vs);
        }
        while i < self.values.len()
            invariant
                i <= self.values@.len(),
                vs == self@.vars,
                spec_get_live(vs, key@, typ) == spec_get_live(vs.skip(i as int), key@, typ),
            decreases self.values@.len() - i,
        {
            let var = &self.values[i];
            proof {
                assert(vs.skip(i as int)[0] == vs[i as int]);
                assert(vs.skip(i as int).drop_first() =~= vs.skip(i + 1));
            }
            if var.header.state == VAR_ADDED && bytes_eq(var.key.as_slice(), key) && var.typ()
                == typ {
                return Some(var);
            }
            i = i + 1;
        }
        None
    }

    /// Tombstones every live record for `(key, typ)`.
    pub fn remove_variable(&mut self, key: &[u8], typ: VarType)
        ensures
            final(self)@.header == old(self)@.header,
            final(self)@.vars == spec_tombstone(old(self)@.vars, key@, typ),
    {
        let ghost vs = old(self)@.vars;
        let mut i: usize = 0;
        while i < self.values.len()
            invariant
                i <= self.values@.len(),
                self.values@.len() == vs.len(),
                self.header == old(self).header,
                vs == old(self)@.vars,
                forall|j: int|
                    0 <= j < vs.len() ==> #[trigger] self.values@[j]@ == (if j < i
                        && is_live_match(vs[j], key@, typ) {
                        spec_tombstoned(vs[j])
                    } else {
                        vs[j]
                    }),
            decreases self.values@.len() - i,
        {
            let hit = {
                let var = &self.values[i];
                var.header.state == VAR_ADDED && bytes_eq(var.key.as_slice(), key) && var.typ()
                    == typ
            };
            if hit {
                let var = vstd::std_specs::vec::vec_index_mut(&mut self.values, i);
                var.header.state = var.header.state & VAR_DELETED & VAR_IN_DELETED_TRANSITION;
            }
            i = i + 1;
        }
        proof {
            assert(final(self)@.vars =~= spec_tombstone(vs, key@, typ));
        }
    }

    /// Tombstones every live record for `(key, typ)` and appends a fresh
    /// live record holding `value`.
    pub fn insert_variable(&mut self, key: &[u8], value: &[u8], typ: VarType)
        requires
            key@.len() + 1 <= u32::MAX,
            value@.len() <= u32::MAX,
        ensures
            final(self)@.header == old(self)@.header,
            final(self)@.vars == spec_tombstone(old(self)@.vars, key@, typ).push(
                spec_new_var(key@, value@, typ),
            ),
    {
        self.remove_variable(key, typ);
        let guid = match typ {
            VarType::Common => common_guid_bytes(),
            VarType::System => system_guid_bytes(),
        };
        let var = Variable {
            header: VarHeader {
                state: VAR_ADDED,
                attrs: 0,
                name_size: (key.len() + 1) as u32,
                data_size: value.len() as u32,
                guid,
            },
            key: vstd::slice::slice_to_vec(key),
            value: vstd::slice::slice_to_vec(value),
        };
        proof {
            assert(var@ =~= spec_new_var(key@, value@, typ));
        }
        self.values.push(var);
        proof {
            assert(final(self)@.vars =~= spec_tombstone(old(self)@.vars, key@, typ).push(
                spec_new_var(key@, value@, typ),
            ));
        }
    }

    /// Store-header size plus the size of every record, tombstoned ones
    /// included.
    pub fn total_used(&self) -> (r: usize)
        requires
            spec_total_used(self@) <= usize::MAX,
        ensures
            r == spec_total_used(self@),
    {
        let ghost vs = self@.vars;
        let mut acc: usize = STORE_HEADER_SIZE;
        let mut i: usize = 0;
        proof {
            assert(vs.take(0) =~= Seq::<VarV>::empty());
        }
        while i < self.values.len()
            invariant
                i <= self.values@.len(),
                vs == self@.vars,
                spec_total_used(self@) <= usize::MAX,
                acc == STORE_HEADER_SIZE + sum_sizes(vs.take(i as int)),
            decreases self.values@.len() - i,
        {
            proof {
                lemma_sum_sizes_suffix_ge(vs, i + 1);
                lemma_sums_bounds(vs.take(i as int), Seq::empty());
            }
            let var = &self.values[i];
            let sz = var.size();
            acc = acc + sz;
            proof {
                assert(vs.take(i + 1) =~= vs.take(i as int).push(vs[i as int]));
                lemma_sum_sizes_push(vs.take(i as int), vs[i as int]);
            }
            i = i + 1;
        }
        proof {
            assert(vs.take(vs.len() as int) =~= vs);
        }
        acc
    }

    /// The summed size of the live records carrying `guid`.
    fn used_with_guid(&self, guid: &[u8]) -> (r: usize)
        requires
            spec_total_used(self@) <= usize::MAX,
        ensures
            r == sum_used(self@.vars, guid@),
    {
        let ghost vs = self@.vars;
        let mut acc: usize = 0;
        let mut i: usize = 0;
        proof {
            assert(vs.take(0) =~= Seq::<VarV>::empty());
        }
        while i < self.values.len()
            invariant
                i <= self.values@.len(),
                vs == self@.vars,
                spec_total_used(self@) <= usize::MAX,
                acc == sum_used(vs.take(i as int), guid@),
            decreases self.values@.len() - i,
        {
            proof {
                lemma_sum_sizes_suffix_ge(vs, i + 1);
                lemma_sums_bounds(vs.take(i as int), guid@);
                lemma_sum_used_push(vs.take(i as int), guid@, vs[i as int]);
                assert(vs.take(i + 1) =~= vs.take(i as int).push(vs[i as int]));
                lemma_sum_sizes_prefix(vs, i + 1);
                lemma_sum_sizes_push(vs.take(i as int), vs[i as int]);
                lemma_sums_bounds(vs.take(i + 1), guid@);
            }
            let var = &self.values[i];
            if var.header.state == VAR_ADDED && bytes_eq(var.header.guid.as_slice(), guid) {
                let sz = var.size();
                acc = acc + sz;
            }
            i = i + 1;
        }
        proof {
            assert(vs.take(vs.len() as int) =~= vs);
        }
        acc
    }

    /// The summed size of live system-namespace records.
    pub fn system_used(&self) -> (r: usize)
        requires
            spec_total_used(self@) <= usize::MAX,
        ensures
            r == sum_used(self@.vars, system_guid()),
    {
        let g = system_guid_bytes();
        self.used_with_guid(g.as_slice())
    }

    /// The summed size of live common-namespace records.
    pub fn common_used(&self) -> (r: usize)
        requires
            spec_total_used(self@) <= usize::MAX,
        ensures
            r == sum_used(self@.vars, common_guid()),
    {
        let g = common_guid_bytes();
        self.used_with_guid(g.as_slice())
    }

    /// The system-namespace quota of this bank.
    pub fn system_size(&self) -> (r: usize)
        ensures
            r == self@.header.system_size as usize,
    {
        self.header.system_size as usize
    }

    /// The common-namespace quota of this bank.
    pub fn common_size(&self) -> (r: usize)
        ensures
            r == self@.header.common_size as usize,
    {
        self.header.common_size as usize
    }

    /// A new bank holding only the live records of this one, with the
    /// generation advanced by one.
    pub fn clone_active(&self) -> (r: Partition)
        requires
            self@.header.generation < u32::MAX,
        ensures
            r@.header == (StoreHeader {
                generation: (self@.header.generation + 1) as u32,
                ..self@.header
            }),
            r@.vars == live_only(self@.vars),
    {
        let ghost vs = self@.vars;
        let header = StoreHeader {
            size: self.header.size,
            generation: self.header.generation + 1,
            state: self.header.state,
            flags: self.header.flags,
            system_size: self.header.system_size,
            common_size: self.header.common_size,
        };
        let mut values: Vec<Variable> = Vec::new();
        let mut i: usize = 0;
        proof {
            assert(vs.take(0) =~= Seq::<VarV>::empty());
            assert(views_of(values@) =~= live_only(vs.take(0)));
        }
        while i < self.values.len()
            invariant
                i <= self.values@.len(),
                vs == self@.vars,
                views_of(values@) == live_only(vs.take(i as int)),
            decreases self.values@.len() - i,
        {
            let var = &self.values[i];
            if var.header.state == VAR_ADDED {
                values.push(var.duplicate());
            }
            proof {
                assert(vs.take(i + 1) =~= vs.take(i as int).push(vs[i as int]));
                lemma_live_only_push(vs.take(i as int), vs[i as int]);
                if vs[i as int].state == VAR_ADDED {
                    assert(views_of(values@) =~= live_only(vs.take(i + 1)));
                } else {
                    assert(views_of(values@) =~= live_only(vs.take(i + 1)));
                }
            }
            i = i + 1;
        }
        proof {
            assert(vs.take(vs.len() as int) =~= vs);
        }
        Partition { header, values }
    }
}

/// A bank slot of the container.
#[derive(Debug)]
pub enum Slot<T> {
    Valid(T),
    Invalid,
    Empty,
}

impl<T> Slot<T> {
    /// Converts `&Slot<T>` to `Slot<&T>`.
    pub fn as_ref(&self) -> (r: Slot<&T>)
        ensures
            match *self {
                Slot::Valid(ref v) => r matches Slot::Valid(rv) && rv == v,
                Slot::Invalid => r is Invalid,
                Slot::Empty => r is Empty,
            },
    {
        match self {
            Slot::Valid(v) => Slot::Valid(v),
            Slot::Invalid => Slot::Invalid,
            Slot::Empty => Slot::Empty,
        }
    }

    /// Takes the payload of a valid slot.
    pub fn unwrap(self) -> (r: T)
        requires
            self is Valid,
        ensures
            match self {
                Slot::Valid(v) => r == v,
                _ => false,
            },
    {
        match self {
            Slot::Valid(v) => v,
            _ => vstd::pervasive::unreached(),
        }
    }

    /// True for an empty slot.
    pub fn empty(&self) -> (r: bool)
        ensures
            r == (*self is Empty),
    {
        match self {
            Slot::Empty => true,
            _ => false,
        }
    }
}

/// What a bank slot holds, as contracts see it.
pub open spec fn bank_view(s: Slot<Partition>) -> BankState {
    match s {
        Slot::Valid(p) => BankState::Valid(p@),
        Slot::Invalid => BankState::Invalid,
        Slot::Empty => BankState::Empty,
    }
}

/// The views of a sequence of bank slots.
pub open spec fn banks_of(ps: Seq<Slot<Partition>>) -> Seq<BankState> {
    ps.map_values(|s: Slot<Partition>| bank_view(s))
}

/// The window of bank `i` within an image.
pub open spec fn spec_bank_window(b: Seq<u8>, i: int) -> Seq<u8> {
    b.subrange(i * PARTITION_SIZE, (i + 1) * PARTITION_SIZE)
}

/// How many banks an image holds: its size in whole banks, capped.
pub open spec fn spec_bank_count(b: Seq<u8>) -> int {
    let c = b.len() as int / PARTITION_SIZE as int;
    if c <= MAX_BANKS {
        c
    } else {
        MAX_BANKS as int
    }
}

/// Decode of every bank window of an image.
pub open spec fn spec_parse_banks(b: Seq<u8>) -> Seq<BankState> {
    Seq::new(spec_bank_count(b) as nat, |i: int| spec_parse_partition(spec_bank_window(b, i)))
}

/// The election fold: walks the banks from `i`, carrying the index and
/// generation of the leader so far; a later valid bank takes over only
/// with a strictly greater generation.
pub open spec fn spec_pick_from(banks: Seq<BankState>, i: int, cur: Option<(int, u32)>) -> Option<
    (int, u32),
>
    decreases banks.len() - i,
{
    if i < 0 || i >= banks.len() {
        cur
    } else {
        let next = match banks[i] {
            BankState::Valid(p) => match cur {
                Option::None => Some((i, p.header.generation)),
                Option::Some((j, g)) => if p.header.generation > g {
                    Some((i, p.header.generation))
                } else {
                    cur
                },
            },
            _ => cur,
        };
        spec_pick_from(banks, i + 1, next)
    }
}

/// The active bank of an image: the valid bank with the greatest
/// generation, earliest index winning ties.  `None` when no bank is valid.
pub open spec fn spec_pick_active(banks: Seq<BankState>) -> Option<(int, u32)> {
    spec_pick_from(banks, 0, None)
}

/// The valid banks of an image, in order.
pub open spec fn valid_parts(banks: Seq<BankState>) -> Seq<PartV>
    decreases banks.len(),
{
    if banks.len() == 0 {
        Seq::empty()
    } else {
        (match banks[0] {
            BankState::Valid(p) => seq![p],
            _ => Seq::empty(),
        }) + valid_parts(banks.drop_first())
    }
}

pub proof fn lemma_valid_parts_push(banks: Seq<BankState>, b: BankState)
    ensures
        valid_parts(banks.push(b)) == valid_parts(banks) + (match b {
            BankState::Valid(p) => seq![p],
            _ => Seq::<PartV>::empty(),
        }),
    decreases banks.len(),
{
    reveal_with_fuel(valid_parts, 3);
    if banks.len() == 0 {
        assert(banks.push(b)[0] == b);
        assert(banks.push(b).drop_first() =~= Seq::<BankState>::empty());
        match b {
            BankState::Valid(p) => {
                assert(valid_parts(banks.push(b)) =~= valid_parts(banks) + seq![p]);
            },
            _ => {
                assert(valid_parts(banks.push(b)) =~= valid_parts(banks));
            },
        }
    } else {
        assert(banks.push(b)[0] == banks[0]);
        assert(banks.push(b).drop_first() =~= banks.drop_first().push(b));
        lemma_valid_parts_push(banks.drop_first(), b);
        match b {
            BankState::Valid(p) => {
                assert(valid_parts(banks.push(b)) =~= valid_parts(banks) + seq![p]);
            },
            _ => {
                assert(valid_parts(banks.push(b)) =~= valid_parts(banks));
            },
        }
    }
}

/// The concatenated serialization of a sequence of banks.
pub open spec fn parts_bytes(ps: Seq<PartV>) -> Seq<u8>
    decreases ps.len(),
{
    if ps.len() == 0 {
        Seq::empty()
    } else {
        spec_part_bytes(ps[0]) + parts_bytes(ps.drop_first())
    }
}

pub proof fn lemma_parts_bytes_push(ps: Seq<PartV>, p: PartV)
    ensures
        parts_bytes(ps.push(p)) == parts_bytes(ps) + spec_part_bytes(p),
    decreases ps.len(),
{
    reveal_with_fuel(parts_bytes, 3);
    if ps.len() == 0 {
        assert(ps.push(p)[0] == p);
        assert(ps.push(p).drop_first() =~= Seq::<PartV>::empty());
        assert(parts_bytes(ps.push(p)) =~= parts_bytes(ps) + spec_part_bytes(p));
    } else {
        assert(ps.push(p)[0] == ps[0]);
        assert(ps.push(p).drop_first() =~= ps.drop_first().push(p));
        lemma_parts_bytes_push(ps.drop_first(), p);
        assert(parts_bytes(ps.push(p)) =~= parts_bytes_split(ps, p));
        assert(parts_bytes(ps.push(p)) =~= parts_bytes(ps) + spec_part_bytes(p));
    }
}

/// The re-associated concatenation the push lemma steps through.
pub open spec fn parts_bytes_split(ps: Seq<PartV>, p: PartV) -> Seq<u8> {
    spec_part_bytes(ps[0]) + (parts_bytes(ps.drop_first()) + spec_part_bytes(p))
}

/// A v3 image: up to 16 bank slots and the index of the active bank.
#[derive(Debug)]
pub struct Nvram {
    pub partitions: Vec<Slot<Partition>>,
    pub active: usize,
}

impl Nvram {
    /// The views of the bank slots.
    pub open spec fn banks(&self) -> Seq<BankState> {
        banks_of(self.partitions@)
    }

    /// The container invariant: at least one bank, at most 16, and the
    /// active index names a valid bank.
    pub open spec fn wf(&self) -> bool {
        &&& 1 <= self.partitions@.len() <= MAX_BANKS
        &&& self.active < self.partitions@.len()
        &&& self.banks()[self.active as int] is Valid
    }

    /// The content of the active bank.
    pub open spec fn active_view(&self) -> PartV
        recommends
            self.wf(),
    {
        match self.banks()[self.active as int] {
            BankState::Valid(p) => p,
            _ => vstd::pervasive::arbitrary(),
        }
    }

    /// Decodes an image of up to 16 banks.  At least one bank must be
    /// valid; the valid bank with the greatest generation becomes active,
    /// the earliest such bank winning ties.
    pub fn parse(nvr: &[u8]) -> (r: Result<Nvram, Error>)
        ensures
            match r {
                Ok(nv) => {
                    &&& nv.wf()
                    &&& nv.banks() == spec_parse_banks(nvr@)
                    &&& match spec_pick_active(spec_parse_banks(nvr@)) {
                        Option::Some(pair) => pair.0 == nv.active as int,
                        Option::None => false,
                    }
                },
                Err(e) => e is ParseError && spec_pick_active(spec_parse_banks(nvr@)) is None,
            },
    {
        let n = nvr.len();
        let mut count = n / PARTITION_SIZE;
        if count > MAX_BANKS {
            count = MAX_BANKS;
        }
        let ghost gbanks = spec_parse_banks(nvr@);
        let mut partitions: Vec<Slot<Partition>> = Vec::new();
        let mut best: Option<(usize, u32)> = None;
        let mut i: usize = 0;
        proof {
            assert(count == spec_bank_count(nvr@));
            assert(banks_of(partitions@) =~= gbanks.take(0));
        }
        while i < count
            invariant
                i <= count,
                count == spec_bank_count(nvr@),
                count * PARTITION_SIZE <= nvr@.len(),
                n == nvr@.len(),
                gbanks == spec_parse_banks(nvr@),
                partitions@.len() == i,
                banks_of(partitions@) == gbanks.take(i as int),
                spec_pick_active(gbanks) == spec_pick_from(
                    gbanks,
                    i as int,
                    match best {
                        Option::Some((j, g)) => Some((j as int, g)),
                        Option::None => None,
                    },
                ),
                match best {
                    Option::Some((j, g)) => j < i && (gbanks[j as int] matches BankState::Valid(p)
                        && p.header.generation == g),
                    Option::None => true,
                },
            decreases count - i,
        {
            proof {
                vstd::arithmetic::mul::lemma_mul_inequality(
                    i + 1 as int,
                    count as int,
                    PARTITION_SIZE as int,
                );
            }
            let w = vstd::slice::slice_subrange(nvr, i * PARTITION_SIZE, (i + 1) * PARTITION_SIZE);
            proof {
                assert(w@ == spec_bank_window(nvr@, i as int));
            }
            let ghost prev_best = best;
            match Partition::parse(w) {
                Ok(p) => {
                    let g = p.generation();
                    match best {
                        Option::Some((_, bg)) => {
                            if g > bg {
                                best = Some((i, g));
                            }
                        },
                        Option::None => {
                            best = Some((i, g));
                        },
                    }
                    partitions.push(Slot::Valid(p));
                },
                Err(e) => {
                    match e {
                        V3Error::Empty => {
                            partitions.push(Slot::Empty);
                        },
                        V3Error::ParseError => {
                            partitions.push(Slot::Invalid);
                        },
                    }
                },
            }
            proof {
                assert(banks_of(partitions@) =~= gbanks.take(i + 1));
            }
            i = i + 1;
        }
        proof {
            assert(gbanks.take(count as int) =~= gbanks);
        }
        match best {
            Option::Some((a, _)) => {
                let nv = Nvram { partitions, active: a };
                Ok(nv)
            },
            Option::None => Err(Error::ParseError),
        }
    }

    /// References to the valid banks, in order.
    pub fn partitions(&self) -> (r: Vec<&Partition>)
        ensures
            r@.map_values(|p: &Partition| p@) == valid_parts(self.banks()),
    {
        let mut out: Vec<&Partition> = Vec::new();
        let mut i: usize = 0;
        proof {
            assert(self.banks().take(0) =~= Seq::<BankState>::empty());
            assert(out@.map_values(|p: &Partition| p@) =~= valid_parts(self.banks().take(0)));
        }
        while i < self.partitions.len()
            invariant
                i <= self.partitions@.len(),
                out@.map_values(|p: &Partition| p@) == valid_parts(self.banks().take(i as int)),
            decreases self.partitions@.len() - i,
        {
            match &self.partitions[i] {
                Slot::Valid(p) => {
                    out.push(p);
                },
                _ => {},
            }
            proof {
                assert(self.banks().take(i + 1) =~= self.banks().take(i as int).push(
                    self.banks()[i as int],
                ));
                lemma_valid_parts_push(self.banks().take(i as int), self.banks()[i as int]);
                assert(out@.map_values(|p: &Partition| p@) =~= valid_parts(
                    self.banks().take(i + 1),
                ));
            }
            i = i + 1;
        }
        proof {
            assert(self.banks().take(self.partitions@.len() as int) =~= self.banks());
        }
        out
    }

    /// A reference to the active bank.
    pub fn active_part(&self) -> (r: &Partition)
        requires
            self.wf(),
        ensures
            r@ == self.active_view(),
    {
        match &self.partitions[self.active] {
            Slot::Valid(p) => p,
            _ => vstd::pervasive::unreached(),
        }
    }

    /// A mutable reference to the active bank.
    pub fn active_part_mut(&mut self) -> (r: &mut Partition)
        requires
            old(self).wf(),
        ensures
            *r == old(self).partitions@[old(self).active as int]->Valid_0,
            final(self).partitions@ == old(self).partitions@.update(
                old(self).active as int,
                Slot::Valid(*final(r)),
            ),
            final(self).active == old(self).active,
    {
        let a = self.active;
        let slot = vstd::std_specs::vec::vec_index_mut(&mut self.partitions, a);
        match slot {
            Slot::Valid(p) => p,
            _ => vstd::pervasive::unreached(),
        }
    }

    /// The serialized image: the valid banks, concatenated in order.
    /// Empty and invalid banks are not re-emitted.
    pub fn serialize(&self) -> (r: Result<Vec<u8>, Error>)
        ensures
            match r {
                Ok(v) => v@ == parts_bytes(valid_parts(self.banks())),
                Err(_) => false,
            },
    {
        let mut v: Vec<u8> = Vec::new();
        let mut i: usize = 0;
        proof {
            assert(self.banks().take(0) =~= Seq::<BankState>::empty());
            assert(v@ =~= parts_bytes(valid_parts(self.banks().take(0))));
        }
        while i < self.partitions.len()
            invariant
                i <= self.partitions@.len(),
                v@ == parts_bytes(valid_parts(self.banks().take(i as int))),
            decreases self.partitions@.len() - i,
        {
            match &self.partitions[i] {
                Slot::Valid(p) => {
                    p.serialize(&mut v);
                },
                _ => {},
            }
            proof {
                assert(self.banks().take(i + 1) =~= self.banks().take(i as int).push(
                    self.banks()[i as int],
                ));
                lemma_valid_parts_push(self.banks().take(i as int), self.banks()[i as int]);
                match self.banks()[i as int] {
                    BankState::Valid(p) => {
                        lemma_parts_bytes_push(valid_parts(self.banks().take(i as int)), p);
                        assert(valid_parts(self.banks().take(i + 1)) =~= valid_parts(
                            self.banks().take(i as int),
                        ).push(p));
                    },
                    _ => {
                        assert(valid_parts(self.banks().take(i + 1)) =~= valid_parts(
                            self.banks().take(i as int),
                        ));
                    },
                }
            }
            i = i + 1;
        }
        proof {
            assert(self.banks().take(self.partitions@.len() as int) =~= self.banks());
        }
        Ok(v)
    }

    /// The journal format needs no preparation before writing: tombstones
    /// already encode supersession, and rotation happens at apply time.
    pub fn prepare_for_write(&mut self)
        ensures
            *final(self) == *old(self),
    {
    }

    /// Writes the active bank back to the medium, enforcing the namespace
    /// quotas and rotating to the next bank when the log no longer fits.
    ///
    /// In place (the log fits): the image is unchanged in memory and the
    /// bank is written at its own offset; nothing is erased.  On rotation:
    /// the live records move to the next bank with the generation advanced
    /// by one, that bank is erased first exactly when it was not already
    /// empty, and the compacted bank is written at its offset.  A quota or
    /// capacity violation surfaces as `SectionTooBig`; a writer failure as
    /// `ApplyError`.
    pub fn apply<W: NvramWriter>(&mut self, w: &mut W) -> (r: Result<(), Error>)
        requires
            old(self).wf(),
            spec_total_used(old(self).active_view()) <= usize::MAX,
            spec_total_used(old(self).active_view()) > PARTITION_SIZE ==> old(
                self,
            ).active_view().header.generation < u32::MAX,
        ensures
            apply_post(
                *old(self),
                *final(self),
                old(w).log(),
                final(w).log(),
                r,
            ),
    {
        let ghost ap = old(self).active_view();
        if self.active_part().system_used() > self.active_part().system_size() {
            return Err(Error::SectionTooBig);
        }
        if self.active_part().common_used() > self.active_part().common_size() {
            return Err(Error::SectionTooBig);
        }
        let total = self.active_part().total_used();
        let offset: u32;
        if total <= PARTITION_SIZE {
            offset = (self.active * PARTITION_SIZE) as u32;
            proof {
                assert(offset == (old(self).active as int * PARTITION_SIZE) as u32);
            }
        } else {
            let new_active = (self.active + 1) % self.partitions.len();
            offset = (new_active * PARTITION_SIZE) as u32;
            proof {
                assert(new_active as int == (old(self).active as int + 1) % (
                old(self).partitions@.len() as int));
            }
            if !self.partitions[new_active].empty() {
                w.erase_if_needed(offset, PARTITION_SIZE);
            }
            let compact = self.active_part().clone_active();
            proof {
                assert(compact@ =~= PartV {
                    header: StoreHeader {
                        generation: (ap.header.generation + 1) as u32,
                        ..ap.header
                    },
                    vars: live_only(ap.vars),
                });
            }
            *vstd::std_specs::vec::vec_index_mut(&mut self.partitions, new_active) = Slot::Valid(
                compact,
            );
            self.active = new_active;
            proof {
                lemma_sums_bounds(live_only(ap.vars), Seq::empty());
                lemma_live_only_sum(ap.vars);
                assert(self.banks() =~= old(self).banks().update(
                    new_active as int,
                    BankState::Valid(
                        PartV {
                            header: StoreHeader {
                                generation: (ap.header.generation + 1) as u32,
                                ..ap.header
                            },
                            vars: live_only(ap.vars),
                        },
                    ),
                ));
                assert(self.wf());
                assert(self.active_view() =~= PartV {
                    header: StoreHeader {
                        generation: (ap.header.generation + 1) as u32,
                        ..ap.header
                    },
                    vars: live_only(ap.vars),
                });
            }
            if self.active_part().total_used() > PARTITION_SIZE {
                return Err(Error::SectionTooBig);
            }
        }
        let mut data: Vec<u8> = Vec::new();
        self.active_part().serialize(&mut data);
        match w.write_all(offset, data.as_slice()) {
            Ok(()) => Ok(()),
            Err(e) => Err(Error::ApplyError(e)),
        }
    }
}

/// Compacting a log never enlarges it.
pub proof fn lemma_live_only_sum(vs: Seq<VarV>)
    ensures
        sum_sizes(live_only(vs)) <= sum_sizes(vs),
    decreases vs.len(),
{
    reveal_with_fuel(sum_sizes, 2);
    reveal_with_fuel(live_only, 2);
    if vs.len() == 0 {
    } else {
        lemma_live_only_sum(vs.drop_first());
        lemma_sums_bounds(vs.drop_first(), Seq::empty());
        if vs[0].state == VAR_ADDED {
            assert((seq![vs[0]] + live_only(vs.drop_first())).drop_first() =~= live_only(
                vs.drop_first(),
            ));
            assert((seq![vs[0]] + live_only(vs.drop_first()))[0] == vs[0]);
        }
    }
}

/// The contract of `apply`, relating the image and the writer log before
/// and after the call.
pub open spec fn apply_post(
    pre: Nvram,
    post: Nvram,
    log0: Seq<MediumOp>,
    log1: Seq<MediumOp>,
    r: Result<(), Error>,
) -> bool {
    let ap = pre.active_view();
    let a = pre.active as int;
    let cnt = pre.partitions@.len() as int;
    if sum_used(ap.vars, system_guid()) > ap.header.system_size || sum_used(
        ap.vars,
        common_guid(),
    ) > ap.header.common_size {
        &&& r matches Err(Error::SectionTooBig)
        &&& post == pre
        &&& log1 == log0
    } else if spec_total_used(ap) <= PARTITION_SIZE {
        &&& post == pre
        &&& log1 == log0.push(
            MediumOp::Write {
                offset: (a * PARTITION_SIZE) as u32,
                data: spec_part_bytes(ap),
            },
        )
        &&& (r is Ok || r matches Err(Error::ApplyError(_)))
    } else {
        let na = (a + 1) % cnt;
        let erased = !(pre.banks()[na] is Empty);
        let compact = PartV {
            header: StoreHeader {
                generation: (ap.header.generation + 1) as u32,
                ..ap.header
            },
            vars: live_only(ap.vars),
        };
        let log_e = if erased {
            log0.push(
                MediumOp::Erase { offset: (na * PARTITION_SIZE) as u32, len: PARTITION_SIZE },
            )
        } else {
            log0
        };
        &&& post.active as int == na
        &&& post.banks() == pre.banks().update(na, BankState::Valid(compact))
        &&& post.partitions@.len() == pre.partitions@.len()
        &&& if spec_total_used(compact) > PARTITION_SIZE {
            &&& r matches Err(Error::SectionTooBig)
            &&& log1 == log_e
        } else {
            &&& log1 == log_e.push(
                MediumOp::Write {
                    offset: (na * PARTITION_SIZE) as u32,
                    data: spec_part_bytes(compact),
                },
            )
            &&& (r is Ok || r matches Err(Error::ApplyError(_)))
        }
    }
}

} // verus!
