//! The firmware memory map: a byte buffer filled by one firmware call,
//! viewed as a sequence of fixed-layout memory-region records.
//!
//! Records are not addressed through any language-level array: consecutive
//! records sit `descriptor_size` bytes apart, a stride the firmware reports
//! at run time and which may exceed a record's own 40-byte natural size.
//! Every field is read little-endian from the raw bytes, and iteration stops
//! before any record would read past the occupied prefix of the buffer.

use vstd::prelude::*;
use vstd::arithmetic::div_mod::{
    lemma_div_denominator,
    lemma_div_is_ordered,
    lemma_div_multiples_vanish,
    lemma_fundamental_div_mod,
    lemma_fundamental_div_mod_converse,
};
use vstd::arithmetic::mul::lemma_mul_inequality;

verus! {

/// How the firmware classifies one region of physical memory.  A closed
/// enumeration; its wire codes are given by [`EfiMemoryType::spec_code`].
#[allow(non_camel_case_types)]
#[derive(Debug, Clone, Copy, PartialEq, Eq, Structural)]
pub enum EfiMemoryType {
    RESERVED,
    LOADER_CODE,
    LOADER_DATA,
    BOOT_SERVICES_CODE,
    BOOT_SERVICES_DATA,
    RUNTIME_SERVICES_CODE,
    RUNTIME_SERVICES_DATA,
    CONVENTIONAL_MEMORY,
    UNUSABLE_MEMORY,
    ACPI_RECLAIM_MEMORY,
    ACPI_MEMORY_NVS,
    MEMORY_MAPPED_IO,
    MEMORY_MAPPED_IO_PORT_SPACE,
    PAL_CODE,
    PERSISTENT_MEMORY,
}

impl EfiMemoryType {
    /// The numeric code a region kind is stored under in a descriptor record.
    pub open spec fn spec_code(self) -> int {
        match self {
            EfiMemoryType::RESERVED => 0,
            EfiMemoryType::LOADER_CODE => 1,
            EfiMemoryType::LOADER_DATA => 2,
            EfiMemoryType::BOOT_SERVICES_CODE => 3,
            EfiMemoryType::BOOT_SERVICES_DATA => 4,
            EfiMemoryType::RUNTIME_SERVICES_CODE => 5,
            EfiMemoryType::RUNTIME_SERVICES_DATA => 6,
            EfiMemoryType::CONVENTIONAL_MEMORY => 7,
            EfiMemoryType::UNUSABLE_MEMORY => 8,
            EfiMemoryType::ACPI_RECLAIM_MEMORY => 9,
            EfiMemoryType::ACPI_MEMORY_NVS => 10,
            EfiMemoryType::MEMORY_MAPPED_IO => 11,
            EfiMemoryType::MEMORY_MAPPED_IO_PORT_SPACE => 12,
            EfiMemoryType::PAL_CODE => 13,
            EfiMemoryType::PERSISTENT_MEMORY => 14,
        }
    }

    /// The region kind a numeric code stands for.  Codes outside the closed
    /// enumeration fall back to `RESERVED`, the "do not use" classification.
    pub open spec fn spec_from_code(c: int) -> EfiMemoryType {
        if c == 1 {
            EfiMemoryType::LOADER_CODE
        } else if c == 2 {
            EfiMemoryType::LOADER_DATA
        } else if c == 3 {
            EfiMemoryType::BOOT_SERVICES_CODE
        } else if c == 4 {
            EfiMemoryType::BOOT_SERVICES_DATA
        } else if c == 5 {
            EfiMemoryType::RUNTIME_SERVICES_CODE
        } else if c == 6 {
            EfiMemoryType::RUNTIME_SERVICES_DATA
        } else if c == 7 {
            EfiMemoryType::CONVENTIONAL_MEMORY
        } else if c == 8 {
            EfiMemoryType::UNUSABLE_MEMORY
        } else if c == 9 {
            EfiMemoryType::ACPI_RECLAIM_MEMORY
        } else if c == 10 {
            EfiMemoryType::ACPI_MEMORY_NVS
        } else if c == 11 {
            EfiMemoryType::MEMORY_MAPPED_IO
        } else if c == 12 {
            EfiMemoryType::MEMORY_MAPPED_IO_PORT_SPACE
        } else if c == 13 {
            EfiMemoryType::PAL_CODE
        } else if c == 14 {
            EfiMemoryType::PERSISTENT_MEMORY
        } else {
            EfiMemoryType::RESERVED
        }
    }

    /// The wire code of this region kind.
    pub fn code(&self) -> (r: u64)
        ensures
            r as int == self.spec_code(),
    {
        match self {
            EfiMemoryType::RESERVED => 0,
            EfiMemoryType::LOADER_CODE => 1,
            EfiMemoryType::LOADER_DATA => 2,
            EfiMemoryType::BOOT_SERVICES_CODE => 3,
            EfiMemoryType::BOOT_SERVICES_DATA => 4,
            EfiMemoryType::RUNTIME_SERVICES_CODE => 5,
            EfiMemoryType::RUNTIME_SERVICES_DATA => 6,
            EfiMemoryType::CONVENTIONAL_MEMORY => 7,
            EfiMemoryType::UNUSABLE_MEMORY => 8,
            EfiMemoryType::ACPI_RECLAIM_MEMORY => 9,
            EfiMemoryType::ACPI_MEMORY_NVS => 10,
            EfiMemoryType::MEMORY_MAPPED_IO => 11,
            EfiMemoryType::MEMORY_MAPPED_IO_PORT_SPACE => 12,
            EfiMemoryType::PAL_CODE => 13,
            EfiMemoryType::PERSISTENT_MEMORY => 14,
        }
    }

    /// The region kind a wire code stands for, `RESERVED` for unknown codes.
    pub fn from_code(c: u64) -> (r: EfiMemoryType)
        ensures
            r == EfiMemoryType::spec_from_code(c as int),
    {
        if c == 1 {
            EfiMemoryType::LOADER_CODE
        } else if c == 2 {
            EfiMemoryType::LOADER_DATA
        } else if c == 3 {
            EfiMemoryType::BOOT_SERVICES_CODE
        } else if c == 4 {
            EfiMemoryType::BOOT_SERVICES_DATA
        } else if c == 5 {
            EfiMemoryType::RUNTIME_SERVICES_CODE
        } else if c == 6 {
            EfiMemoryType::RUNTIME_SERVICES_DATA
        } else if c == 7 {
            EfiMemoryType::CONVENTIONAL_MEMORY
        } else if c == 8 {
            EfiMemoryType::UNUSABLE_MEMORY
        } else if c == 9 {
            EfiMemoryType::ACPI_RECLAIM_MEMORY
        } else if c == 10 {
            EfiMemoryType::ACPI_MEMORY_NVS
        } else if c == 11 {
            EfiMemoryType::MEMORY_MAPPED_IO
        } else if c == 12 {
            EfiMemoryType::MEMORY_MAPPED_IO_PORT_SPACE
        } else if c == 13 {
            EfiMemoryType::PAL_CODE
        } else if c == 14 {
            EfiMemoryType::PERSISTENT_MEMORY
        } else {
            EfiMemoryType::RESERVED
        }
    }
}

/// Decoding the code of a region kind gives that kind back.
pub proof fn lemma_code_round_trip(t: EfiMemoryType)
    ensures
        EfiMemoryType::spec_from_code(t.spec_code()) == t,
{
}

/// The unsigned value stored little-endian in the eight bytes of `s` that
/// start at `ofs` (meaningful for `0 <= ofs` and `ofs + 8 <= s.len()`).
#[verifier::opaque]
pub open spec fn le64_at(s: Seq<u8>, ofs: int) -> int {
    s[ofs] + 256 * (s[ofs + 1] + 256 * (s[ofs + 2] + 256 * (s[ofs + 3] + 256 * (s[ofs + 4] + 256
        * (s[ofs + 5] + 256 * (s[ofs + 6] + 256 * s[ofs + 7]))))))
}

/// The eight bytes that store `v` little-endian.
#[verifier::opaque]
pub open spec fn le64_bytes(v: int) -> Seq<u8> {
    seq![
        (v % 256) as u8,
        ((v / 256) % 256) as u8,
        ((v / 65536) % 256) as u8,
        ((v / 16777216) % 256) as u8,
        ((v / 4294967296) % 256) as u8,
        ((v / 1099511627776) % 256) as u8,
        ((v / 281474976710656) % 256) as u8,
        ((v / 72057594037927936) % 256) as u8,
    ]
}

/// The little-endian encoding is eight bytes long.
pub proof fn lemma_le64_bytes_len(v: int)
    ensures
        le64_bytes(v).len() == 8,
{
    reveal(le64_bytes);
}

/// A little-endian read depends only on the eight bytes it covers.
pub proof fn lemma_le64_at_eq(s1: Seq<u8>, o1: int, s2: Seq<u8>, o2: int)
    requires
        forall|k: int| 0 <= k < 8 ==> #[trigger] s1[o1 + k] == s2[o2 + k],
    ensures
        le64_at(s1, o1) == le64_at(s2, o2),
{
    reveal(le64_at);
    assert(s1[o1 + 0] == s2[o2 + 0]);
    assert(s1[o1 + 1] == s2[o2 + 1]);
    assert(s1[o1 + 2] == s2[o2 + 2]);
    assert(s1[o1 + 3] == s2[o2 + 3]);
    assert(s1[o1 + 4] == s2[o2 + 4]);
    assert(s1[o1 + 5] == s2[o2 + 5]);
    assert(s1[o1 + 6] == s2[o2 + 6]);
    assert(s1[o1 + 7] == s2[o2 + 7]);
}

/// A little-endian read of eight bytes is below `2^64`.
pub proof fn lemma_le64_at_bound(s: Seq<u8>, ofs: int)
    requires
        0 <= ofs,
        ofs + 8 <= s.len(),
    ensures
        0 <= le64_at(s, ofs) < 0x1_0000_0000_0000_0000,
{
    reveal(le64_at);
}

/// Reading back the little-endian encoding of a 64-bit value gives the value.
pub proof fn lemma_le64_round_trip(v: int)
    requires
        0 <= v < 0x1_0000_0000_0000_0000,
    ensures
        le64_at(le64_bytes(v), 0) == v,
{
    reveal(le64_at);
    reveal(le64_bytes);
    lemma_fundamental_div_mod(v, 256);
    lemma_div_denominator(v, 256, 256);
    lemma_fundamental_div_mod(v / 256, 256);
    lemma_div_denominator(v, 65536, 256);
    lemma_fundamental_div_mod(v / 65536, 256);
    lemma_div_denominator(v, 16777216, 256);
    lemma_fundamental_div_mod(v / 16777216, 256);
    lemma_div_denominator(v, 4294967296, 256);
    lemma_fundamental_div_mod(v / 4294967296, 256);
    lemma_div_denominator(v, 1099511627776, 256);
    lemma_fundamental_div_mod(v / 1099511627776, 256);
    lemma_div_denominator(v, 281474976710656, 256);
    lemma_fundamental_div_mod(v / 281474976710656, 256);
    lemma_fundamental_div_mod_converse(v, 72057594037927936, v / 72057594037927936, v % 72057594037927936);
    assert(v / 72057594037927936 < 256) by {
        lemma_div_is_ordered(v, 0xffff_ffff_ffff_ffff, 72057594037927936);
    }
    assert((v / 72057594037927936) % 256 == v / 72057594037927936) by {
        lemma_fundamental_div_mod_converse(
            v / 72057594037927936,
            256,
            0,
            v / 72057594037927936,
        );
    }
}

/// Read the `u64` stored little-endian at byte offset `ofs` of `buf`.
pub fn read_u64_le(buf: &Vec<u8>, ofs: usize) -> (r: u64)
    requires
        ofs + 8 <= buf@.len(),
    ensures
        r as int == le64_at(buf@, ofs as int),
{
    let l: usize = buf.len();
    proof {
        reveal(le64_at);
        lemma_le64_at_bound(buf@, ofs as int);
    }
    buf[ofs] as u64 + 256 * (buf[ofs + 1] as u64 + 256 * (buf[ofs + 2] as u64 + 256 * (buf[ofs
        + 3] as u64 + 256 * (buf[ofs + 4] as u64 + 256 * (buf[ofs + 5] as u64 + 256 * (buf[ofs
        + 6] as u64 + 256 * (buf[ofs + 7] as u64)))))))
}

/// Append the eight little-endian bytes of `v` to `out`.
pub fn push_u64_le(out: &mut Vec<u8>, v: u64)
    ensures
        final(out)@ == old(out)@ + le64_bytes(v as int),
{
    out.push((v % 256) as u8);
    out.push(((v / 256) % 256) as u8);
    out.push(((v / 65536) % 256) as u8);
    out.push(((v / 16777216) % 256) as u8);
    out.push(((v / 4294967296) % 256) as u8);
    out.push(((v / 1099511627776) % 256) as u8);
    out.push(((v / 281474976710656) % 256) as u8);
    out.push(((v / 72057594037927936) % 256) as u8);
    proof {
        reveal(le64_bytes);
        assert(final(out)@ =~= old(out)@ + le64_bytes(v as int));
    }
}

/// Natural size in bytes of one memory-descriptor record: five 64-bit
/// fields.  The stride between records may exceed this.
pub const DESCRIPTOR_BYTES: usize = 40;

/// One fixed-layout record of the firmware memory map, describing a
/// contiguous region of physical memory.
#[derive(Debug, Clone, Copy, PartialEq, Eq, Structural)]
pub struct MemoryDescriptor {
    /// How the firmware classifies the region.
    pub memory_type: EfiMemoryType,
    /// Physical address of the region's first byte.
    pub physical_start: u64,
    /// Virtual address of the region's first byte (normally zero at boot).
    pub virtual_start: u64,
    /// Length of the region in pages of the fixed platform size.
    pub number_of_pages: u64,
    /// Attribute flags of the region.
    pub attribute: u64,
}

/// The record stored in the 40 bytes of `s` that start at `ofs`: five
/// little-endian 64-bit fields, the first being the region-kind code
/// (meaningful for `0 <= ofs` and `ofs + 40 <= s.len()`).
pub open spec fn desc_at(s: Seq<u8>, ofs: int) -> MemoryDescriptor {
    MemoryDescriptor {
        memory_type: EfiMemoryType::spec_from_code(le64_at(s, ofs)),
        physical_start: le64_at(s, ofs + 8) as u64,
        virtual_start: le64_at(s, ofs + 16) as u64,
        number_of_pages: le64_at(s, ofs + 24) as u64,
        attribute: le64_at(s, ofs + 32) as u64,
    }
}

/// The 40 bytes that store a record.
pub open spec fn desc_bytes(d: MemoryDescriptor) -> Seq<u8> {
    le64_bytes(d.memory_type.spec_code()) + le64_bytes(d.physical_start as int) + le64_bytes(
        d.virtual_start as int,
    ) + le64_bytes(d.number_of_pages as int) + le64_bytes(d.attribute as int)
}

/// A record read depends only on the 40 bytes it covers.
pub proof fn lemma_desc_at_eq(s1: Seq<u8>, o1: int, s2: Seq<u8>, o2: int)
    requires
        forall|k: int| 0 <= k < 40 ==> #[trigger] s1[o1 + k] == s2[o2 + k],
    ensures
        desc_at(s1, o1) == desc_at(s2, o2),
{
    assert forall|f: int| 0 <= f < 5 implies #[trigger] le64_at(s1, o1 + 8 * f) == le64_at(
        s2,
        o2 + 8 * f,
    ) by {
        assert forall|k: int| 0 <= k < 8 implies #[trigger] s1[(o1 + 8 * f) + k] == s2[(o2 + 8 * f)
            + k] by {
            assert(s1[o1 + (8 * f + k)] == s2[o2 + (8 * f + k)]);
        }
        lemma_le64_at_eq(s1, o1 + 8 * f, s2, o2 + 8 * f);
    }
    assert(le64_at(s1, o1) == le64_at(s2, o2)) by {
        assert(le64_at(s1, o1 + 8 * 0) == le64_at(s2, o2 + 8 * 0));
    }
    assert(le64_at(s1, o1 + 8) == le64_at(s2, o2 + 8)) by {
        assert(le64_at(s1, o1 + 8 * 1) == le64_at(s2, o2 + 8 * 1));
    }
    assert(le64_at(s1, o1 + 16) == le64_at(s2, o2 + 16)) by {
        assert(le64_at(s1, o1 + 8 * 2) == le64_at(s2, o2 + 8 * 2));
    }
    assert(le64_at(s1, o1 + 24) == le64_at(s2, o2 + 24)) by {
        assert(le64_at(s1, o1 + 8 * 3) == le64_at(s2, o2 + 8 * 3));
    }
    assert(le64_at(s1, o1 + 32) == le64_at(s2, o2 + 32)) by {
        assert(le64_at(s1, o1 + 8 * 4) == le64_at(s2, o2 + 8 * 4));
    }
}

/// Indexing into a concatenation of five eight-byte blocks reads the
/// corresponding block.
proof fn lemma_concat5_parts(a: Seq<u8>, b: Seq<u8>, c: Seq<u8>, d: Seq<u8>, e: Seq<u8>)
    requires
        a.len() == 8,
        b.len() == 8,
        c.len() == 8,
        d.len() == 8,
        e.len() == 8,
    ensures
        (a + b + c + d + e).len() == 40,
        forall|k: int| 0 <= k < 8 ==> #[trigger] (a + b + c + d + e)[0 + k] == a[0 + k],
        forall|k: int| 0 <= k < 8 ==> #[trigger] (a + b + c + d + e)[8 + k] == b[0 + k],
        forall|k: int| 0 <= k < 8 ==> #[trigger] (a + b + c + d + e)[16 + k] == c[0 + k],
        forall|k: int| 0 <= k < 8 ==> #[trigger] (a + b + c + d + e)[24 + k] == d[0 + k],
        forall|k: int| 0 <= k < 8 ==> #[trigger] (a + b + c + d + e)[32 + k] == e[0 + k],
{
}

/// Eight bytes that store `v` little-endian read back as `v`.
proof fn lemma_le64_field(s: Seq<u8>, o: int, v: int)
    requires
        0 <= v < 0x1_0000_0000_0000_0000,
        forall|k: int| 0 <= k < 8 ==> #[trigger] s[o + k] == le64_bytes(v)[0 + k],
    ensures
        le64_at(s, o) == v,
{
    lemma_le64_at_eq(s, o, le64_bytes(v), 0);
    lemma_le64_round_trip(v);
}

/// Reading back the 40-byte encoding of a record gives the record: every
/// descriptor written to a buffer is reconstructed byte-for-byte.
pub proof fn lemma_desc_round_trip(d: MemoryDescriptor)
    ensures
        desc_bytes(d).len() == 40,
        desc_at(desc_bytes(d), 0) == d,
{
    let s = desc_bytes(d);
    let c0 = le64_bytes(d.memory_type.spec_code());
    let c1 = le64_bytes(d.physical_start as int);
    let c2 = le64_bytes(d.virtual_start as int);
    let c3 = le64_bytes(d.number_of_pages as int);
    let c4 = le64_bytes(d.attribute as int);
    lemma_le64_bytes_len(d.memory_type.spec_code());
    lemma_le64_bytes_len(d.physical_start as int);
    lemma_le64_bytes_len(d.virtual_start as int);
    lemma_le64_bytes_len(d.number_of_pages as int);
    lemma_le64_bytes_len(d.attribute as int);
    lemma_concat5_parts(c0, c1, c2, c3, c4);
    lemma_le64_field(s, 0, d.memory_type.spec_code());
    lemma_le64_field(s, 8, d.physical_start as int);
    lemma_le64_field(s, 16, d.virtual_start as int);
    lemma_le64_field(s, 24, d.number_of_pages as int);
    lemma_le64_field(s, 32, d.attribute as int);
    lemma_code_round_trip(d.memory_type);
}

/// Append the 40-byte encoding of `d` to `out`.
pub fn push_descriptor(out: &mut Vec<u8>, d: &MemoryDescriptor)
    ensures
        final(out)@ == old(out)@ + desc_bytes(*d),
{
    push_u64_le(out, d.memory_type.code());
    push_u64_le(out, d.physical_start);
    push_u64_le(out, d.virtual_start);
    push_u64_le(out, d.number_of_pages);
    push_u64_le(out, d.attribute);
    proof {
        assert(final(out)@ =~= old(out)@ + desc_bytes(*d));
    }
}

/// Parse the record stored at byte offset `ofs` of `buf`.
pub fn parse_descriptor(buf: &Vec<u8>, ofs: usize) -> (r: MemoryDescriptor)
    requires
        ofs + DESCRIPTOR_BYTES <= buf@.len(),
    ensures
        r == desc_at(buf@, ofs as int),
{
    let l: usize = buf.len();
    let memory_type = EfiMemoryType::from_code(read_u64_le(buf, ofs));
    let physical_start = read_u64_le(buf, ofs + 8);
    let virtual_start = read_u64_le(buf, ofs + 16);
    let number_of_pages = read_u64_le(buf, ofs + 24);
    let attribute = read_u64_le(buf, ofs + 32);
    proof {
        lemma_le64_at_bound(buf@, ofs as int + 8);
        lemma_le64_at_bound(buf@, ofs as int + 16);
        lemma_le64_at_bound(buf@, ofs as int + 24);
        lemma_le64_at_bound(buf@, ofs as int + 32);
    }
    MemoryDescriptor { memory_type, physical_start, virtual_start, number_of_pages, attribute }
}

/// Capacity in bytes of the buffer the memory map is written into.
pub const MEMORY_MAP_BUFFER_SIZE: usize = 0x8000;

/// The raw memory map: a fixed-capacity byte buffer together with the
/// occupied size, record stride and record version the firmware reported,
/// and the opaque map key it handed back.
///
/// The buffer is populated by one firmware call per use and read-only
/// afterwards; iteration over it is restartable and never mutates it.
pub struct MemoryMapHolder {
    /// The raw bytes, always `MEMORY_MAP_BUFFER_SIZE` of them; only the
    /// first `memory_map_size` are meaningful.
    pub memory_map_buffer: Vec<u8>,
    /// Occupied bytes of the buffer (before population: its capacity, which
    /// the firmware call takes as the in/out size argument).
    pub memory_map_size: usize,
    /// Opaque key identifying this snapshot of the map, passed through from
    /// the firmware unmodified.
    pub map_key: usize,
    /// Byte distance between consecutive records.  Authoritative: it may
    /// exceed the 40-byte natural record size to leave room for growth.
    pub descriptor_size: usize,
    /// Record layout version, passed through from the firmware unmodified.
    pub descriptor_version: u32,
}

impl MemoryMapHolder {
    /// The buffer has its fixed capacity, and the reported sizes fit it.
    pub open spec fn wf(self) -> bool {
        &&& self.memory_map_buffer@.len() == MEMORY_MAP_BUFFER_SIZE
        &&& self.memory_map_size <= MEMORY_MAP_BUFFER_SIZE
        &&& self.descriptor_size <= MEMORY_MAP_BUFFER_SIZE
    }

    /// How many records iteration yields: one per stride step whose 40
    /// record bytes lie inside the occupied prefix.  Zero when the stride is
    /// zero (nothing was populated yet).
    pub open spec fn descriptor_count(self) -> nat {
        if self.descriptor_size == 0 {
            0
        } else if self.memory_map_size >= DESCRIPTOR_BYTES {
            (((self.memory_map_size - DESCRIPTOR_BYTES) / (self.descriptor_size as int)) + 1) as nat
        } else {
            0
        }
    }

    /// The sequence of records the occupied prefix holds, one per stride
    /// step, each read from the raw bytes at its offset.
    pub open spec fn descriptors_spec(self) -> Seq<MemoryDescriptor> {
        Seq::new(
            self.descriptor_count(),
            |i: int| desc_at(self.memory_map_buffer@, i * self.descriptor_size),
        )
    }

    /// A fresh holder: zeroed buffer, size set to the full capacity (the
    /// in/out size argument of the firmware call), everything else zero.
    pub fn new() -> (r: MemoryMapHolder)
        ensures
            r.wf(),
            r.memory_map_size == MEMORY_MAP_BUFFER_SIZE,
            r.map_key == 0,
            r.descriptor_size == 0,
            r.descriptor_version == 0,
            forall|i: int| 0 <= i < MEMORY_MAP_BUFFER_SIZE ==> r.memory_map_buffer@[i] == 0u8,
    {
        MemoryMapHolder {
            memory_map_buffer: vec![0u8; MEMORY_MAP_BUFFER_SIZE],
            memory_map_size: MEMORY_MAP_BUFFER_SIZE,
            map_key: 0,
            descriptor_size: 0,
            descriptor_version: 0,
        }
    }

    /// Record one firmware answer: copy the returned bytes into the buffer
    /// and take over the sizes and key the call reported.  The status code
    /// of the call itself is data for the caller and is not held here.
    pub fn populate(
        &mut self,
        data: &Vec<u8>,
        map_key: usize,
        descriptor_size: usize,
        descriptor_version: u32,
    )
        requires
            old(self).wf(),
            data@.len() <= MEMORY_MAP_BUFFER_SIZE,
            descriptor_size <= MEMORY_MAP_BUFFER_SIZE,
        ensures
            final(self).wf(),
            final(self).memory_map_size == data@.len(),
            final(self).map_key == map_key,
            final(self).descriptor_size == descriptor_size,
            final(self).descriptor_version == descriptor_version,
            forall|i: int|
                0 <= i < data@.len() ==> final(self).memory_map_buffer@[i] == data@[i],
            forall|i: int|
                data@.len() <= i < MEMORY_MAP_BUFFER_SIZE ==> final(self).memory_map_buffer@[i]
                    == old(self).memory_map_buffer@[i],
    {
        let n = data.len();
        let mut i: usize = 0;
        while i < n
            invariant
                old(self).wf(),
                self.memory_map_buffer@.len() == MEMORY_MAP_BUFFER_SIZE,
                n == data@.len() <= MEMORY_MAP_BUFFER_SIZE,
                0 <= i <= n,
                forall|k: int| 0 <= k < i ==> self.memory_map_buffer@[k] == data@[k],
                forall|k: int|
                    i <= k < MEMORY_MAP_BUFFER_SIZE ==> self.memory_map_buffer@[k] == old(
                        self,
                    ).memory_map_buffer@[k],
                self.memory_map_size == old(self).memory_map_size,
                self.map_key == old(self).map_key,
                self.descriptor_size == old(self).descriptor_size,
                self.descriptor_version == old(self).descriptor_version,
            decreases n - i,
        {
            self.memory_map_buffer[i] = data[i];
            i = i + 1;
        }
        self.memory_map_size = n;
        self.map_key = map_key;
        self.descriptor_size = descriptor_size;
        self.descriptor_version = descriptor_version;
    }

    /// A fresh, stateless iterator over the records, starting at offset 0.
    pub fn iter<'a>(&'a self) -> (it: MemoryMapIterator<'a>)
        ensures
            it.map == self,
            it.ofs == 0,
    {
        MemoryMapIterator { map: self, ofs: 0 }
    }

    /// Collect all records of the occupied prefix in order.
    pub fn descriptors(&self) -> (r: Vec<MemoryDescriptor>)
        requires
            self.wf(),
            DESCRIPTOR_BYTES <= self.descriptor_size,
        ensures
            r@ == self.descriptors_spec(),
    {
        let mut out: Vec<MemoryDescriptor> = Vec::new();
        let mut it = self.iter();
        proof {
            assert(out@.len() * self.descriptor_size == 0) by (nonlinear_arith)
                requires
                    out@.len() == 0,
            ;
        }
        loop
            invariant
                self.wf(),
                DESCRIPTOR_BYTES <= self.descriptor_size,
                it.map == self,
                it.ofs as int == out@.len() * self.descriptor_size,
                out@.len() <= self.descriptor_count(),
                forall|i: int| 0 <= i < out@.len() ==> out@[i] == self.descriptors_spec()[i],
            ensures
                out@.len() == self.descriptor_count(),
                forall|i: int| 0 <= i < out@.len() ==> out@[i] == self.descriptors_spec()[i],
            decreases self.descriptor_count() - out@.len(),
        {
            proof {
                lemma_count_boundary(*self, out@.len() as int);
            }
            match it.next() {
                Some(d) => {
                    proof {
                        assert(out@.len() < self.descriptor_count());
                        assert(d == self.descriptors_spec()[out@.len() as int]);
                        assert((out@.len() + 1) * self.descriptor_size == out@.len()
                            * self.descriptor_size + self.descriptor_size) by (nonlinear_arith);
                    }
                    out.push(d);
                },
                None => {
                    proof {
                        assert(out@.len() == self.descriptor_count());
                    }
                    break;
                },
            }
        }
        out
    }
}

/// A stateless cursor over the records of a [`MemoryMapHolder`]: it keeps
/// only a byte offset into the borrowed, immutable map.
pub struct MemoryMapIterator<'a> {
    /// The map being walked (never mutated through the iterator).
    pub map: &'a MemoryMapHolder,
    /// Byte offset of the next record to yield.
    pub ofs: usize,
}

impl<'a> MemoryMapIterator<'a> {
    /// Yield the record at the current offset and step forward by the
    /// stride, or nothing once the 40 record bytes would read past the
    /// occupied prefix.
    pub fn next(&mut self) -> (r: Option<MemoryDescriptor>)
        requires
            old(self).map.wf(),
        ensures
            final(self).map == old(self).map,
            old(self).ofs + DESCRIPTOR_BYTES <= old(self).map.memory_map_size ==> {
                &&& r is Some
                &&& r->Some_0 == desc_at(old(self).map.memory_map_buffer@, old(self).ofs as int)
                &&& final(self).ofs == old(self).ofs + old(self).map.descriptor_size
            },
            old(self).ofs + DESCRIPTOR_BYTES > old(self).map.memory_map_size ==> r is None
                && final(self).ofs == old(self).ofs,
    {
        let size = self.map.memory_map_size;
        if size >= DESCRIPTOR_BYTES && self.ofs <= size - DESCRIPTOR_BYTES {
            let d = parse_descriptor(&self.map.memory_map_buffer, self.ofs);
            self.ofs = self.ofs + self.map.descriptor_size;
            Some(d)
        } else {
            None
        }
    }
}

/// At stride `S >= 40`, the record at step `k` lies inside the occupied
/// prefix exactly when `k` is below the record count.
proof fn lemma_count_boundary(m: MemoryMapHolder, k: int)
    requires
        m.wf(),
        DESCRIPTOR_BYTES <= m.descriptor_size,
        0 <= k,
    ensures
        (k * m.descriptor_size + DESCRIPTOR_BYTES <= m.memory_map_size) <==> (k
            < m.descriptor_count()),
{
    let s = m.descriptor_size as int;
    let size = m.memory_map_size as int;
    assert(0 <= k * s) by (nonlinear_arith)
        requires
            0 <= k,
            0 < s,
    ;
    if size >= DESCRIPTOR_BYTES {
        let q = (size - DESCRIPTOR_BYTES) / s;
        if k * s + DESCRIPTOR_BYTES <= size {
            lemma_div_is_ordered(k * s, size - DESCRIPTOR_BYTES, s);
            lemma_div_multiples_vanish(k, s);
            assert(s * k == k * s) by (nonlinear_arith);
            assert(k <= q);
        }
        if k <= q {
            lemma_mul_inequality(k, q, s);
            lemma_fundamental_div_mod(size - DESCRIPTOR_BYTES, s);
            vstd::arithmetic::div_mod::lemma_mod_division_less_than_divisor(
                size - DESCRIPTOR_BYTES,
                s,
            );
            assert(q * s <= size - DESCRIPTOR_BYTES) by (nonlinear_arith)
                requires
                    size - DESCRIPTOR_BYTES == s * q + (size - DESCRIPTOR_BYTES) % s,
                    (size - DESCRIPTOR_BYTES) % s >= 0,
            ;
            assert(k * s + DESCRIPTOR_BYTES <= size);
        }
    }
}

/// A memory-map buffer built from records written back-to-back at a stride
/// of at least the record size, with the occupied size covering exactly
/// those records, yields on iteration exactly the written records, in their
/// original order, each reconstructed byte-for-byte.
#[verifier::rlimit(100)]
pub proof fn lemma_iteration_reconstructs(m: MemoryMapHolder, descs: Seq<MemoryDescriptor>)
    requires
        m.wf(),
        DESCRIPTOR_BYTES <= m.descriptor_size,
        m.memory_map_size == descs.len() * m.descriptor_size,
        forall|i: int|
            0 <= i < descs.len() ==> m.memory_map_buffer@.subrange(
                i * m.descriptor_size,
                i * m.descriptor_size + DESCRIPTOR_BYTES as int,
            ) == desc_bytes(#[trigger] descs[i]),
    ensures
        m.descriptors_spec() =~= descs,
{
    let s = m.descriptor_size as int;
    let size = m.memory_map_size as int;
    let n = descs.len() as int;
    assert(m.descriptor_count() == n) by {
        if n == 0 {
            assert(size == 0) by (nonlinear_arith)
                requires
                    size == n * s,
                    n == 0,
            ;
        } else {
            assert(size == n * s && (n - 1) * s + (s - DESCRIPTOR_BYTES) == n * s
                - DESCRIPTOR_BYTES) by (nonlinear_arith)
                requires
                    size == n * s,
            ;
            assert(size >= DESCRIPTOR_BYTES) by (nonlinear_arith)
                requires
                    size == n * s,
                    1 <= n,
                    DESCRIPTOR_BYTES <= s,
            ;
            lemma_fundamental_div_mod_converse(
                size - DESCRIPTOR_BYTES,
                s,
                n - 1,
                s - DESCRIPTOR_BYTES,
            );
        }
    }
    assert forall|i: int| 0 <= i < n implies m.descriptors_spec()[i] == descs[i] by {
        let ofs = i * s;
        let enc = desc_bytes(descs[i]);
        lemma_desc_round_trip(descs[i]);
        assert(0 <= ofs && ofs + DESCRIPTOR_BYTES <= size) by (nonlinear_arith)
            requires
                0 <= i < n,
                size == n * s,
                DESCRIPTOR_BYTES <= s,
                ofs == i * s,
        ;
        assert forall|k: int| 0 <= k < 40 implies #[trigger] m.memory_map_buffer@[ofs + k]
            == enc[0 + k] by {
            assert(m.memory_map_buffer@.subrange(ofs, ofs + DESCRIPTOR_BYTES as int)[k]
                == enc[k]);
        }
        lemma_desc_at_eq(m.memory_map_buffer@, ofs, enc, 0);
    }
}

} // verus!
