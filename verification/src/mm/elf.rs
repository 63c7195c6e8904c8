//! The header and the program headers of a 64-bit little-endian ELF
//! file.
use vstd::bytes::{
    spec_u16_from_le_bytes, spec_u32_from_le_bytes, spec_u64_from_le_bytes, u16_from_le_bytes,
    u32_from_le_bytes, u64_from_le_bytes,
};
use vstd::prelude::*;
use vstd::slice::slice_subrange;

verus! {

/// Type of a program header that describes a segment to load.
pub const PT_LOAD: u32 = 1;

/// Segment flag: executable.
pub const PF_X: u32 = 1;

/// Segment flag: writable.
pub const PF_W: u32 = 2;

/// Segment flag: readable.
pub const PF_R: u32 = 4;

/// Size of the file header, in bytes.
pub const EHDR_SIZE: usize = 64;

/// Size of a program header, in bytes.
pub const PHDR_SIZE: usize = 56;

/// The little-endian 16-bit number at offset `off` of `data`.
pub open spec fn le16(data: Seq<u8>, off: int) -> u16 {
    spec_u16_from_le_bytes(data.subrange(off, off + 2))
}

/// The little-endian 32-bit number at offset `off` of `data`.
pub open spec fn le32(data: Seq<u8>, off: int) -> u32 {
    spec_u32_from_le_bytes(data.subrange(off, off + 4))
}

/// The little-endian 64-bit number at offset `off` of `data`.
pub open spec fn le64(data: Seq<u8>, off: int) -> u64 {
    spec_u64_from_le_bytes(data.subrange(off, off + 8))
}

/// What a program header says of a segment.
#[derive(Copy, Clone, Debug, PartialEq, Eq, Structural)]
pub struct ProgramHeader {
    /// Kind of the segment.
    pub p_type: u32,
    /// Access flags of the segment.
    pub flags: u32,
    /// Offset of the segment's bytes in the file.
    pub offset: u64,
    /// Virtual address of the segment.
    pub vaddr: u64,
    /// Number of bytes of the segment in the file.
    pub filesz: u64,
    /// Number of bytes of the segment in memory.
    pub memsz: u64,
}

/// The entry point and the program headers of an ELF file.
pub struct ElfFile {
    /// Virtual address at which the program starts.
    pub entry: u64,
    /// The program headers, in file order.
    pub program_headers: Vec<ProgramHeader>,
}

/// Whether `data` begins with the header of a 64-bit little-endian ELF
/// file whose program headers have the standard size and lie within
/// `data`.
pub open spec fn header_ok(data: Seq<u8>) -> bool {
    &&& data.len() >= 64
    &&& data[0] == 0x7f
    &&& data[1] == 0x45
    &&& data[2] == 0x4c
    &&& data[3] == 0x46
    &&& data[4] == 2
    &&& data[5] == 1
    &&& le16(data, 54) == 56
    &&& le64(data, 32) + le16(data, 56) * 56 <= data.len()
}

/// Program header `i` of the file `data`.
pub open spec fn spec_header(data: Seq<u8>, i: int) -> ProgramHeader {
    let base = le64(data, 32) + i * 56;
    ProgramHeader {
        p_type: le32(data, base),
        flags: le32(data, base + 4),
        offset: le64(data, base + 8),
        vaddr: le64(data, base + 16),
        filesz: le64(data, base + 32),
        memsz: le64(data, base + 40),
    }
}

/// The program headers of the file `data`.
pub open spec fn spec_headers(data: Seq<u8>) -> Seq<ProgramHeader> {
    Seq::new(le16(data, 56) as nat, |i: int| spec_header(data, i))
}

/// The little-endian 16-bit number at offset `off` of `data`.
pub fn read_u16(data: &[u8], off: usize) -> (r: u16)
    requires
        off + 2 <= data@.len(),
    ensures
        r == le16(data@, off as int),
{
    let n = data.len();
    u16_from_le_bytes(slice_subrange(data, off, off + 2))
}

/// The little-endian 32-bit number at offset `off` of `data`.
pub fn read_u32(data: &[u8], off: usize) -> (r: u32)
    requires
        off + 4 <= data@.len(),
    ensures
        r == le32(data@, off as int),
{
    let n = data.len();
    u32_from_le_bytes(slice_subrange(data, off, off + 4))
}

/// The little-endian 64-bit number at offset `off` of `data`.
pub fn read_u64(data: &[u8], off: usize) -> (r: u64)
    requires
        off + 8 <= data@.len(),
    ensures
        r == le64(data@, off as int),
{
    let n = data.len();
    u64_from_le_bytes(slice_subrange(data, off, off + 8))
}

impl ElfFile {
    /// Reads the entry point and the program headers of the file `data`,
    /// or nothing where `data` does not begin with a header that
    /// `header_ok` accepts.
    pub fn parse(data: &[u8]) -> (r: Option<ElfFile>)
        ensures
            r is Some <==> header_ok(data@),
            r matches Some(f) ==> f.entry == le64(data@, 24) && f.program_headers@ == spec_headers(
                data@,
            ),
    {
        let len = data.len();
        if len < EHDR_SIZE {
            return None;
        }
        if data[0] != 0x7f || data[1] != 0x45 || data[2] != 0x4c || data[3] != 0x46 {
            return None;
        }
        if data[4] != 2 || data[5] != 1 {
            return None;
        }
        let entry = read_u64(data, 24);
        let phoff = read_u64(data, 32);
        let phentsize = read_u16(data, 54);
        let phnum = read_u16(data, 56);
        if phentsize != 56 {
            return None;
        }
        let total: u64 = phnum as u64 * 56;
        if phoff > len as u64 || total > len as u64 - phoff {
            return None;
        }
        let mut headers: Vec<ProgramHeader> = Vec::new();
        let mut i: usize = 0;
        let n = phnum as usize;
        let base0 = phoff as usize;
        while i < n
            invariant
                i <= n,
                n == phnum,
                phnum == le16(data@, 56),
                base0 == phoff,
                phoff == le64(data@, 32),
                base0 + n * 56 <= data@.len(),
                len == data@.len(),
                headers@.len() == i,
                forall|j: int| 0 <= j < i ==> headers@[j] == spec_header(data@, j),
            decreases n - i,
        {
            assert(base0 + i * 56 + 56 <= len) by (nonlinear_arith)
                requires
                    i < n,
                    base0 + n * 56 <= len,
            ;
            let base = base0 + i * 56;
            let h = ProgramHeader {
                p_type: read_u32(data, base),
                flags: read_u32(data, base + 4),
                offset: read_u64(data, base + 8),
                vaddr: read_u64(data, base + 16),
                filesz: read_u64(data, base + 32),
                memsz: read_u64(data, base + 40),
            };
            headers.push(h);
            i += 1;
        }
        assert(headers@ =~= spec_headers(data@));
        Some(ElfFile { entry, program_headers: headers })
    }
}

} // verus!
