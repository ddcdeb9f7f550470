//! NTFS Master File Table record parsing: little-endian readers, data-run
//! decoding, update-sequence fixups and attribute walking. Everything
//! here is pure byte-level logic; reading the volume itself is left to
//! the surrounding program.

use vstd::prelude::*;

verus! {

/// Raw file entry collected during scanning, before tree construction.
#[derive(Debug, Clone)]
pub struct RawFileEntry {
    /// Full path to the file or directory.
    pub path: String,
    /// File size in bytes (0 for directories).
    pub size: u64,
    /// Whether this entry is a directory.
    pub is_dir: bool,
    /// Parent directory path.
    pub parent: Option<String>,
    /// MFT record number, when the entry came from the MFT scanner.
    pub mft_record: Option<u64>,
}

/// Progress updates emitted during scanning.
pub enum ScanProgress {
    /// Starting a scan of a drive or path.
    Started { root: String },
    /// Periodic progress update.
    Progress { files_scanned: u64, dirs_scanned: u64, total_bytes: u64 },
    /// Scan completed.
    Completed { total_files: u64, total_dirs: u64, total_bytes: u64, elapsed_ms: u64 },
    /// A non-fatal error.
    Error { path: String, message: String },
}

/// A contiguous extent of MFT data on disk.
#[derive(Debug, Clone, Copy, PartialEq, Eq, Structural)]
pub struct MftExtent {
    /// Byte offset on the volume where this extent starts.
    pub disk_offset: i64,
    /// Number of bytes in this extent.
    pub length: u64,
}

/// Two little-endian bytes as an integer.
pub open spec fn le16(b: Seq<u8>, o: int) -> int {
    b[o] + 0x100 * b[o + 1]
}

/// Four little-endian bytes as an integer.
pub open spec fn le32(b: Seq<u8>, o: int) -> int {
    b[o] + 0x100 * b[o + 1] + 0x10000 * b[o + 2] + 0x1000000 * b[o + 3]
}

/// Six little-endian bytes as an integer (NTFS record references keep
/// the sequence number in the top two bytes of an eight-byte field).
pub open spec fn le48(b: Seq<u8>, o: int) -> int {
    b[o] + 0x100 * b[o + 1] + 0x10000 * b[o + 2] + 0x1000000 * b[o + 3] + 0x100000000 * b[o + 4]
        + 0x10000000000 * b[o + 5]
}

/// Eight little-endian bytes as an integer.
pub open spec fn le64(b: Seq<u8>, o: int) -> int {
    b[o] + 0x100 * b[o + 1] + 0x10000 * b[o + 2] + 0x1000000 * b[o + 3] + 0x100000000 * b[o + 4]
        + 0x10000000000 * b[o + 5] + 0x1000000000000 * b[o + 6] + 0x100000000000000 * b[o + 7]
}

/// Read a 16-bit little-endian value.
pub fn read_u16_le(data: &[u8], offset: usize) -> (r: u16)
    requires
        offset + 2 <= data@.len(),
    ensures
        r == le16(data@, offset as int),
{
    (data[offset] as u16) + 0x100 * (data[offset + 1] as u16)
}

/// Read a 32-bit little-endian value.
pub fn read_u32_le(data: &[u8], offset: usize) -> (r: u32)
    requires
        offset + 4 <= data@.len(),
    ensures
        r == le32(data@, offset as int),
{
    (data[offset] as u32) + 0x100 * (data[offset + 1] as u32) + 0x10000 * (data[offset
        + 2] as u32) + 0x1000000 * (data[offset + 3] as u32)
}

/// Read a 64-bit little-endian value.
pub fn read_u64_le(data: &[u8], offset: usize) -> (r: u64)
    requires
        offset + 8 <= data@.len(),
    ensures
        r == le64(data@, offset as int),
{
    (data[offset] as u64) + 0x100 * (data[offset + 1] as u64) + 0x10000 * (data[offset
        + 2] as u64) + 0x1000000 * (data[offset + 3] as u64) + 0x100000000 * (data[offset
        + 4] as u64) + 0x10000000000 * (data[offset + 5] as u64) + 0x1000000000000 * (data[offset
        + 6] as u64) + 0x100000000000000 * (data[offset + 7] as u64)
}

/// Read the low 48 bits of a 64-bit record reference: the record number
/// without the sequence counter.
pub fn read_u48_le(data: &[u8], offset: usize) -> (r: u64)
    requires
        offset + 8 <= data@.len(),
    ensures
        r == le48(data@, offset as int),
{
    (data[offset] as u64) + 0x100 * (data[offset + 1] as u64) + 0x10000 * (data[offset
        + 2] as u64) + 0x1000000 * (data[offset + 3] as u64) + 0x100000000 * (data[offset
        + 4] as u64) + 0x10000000000 * (data[offset + 5] as u64)
}

/// Decode the data runs of an `$MFT` `$DATA` attribute into disk extents.
/// Offsets are signed and relative to the previous run; sparse runs are
/// skipped; a malformed or overflowing run ends the walk. Returns `None`
/// when no extent was found.
#[verifier::loop_isolation(false)]
pub fn parse_data_runs(data: &[u8], bytes_per_cluster: u64) -> (r: Option<Vec<MftExtent>>)
    requires
        bytes_per_cluster >= 1,
        data@.len() <= 0x1000_0000,
    ensures
        r matches Some(v) ==> v@.len() >= 1 && forall|k: int|
            0 <= k < v@.len() ==> (#[trigger] v@[k]).length % bytes_per_cluster == 0,
{
    let mut extents: Vec<MftExtent> = Vec::new();
    let mut pos: usize = 0;
    let mut current_lcn: i64 = 0;
    while pos < data.len()
        invariant
            pos <= data@.len(),
            forall|k: int|
                0 <= k < extents@.len() ==> (#[trigger] extents@[k]).length % bytes_per_cluster
                    == 0,
        decreases data@.len() - pos,
    {
        let header = data[pos];
        if header == 0 {
            break ;
        }
        pos = pos + 1;
        let length_bytes = (header & 0x0F) as usize;
        let offset_bytes = ((header >> 4) & 0x0F) as usize;
        proof {
            assert(header & 0x0F < 16 && (header >> 4) & 0x0F < 16) by (bit_vector);
        }
        if length_bytes == 0 || pos + length_bytes + offset_bytes > data.len() {
            break ;
        }
        // run length, unsigned little-endian
        let mut run_length: u64 = 0;
        let mut scale: u64 = 1;
        let mut i: usize = 0;
        let mut overflowed = false;
        while i < length_bytes
            invariant
                i <= length_bytes,
                pos + length_bytes <= data@.len(),
                1 <= scale,
            decreases length_bytes - i,
        {
            if scale <= 0x100000000000000 {
                let add = (data[pos + i] as u64).checked_mul(scale);
                match add {
                    Some(a) => {
                        if run_length > u64::MAX - a {
                            overflowed = true;
                        } else {
                            run_length = run_length + a;
                        }
                    },
                    None => {
                        overflowed = true;
                    },
                }
                if scale <= 0xFF_FFFF_FFFF_FFFF {
                    scale = scale * 0x100;
                }
            }
            i = i + 1;
        }
        pos = pos + length_bytes;
        if offset_bytes == 0 {
            // sparse run: no physical location
            continue ;
        }
        // run offset, signed little-endian relative to the previous run
        let mut run_offset: i64 = 0;
        let mut oscale: i64 = 1;
        let mut j: usize = 0;
        while j < offset_bytes
            invariant
                j <= offset_bytes,
                pos + offset_bytes <= data@.len(),
                1 <= oscale,
                oscale <= 0x1000000000000,
                -(if j <= 6 {
                    j as int
                } else {
                    6int
                }) * 0x100_0000_0000_0000 <= run_offset <= (if j <= 6 {
                    j as int
                } else {
                    6int
                }) * 0x100_0000_0000_0000,
            decreases offset_bytes - j,
        {
            if j < 6 {
                proof {
                    assert(oscale * 0x100 <= 0x1000000000000 * 0x100) by (nonlinear_arith)
                        requires
                            1 <= oscale <= 0x1000000000000,
                    ;
                    assert(-0x100_0000_0000_0000 <= ((data@[pos + j] as int) - 0x100) * oscale
                        <= 0x100_0000_0000_0000 && -0x100_0000_0000_0000 <= (data@[pos
                        + j] as int) * oscale <= 0x100_0000_0000_0000) by (nonlinear_arith)
                        requires
                            0 <= data@[pos + j] <= 255 && 1 <= oscale <= 0x1000000000000,
                    ;
                    assert(((j + 1) as int) * 0x100_0000_0000_0000 == (j as int)
                        * 0x100_0000_0000_0000 + 0x100_0000_0000_0000) by (nonlinear_arith);
                    assert((j as int) * 0x100_0000_0000_0000 <= 6 * 0x100_0000_0000_0000)
                        by (nonlinear_arith)
                        requires
                            j <= 6,
                    ;
                }
                let b = data[pos + j] as i64;
                if j + 1 == offset_bytes && b >= 0x80 {
                    // final byte carries the sign: subtract the two's
                    // complement weight
                    run_offset = run_offset + (b - 0x100) * oscale;
                } else {
                    run_offset = run_offset + b * oscale;
                }
                if oscale <= 0x10000000000 {
                    oscale = oscale * 0x100;
                }
            }
            j = j + 1;
        }
        pos = pos + offset_bytes;
        if overflowed {
            break ;
        }
        if run_offset > 0x3FFF_FFFF_FFFF || run_offset < -0x3FFF_FFFF_FFFF {
            break ;
        }
        if current_lcn > 0x3FFF_FFFF_FFFF || current_lcn < -0x3FFF_FFFF_FFFF {
            break ;
        }
        current_lcn = current_lcn + run_offset;
        let disk = current_lcn.checked_mul(bytes_per_cluster as i64);
        let len = run_length.checked_mul(bytes_per_cluster);
        match (disk, len) {
            (Some(d), Some(l)) => {
                proof {
                    vstd::arithmetic::div_mod::lemma_mod_multiples_basic(
                        run_length as int,
                        bytes_per_cluster as int,
                    );
                }
                extents.push(MftExtent { disk_offset: d, length: l });
            },
            _ => {
                break ;
            },
        }
    }
    if extents.len() == 0 {
        None
    } else {
        Some(extents)
    }
}

/// A byte position that an update-sequence fixup may rewrite: the last
/// two bytes of each 512-byte sector covered by the array.
pub open spec fn is_fixup_pos(q: int, usa_count: int) -> bool {
    exists|i: int| 1 <= i < usa_count && (q == #[trigger] (i * 512) - 2 || q == i * 512 - 1)
}

/// Apply NTFS update-sequence fixups to a record in place: each sector's
/// trailing signature bytes are replaced by the stored original bytes
/// when the signature matches. Returns whether the record was large
/// enough and the array sane; bytes outside fixup positions never
/// change.
#[verifier::loop_isolation(false)]
pub fn apply_fixups(record: &mut Vec<u8>) -> (ok: bool)
    ensures
        final(record)@.len() == old(record)@.len(),
        !ok ==> final(record)@ == old(record)@,
        forall|q: int|
            (0 <= q < old(record)@.len() && !is_fixup_pos(q, le16(old(record)@, 6)))
                ==> final(record)@[q] == old(record)@[q],
{
    if record.len() < 512 {
        return false;
    }
    let usa_offset = read_u16_le(record.as_slice(), 0x04) as usize;
    let usa_count = read_u16_le(record.as_slice(), 0x06) as usize;
    if usa_count == 0 || usa_offset + usa_count * 2 > record.len() {
        return false;
    }
    let update_seq = read_u16_le(record.as_slice(), usa_offset);
    let ghost orig = record@;
    let mut i: usize = 1;
    while i < usa_count
        invariant
            1 <= i,
            record@.len() == orig.len(),
            usa_offset + usa_count * 2 <= orig.len(),
            usa_count == le16(orig, 6),
            forall|q: int|
                0 <= q < orig.len() && !is_fixup_pos(q, usa_count as int) ==> record@[q]
                    == orig[q],
        decreases usa_count - i,
    {
        let sector_offset = i * 512 - 2;
        if sector_offset + 2 > record.len() {
            break ;
        }
        let sector_signature = read_u16_le(record.as_slice(), sector_offset);
        if sector_signature == update_seq {
            proof {
                assert(usa_offset + i * 2 + 2 <= usa_offset + usa_count * 2) by (nonlinear_arith)
                    requires
                        1 <= i < usa_count,
                ;
            }
            let fixup_value = read_u16_le(record.as_slice(), usa_offset + i * 2);
            let lo = (fixup_value & 0xFF) as u8;
            let hi = (fixup_value >> 8) as u8;
            proof {
                assert(fixup_value & 0xFF < 256 && fixup_value >> 8 < 256) by (bit_vector);
                assert(is_fixup_pos(i * 512 - 2, usa_count as int));
                assert(is_fixup_pos(i * 512 - 1, usa_count as int));
            }
            record[sector_offset] = lo;
            record[sector_offset + 1] = hi;
        }
        i = i + 1;
    }
    true
}

/// Parse the `$DATA` size out of one MFT record, used for extension
/// records. Returns `None` for directories and for records without an
/// unnamed `$DATA` attribute.
#[verifier::loop_isolation(false)]
pub fn parse_data_size_from_record(record: &[u8]) -> (r: Option<u64>)
    requires
        record@.len() <= 0x1000_0000,
    ensures
        record@.len() < 42 ==> r is None,
        record@.len() >= 42 && (le16(record@, 22) as u16) & 2 != 0 ==> r is None,
{
    if record.len() < 42 {
        return None;
    }
    let flags = read_u16_le(record, 22);
    let is_directory = (flags & 0x02) != 0;
    if is_directory {
        return None;
    }
    let first_attr_offset = read_u16_le(record, 20) as usize;
    let mut offset = first_attr_offset;
    while offset + 16 <= record.len()
        invariant
            offset <= record@.len() + 0x10000,
        decreases record@.len() - offset,
    {
        let attr_type = read_u32_le(record, offset);
        if attr_type == 0xFFFFFFFF {
            break ;
        }
        let attr_length = read_u32_le(record, offset + 4) as usize;
        if attr_length == 0 || attr_length < 16 || attr_length > record.len() - offset {
            break ;
        }
        let non_resident = record[offset + 8];
        let attr_name_length = record[offset + 9] as usize;
        if attr_type == 0x80 && attr_name_length == 0 {
            if non_resident != 0 {
                if offset + 56 <= record.len() {
                    return Some(read_u64_le(record, offset + 48));
                }
            } else if offset + 20 <= record.len() {
                return Some(read_u32_le(record, offset + 16) as u64);
            }
        }
        offset = offset + attr_length;
    }
    None
}

/// What `String::from_utf16_lossy` decodes a code-unit sequence to.
pub uninterp spec fn utf16_lossy_of(units: Seq<u16>) -> Seq<char>;

/// Relies on `String::from_utf16_lossy`: the decoded text depends only
/// on the code units.
#[verifier::external_body]
fn utf16_lossy(units: &Vec<u16>) -> (r: String)
    ensures
        r@ == utf16_lossy_of(units@),
{
    String::from_utf16_lossy(units.as_slice())
}

/// Everything one `$FILE_NAME` / `$DATA` walk of an MFT record yields:
/// the preferred display name, a fallback name accepting every
/// namespace, the parent record reference, the unnamed `$DATA` size, the
/// presence of an `$ATTRIBUTE_LIST`, and the size stored on the best
/// `$FILE_NAME` attribute.
pub struct MftRecordInfo {
    pub best_name: Option<String>,
    pub any_name: Option<String>,
    pub parent_record: Option<u64>,
    pub data_size: Option<u64>,
    pub has_attribute_list: bool,
    pub file_name_size: u64,
}

/// Walk the attributes of one (fixed-up) MFT record. DOS-only names are
/// excluded from the preferred name but still accepted as a fallback, so
/// DOS-only directories are never dropped.
#[verifier::loop_isolation(false)]
#[verifier::rlimit(60)]
pub fn parse_mft_attributes(record: &[u8], is_directory: bool) -> (r: MftRecordInfo)
    requires
        record@.len() <= 0x1000_0000,
    ensures
        is_directory ==> r.data_size is None && r.file_name_size == 0,
        record@.len() < 22 ==> r.best_name is None && r.any_name is None && r.parent_record
            is None && r.data_size is None && !r.has_attribute_list,
{
    let mut info = MftRecordInfo {
        best_name: None,
        any_name: None,
        parent_record: None,
        data_size: None,
        has_attribute_list: false,
        file_name_size: 0,
    };
    let mut any_name_parent: Option<u64> = None;
    let mut best_namespace: u8 = 255;
    if record.len() < 22 {
        return info;
    }
    let first_attr_offset = read_u16_le(record, 20) as usize;
    let mut offset = first_attr_offset;
    while offset + 16 <= record.len()
        invariant
            offset <= record@.len() + 0x10000,
            is_directory ==> info.data_size is None && info.file_name_size == 0,
        decreases record@.len() - offset,
    {
        let attr_type = read_u32_le(record, offset);
        if attr_type == 0xFFFFFFFF {
            break ;
        }
        let attr_length = read_u32_le(record, offset + 4) as usize;
        if attr_length == 0 || attr_length < 16 || attr_length > record.len() - offset {
            break ;
        }
        let non_resident = record[offset + 8];
        let attr_name_length = record[offset + 9] as usize;
        if attr_type == 0x20 {
            info.has_attribute_list = true;
        } else if attr_type == 0x30 && non_resident == 0 && offset + 22 <= record.len() {
            let value_offset_in_attr = read_u16_le(record, offset + 20) as usize;
            let value_offset = offset + value_offset_in_attr;
            if value_offset + 0x42 <= record.len() {
                let parent_ref = read_u48_le(record, value_offset);
                let name_length = record[value_offset + 0x40] as usize;
                let namespace = record[value_offset + 0x41];
                let name_offset = value_offset + 0x42;
                let name_bytes_len = name_length * 2;
                if name_offset + name_bytes_len <= record.len() {
                    let mut units: Vec<u16> = Vec::new();
                    let mut k: usize = 0;
                    while k < name_length
                        invariant
                            name_offset + name_length * 2 <= record@.len(),
                            k <= name_length,
                        decreases name_length - k,
                    {
                        proof {
                            assert(name_offset + k * 2 + 2 <= name_offset + name_length * 2)
                                by (nonlinear_arith)
                                requires
                                    k < name_length,
                            ;
                        }
                        units.push(read_u16_le(record, name_offset + k * 2));
                        k = k + 1;
                    }
                    let name = utf16_lossy(&units);
                    if info.any_name.is_none() {
                        info.any_name = Some(name.clone());
                        any_name_parent = Some(parent_ref);
                    }
                    let priority: u8 = if namespace == 3 {
                        0
                    } else if namespace == 1 {
                        1
                    } else if namespace == 0 {
                        2
                    } else {
                        255
                    };
                    if priority < best_namespace {
                        best_namespace = priority;
                        info.best_name = Some(name.clone());
                        info.parent_record = Some(parent_ref);
                        info.any_name = Some(name);
                        any_name_parent = Some(parent_ref);
                        if !is_directory && value_offset + 0x38 <= record.len() {
                            info.file_name_size = read_u64_le(record, value_offset + 0x30);
                        }
                    }
                }
            }
        } else if attr_type == 0x80 && attr_name_length == 0 && !is_directory {
            if non_resident != 0 {
                if offset + 56 <= record.len() {
                    info.data_size = Some(read_u64_le(record, offset + 48));
                }
            } else if offset + 20 <= record.len() {
                info.data_size = Some(read_u32_le(record, offset + 16) as u64);
            }
        }
        offset = offset + attr_length;
    }
    if info.parent_record.is_none() {
        info.parent_record = any_name_parent;
    }
    info
}

/// Whether raw MFT scanning can work here: it cannot, away from an NTFS
/// volume handle, so the walking scanner is used instead.
pub fn is_mft_available(_drive_letter: char) -> (r: bool)
    ensures
        !r,
{
    false
}

} // verus!
