//! The SuperBlob envelope and the CodeDirectory: decoding, and the hash slots.
use crate::bytes::{
    be_u32, be_u64, fits, get_u32, get_u64, read_string_to_nul, read_u32_at, string_at_spec,
    viewed,
};
use crate::consts::{
    COMPATIBILITY_LIMIT, CS_HASHTYPE_SHA1, CS_HASHTYPE_SHA256, CS_HASHTYPE_SHA256_TRUNCATED,
    EARLIEST_VERSION, SUPPORTS_CODE_LIMIT64, SUPPORTS_EXEC_SEGMENT, SUPPORTS_SCATTER,
    SUPPORTS_TEAM_ID,
};
use crate::errors::CDMachError;
use crate::primitives::{
    digest, digest_of, hex_lower, to_hex, DigestAlgorithm, MAX_DIGEST_INPUT,
};
use vstd::arithmetic::div_mod::{
    lemma_fundamental_div_mod, lemma_fundamental_div_mod_converse, lemma_mod_pos_bound,
};
use vstd::arithmetic::power2::{lemma_pow2_pos, lemma_pow2_strictly_increases, lemma_pow2_unfold, pow2};
use vstd::prelude::*;
use vstd::slice::slice_subrange;

verus! {

/// One entry of a SuperBlob's index.
#[derive(Clone, Copy, Debug, Default, PartialEq, Eq, Structural)]
pub struct BlobIndex {
    /// type of entry
    pub typ: u32,
    /// offset of entry, from the start of the SuperBlob
    pub offset: u32,
}

/// The signature envelope: a header and an index of the blobs it holds.
#[derive(Clone, Debug, Default)]
pub struct SuperBlob {
    /// magic number
    pub magic: u32,
    /// total length of SuperBlob
    pub length: u32,
    /// number of index entries following
    pub count: u32,
    /// (count) entries
    pub index: Vec<BlobIndex>,
}

/// What a SuperBlob holds, as mathematical values.
pub struct SuperBlobModel {
    pub magic: u32,
    pub length: u32,
    pub count: u32,
    pub index: Seq<BlobIndex>,
}

impl View for SuperBlob {
    type V = SuperBlobModel;

    open spec fn view(&self) -> SuperBlobModel {
        SuperBlobModel {
            magic: self.magic,
            length: self.length,
            count: self.count,
            index: self.index@,
        }
    }
}

/// Entry `i` of the index of the SuperBlob at `p`.
pub open spec fn index_entry(b: Seq<u8>, p: int, i: int) -> BlobIndex {
    BlobIndex { typ: be_u32(b, p + 12 + 8 * i), offset: be_u32(b, p + 16 + 8 * i) }
}

/// The SuperBlob at `p`. Its header and all `count` index entries must be in the
/// buffer, and the index must fit in the declared length.
pub open spec fn super_blob_spec(b: Seq<u8>, p: int) -> Result<SuperBlobModel, CDMachError> {
    if !fits(b, p, 12) {
        Err(CDMachError::Truncated)
    } else {
        let count = be_u32(b, p + 8);
        let length = be_u32(b, p + 4);
        if 12 + 8 * count > length || !fits(b, p, 12 + 8 * count) {
            Err(CDMachError::Truncated)
        } else {
            Ok(
                SuperBlobModel {
                    magic: be_u32(b, p),
                    length,
                    count,
                    index: Seq::new(count as nat, |i: int| index_entry(b, p, i)),
                },
            )
        }
    }
}

impl SuperBlob {
    /// Decodes the SuperBlob header and index at absolute position `pos`. Offsets
    /// are not followed and types are not checked.
    pub fn parse(buf: &[u8], pos: u64) -> (r: Result<SuperBlob, CDMachError>)
        ensures
            viewed(r) == super_blob_spec(buf@, pos as int),
    {
        let len = buf.len() as u64;
        if len < 12 || pos > len - 12 {
            return Err(CDMachError::Truncated);
        }
        let magic = get_u32(buf, pos);
        let length = get_u32(buf, pos + 4);
        let count = get_u32(buf, pos + 8);
        let need: u64 = 12 + 8 * (count as u64);
        if need > length as u64 || need > len - pos {
            return Err(CDMachError::Truncated);
        }
        let mut index: Vec<BlobIndex> = Vec::new();
        let mut i: u32 = 0;
        while i < count
            invariant
                i <= count,
                len == buf@.len(),
                pos + 12 + 8 * count <= len,
                index@ == Seq::new(i as nat, |k: int| index_entry(buf@, pos as int, k)),
            decreases count - i,
        {
            let q = pos + 12 + 8 * (i as u64);
            let entry = BlobIndex { typ: get_u32(buf, q), offset: get_u32(buf, q + 4) };
            index.push(entry);
            i = i + 1;
            assert(index@ =~= Seq::new(i as nat, |k: int| index_entry(buf@, pos as int, k)));
        }
        let sb = SuperBlob { magic, length, count, index };
        assert(sb@ == super_blob_spec(buf@, pos as int)->Ok_0);
        Ok(sb)
    }
}

/// A CodeDirectory is a typed Blob describing the secured pieces of a program:
/// its identity, its flags, and a packed array of hash digests. The array's
/// element at index zero is at `hashOffset`; it covers the slots
/// `-nSpecialSlots .. nCodeSlots - 1`. Non-negative slots hash pages of the main
/// image, negative ("special") slots hash auxiliary resources.
#[derive(Clone, Copy, Debug, Default, PartialEq, Eq, Structural)]
pub struct CodeDirectory {
    /// magic number (CSMAGIC_CODEDIRECTORY)
    pub magic: u32,
    /// total length of CodeDirectory blob
    pub length: u32,
    /// compatibility version
    pub version: u32,
    /// setup and mode flags
    pub flags: u32,
    /// offset of hash slot element at index zero
    pub hashOffset: u32,
    /// offset of identifier string
    pub identOffset: u32,
    /// number of special hash slots
    pub nSpecialSlots: u32,
    /// number of ordinary (code) hash slots
    pub nCodeSlots: u32,
    /// limit to main image signature range
    pub codeLimit: u32,
    /// size of each hash in bytes
    pub hashSize: u8,
    /// type of hash (CS_HASHTYPE_* constants)
    pub hashType: u8,
    /// platform identifier; zero if not platform binary
    pub platform: u8,
    /// log2(page size in bytes), 0 => infinite
    pub pageSize: u8,
    /// unused (must be zero)
    pub spare2: u32,
    /// offset of optional scatter vector (zero if absent)
    pub scatterOffset: u32,
    /// offset of optional teamID string (zero if absent)
    pub teamIDOffset: u32,
    /// unused (must be zero)
    pub spare3: u32,
    /// limit to main image signature range, 64 bits
    pub codeLimit64: u64,
    /// offset of executable segment
    pub execSegBase: u64,
    /// limit of executable segment
    pub execSegLimit: u64,
    /// exec segment flags
    pub execSegFlags: u64,
}

/// Bytes of header that a CodeDirectory of this version has.
pub open spec fn header_size(version: u32) -> int {
    if version >= SUPPORTS_EXEC_SEGMENT {
        88
    } else if version >= SUPPORTS_CODE_LIMIT64 {
        64
    } else if version >= SUPPORTS_TEAM_ID {
        52
    } else if version >= SUPPORTS_SCATTER {
        48
    } else {
        44
    }
}

/// The version lies in the range this decoder accepts.
pub open spec fn supported_version(version: u32) -> bool {
    EARLIEST_VERSION <= version <= COMPATIBILITY_LIMIT
}

/// The header fields of the CodeDirectory at `p`, for a version whose header
/// is in the buffer; fields newer than the version are zero.
pub open spec fn code_directory_at(b: Seq<u8>, p: int) -> CodeDirectory {
    let version = be_u32(b, p + 8);
    CodeDirectory {
        magic: be_u32(b, p),
        length: be_u32(b, p + 4),
        version,
        flags: be_u32(b, p + 12),
        hashOffset: be_u32(b, p + 16),
        identOffset: be_u32(b, p + 20),
        nSpecialSlots: be_u32(b, p + 24),
        nCodeSlots: be_u32(b, p + 28),
        codeLimit: be_u32(b, p + 32),
        hashSize: b[p + 36],
        hashType: b[p + 37],
        platform: b[p + 38],
        pageSize: b[p + 39],
        spare2: be_u32(b, p + 40),
        scatterOffset: if version >= SUPPORTS_SCATTER {
            be_u32(b, p + 44)
        } else {
            0
        },
        teamIDOffset: if version >= SUPPORTS_TEAM_ID {
            be_u32(b, p + 48)
        } else {
            0
        },
        spare3: if version >= SUPPORTS_CODE_LIMIT64 {
            be_u32(b, p + 52)
        } else {
            0
        },
        codeLimit64: if version >= SUPPORTS_CODE_LIMIT64 {
            be_u64(b, p + 56)
        } else {
            0
        },
        execSegBase: if version >= SUPPORTS_EXEC_SEGMENT {
            be_u64(b, p + 64)
        } else {
            0
        },
        execSegLimit: if version >= SUPPORTS_EXEC_SEGMENT {
            be_u64(b, p + 72)
        } else {
            0
        },
        execSegFlags: if version >= SUPPORTS_EXEC_SEGMENT {
            be_u64(b, p + 80)
        } else {
            0
        },
    }
}

/// The CodeDirectory at `p`: its version must be supported and its header, as
/// long as that version has it, must be in the buffer.
pub open spec fn code_directory_spec(b: Seq<u8>, p: int) -> Result<CodeDirectory, CDMachError> {
    if !fits(b, p, 12) {
        Err(CDMachError::Truncated)
    } else if !supported_version(be_u32(b, p + 8)) {
        Err(CDMachError::UnsupportedVersion(be_u32(b, p + 8)))
    } else if !fits(b, p, header_size(be_u32(b, p + 8))) {
        Err(CDMachError::Truncated)
    } else {
        Ok(code_directory_at(b, p))
    }
}

/// Reads a `u32` field that exists from version `since` on, else zero.
fn field_u32(buf: &[u8], pos: u64, off: u64, version: u32, since: u32) -> (r: u32)
    requires
        version >= since ==> fits(buf@, pos + off, 4),
    ensures
        r == if version >= since {
            be_u32(buf@, pos + off)
        } else {
            0
        },
{
    let _len = buf.len();
    if version >= since {
        get_u32(buf, pos + off)
    } else {
        0
    }
}

/// Reads a `u64` field that exists from version `since` on, else zero.
fn field_u64(buf: &[u8], pos: u64, off: u64, version: u32, since: u32) -> (r: u64)
    requires
        version >= since ==> fits(buf@, pos + off, 8),
    ensures
        r == if version >= since {
            be_u64(buf@, pos + off)
        } else {
            0
        },
{
    let _len = buf.len();
    if version >= since {
        get_u64(buf, pos + off)
    } else {
        0
    }
}

/// The name of a hash type, or the error for one with no digest here.
pub open spec fn hash_type_name(hash_type: u8) -> Result<Seq<char>, CDMachError> {
    if hash_type == CS_HASHTYPE_SHA1 {
        Ok("SHA-1"@)
    } else if hash_type == CS_HASHTYPE_SHA256 {
        Ok("SHA-256"@)
    } else if hash_type == CS_HASHTYPE_SHA256_TRUNCATED {
        Ok("SHA-256-truncated"@)
    } else {
        Err(CDMachError::UnsupportedHashType(hash_type))
    }
}

/// The team ID of `cd`, whose blob starts at `base`: the NUL-terminated string
/// at `base + teamIDOffset`, and an error for a version that has no team ID.
pub open spec fn team_id_spec(cd: CodeDirectory, b: Seq<u8>, base: int) -> Result<
    Seq<char>,
    CDMachError,
> {
    if cd.version < SUPPORTS_TEAM_ID {
        Err(CDMachError::TeamIDUnsupported(cd.version))
    } else {
        string_at_spec(b, base + cd.teamIDOffset)
    }
}

impl CodeDirectory {
    /// Decodes the CodeDirectory header at absolute position `pos`, reading only
    /// the fields that its version has.
    pub fn parse(buf: &[u8], pos: u64) -> (r: Result<CodeDirectory, CDMachError>)
        ensures
            r == code_directory_spec(buf@, pos as int),
    {
        let len = buf.len() as u64;
        if len < 12 || pos > len - 12 {
            return Err(CDMachError::Truncated);
        }
        let version = read_u32_at(buf, pos + 8)?;
        if version < EARLIEST_VERSION || version > COMPATIBILITY_LIMIT {
            return Err(CDMachError::UnsupportedVersion(version));
        }
        let size: u64 = if version >= SUPPORTS_EXEC_SEGMENT {
            88
        } else if version >= SUPPORTS_CODE_LIMIT64 {
            64
        } else if version >= SUPPORTS_TEAM_ID {
            52
        } else if version >= SUPPORTS_SCATTER {
            48
        } else {
            44
        };
        if size > len - pos {
            return Err(CDMachError::Truncated);
        }
        let cd = CodeDirectory {
            magic: get_u32(buf, pos),
            length: get_u32(buf, pos + 4),
            version,
            flags: get_u32(buf, pos + 12),
            hashOffset: get_u32(buf, pos + 16),
            identOffset: get_u32(buf, pos + 20),
            nSpecialSlots: get_u32(buf, pos + 24),
            nCodeSlots: get_u32(buf, pos + 28),
            codeLimit: get_u32(buf, pos + 32),
            hashSize: buf[(pos + 36) as usize],
            hashType: buf[(pos + 37) as usize],
            platform: buf[(pos + 38) as usize],
            pageSize: buf[(pos + 39) as usize],
            spare2: get_u32(buf, pos + 40),
            scatterOffset: field_u32(buf, pos, 44, version, SUPPORTS_SCATTER),
            teamIDOffset: field_u32(buf, pos, 48, version, SUPPORTS_TEAM_ID),
            spare3: field_u32(buf, pos, 52, version, SUPPORTS_CODE_LIMIT64),
            codeLimit64: field_u64(buf, pos, 56, version, SUPPORTS_CODE_LIMIT64),
            execSegBase: field_u64(buf, pos, 64, version, SUPPORTS_EXEC_SEGMENT),
            execSegLimit: field_u64(buf, pos, 72, version, SUPPORTS_EXEC_SEGMENT),
            execSegFlags: field_u64(buf, pos, 80, version, SUPPORTS_EXEC_SEGMENT),
        };
        Ok(cd)
    }

    /// The name of the hash type: "SHA-1", "SHA-256" or "SHA-256-truncated".
    pub fn hash_type_str(&self) -> (r: Result<&'static str, CDMachError>)
        ensures
            viewed(r) == hash_type_name(self.hashType),
    {
        if self.hashType == CS_HASHTYPE_SHA1 {
            Ok("SHA-1")
        } else if self.hashType == CS_HASHTYPE_SHA256 {
            Ok("SHA-256")
        } else if self.hashType == CS_HASHTYPE_SHA256_TRUNCATED {
            Ok("SHA-256-truncated")
        } else {
            Err(CDMachError::UnsupportedHashType(self.hashType))
        }
    }

    /// The identifier: the NUL-terminated string at `base + identOffset`, where
    /// `base` is the absolute position of this CodeDirectory's blob.
    pub fn identifier(&self, buf: &[u8], base: u64) -> (r: Result<String, CDMachError>)
        requires
            base + self.identOffset <= u64::MAX,
        ensures
            viewed(r) == string_at_spec(buf@, base + self.identOffset),
    {
        read_string_to_nul(buf, base + self.identOffset as u64)
    }

    /// The team ID: the NUL-terminated string at `base + teamIDOffset`, where
    /// `base` is the absolute position of this CodeDirectory's blob; an error for
    /// versions before team IDs.
    pub fn team_id(&self, buf: &[u8], base: u64) -> (r: Result<String, CDMachError>)
        requires
            base + self.teamIDOffset <= u64::MAX,
        ensures
            viewed(r) == team_id_spec(*self, buf@, base as int),
    {
        if self.version < SUPPORTS_TEAM_ID {
            Err(CDMachError::TeamIDUnsupported(self.version))
        } else {
            read_string_to_nul(buf, base + self.teamIDOffset as u64)
        }
    }
}

/// A hash type that has a digest here.
pub open spec fn known_hash_type(hash_type: u8) -> bool {
    hash_type == CS_HASHTYPE_SHA1 || hash_type == CS_HASHTYPE_SHA256 || hash_type
        == CS_HASHTYPE_SHA256_TRUNCATED
}

/// The digest of `data` under a CodeDirectory hash type; the truncated
/// SHA-256 keeps the first 20 bytes.
pub open spec fn code_digest(hash_type: u8, data: Seq<u8>) -> Seq<u8> {
    if hash_type == CS_HASHTYPE_SHA1 {
        digest_of(DigestAlgorithm::Sha1, data)
    } else if hash_type == CS_HASHTYPE_SHA256 {
        digest_of(DigestAlgorithm::Sha256, data)
    } else {
        digest_of(DigestAlgorithm::Sha256, data).subrange(0, 20)
    }
}

/// Hex digest of `data` under the hash type.
fn digest_hex(hash_type: u8, data: &[u8]) -> (r: String)
    requires
        known_hash_type(hash_type),
        data@.len() < MAX_DIGEST_INPUT,
    ensures
        r@ == hex_lower(code_digest(hash_type, data@)),
{
    if hash_type == CS_HASHTYPE_SHA1 {
        let d = digest(DigestAlgorithm::Sha1, data);
        to_hex(d.as_slice())
    } else if hash_type == CS_HASHTYPE_SHA256 {
        let d = digest(DigestAlgorithm::Sha256, data);
        to_hex(d.as_slice())
    } else {
        let d = digest(DigestAlgorithm::Sha256, data);
        to_hex(slice_subrange(d.as_slice(), 0, 20))
    }
}

/// The view of a list of slot hashes.
pub open spec fn hash_list_view(v: Seq<(i32, String)>) -> Seq<(i32, Seq<char>)> {
    v.map_values(|e: (i32, String)| (e.0, e.1@))
}

/// The view of a fallible list of slot hashes.
pub open spec fn hash_result_view(r: Result<Vec<(i32, String)>, CDMachError>) -> Result<
    Seq<(i32, Seq<char>)>,
    CDMachError,
> {
    match r {
        Ok(v) => Ok(hash_list_view(v@)),
        Err(e) => Err(e),
    }
}

/// The hash array lies inside the blob, and every slot number fits an `i32`.
pub open spec fn stored_geometry_ok(cd: CodeDirectory) -> bool {
    &&& cd.nSpecialSlots <= 0x8000_0000
    &&& cd.nCodeSlots <= 0x7fff_ffff
    &&& cd.nSpecialSlots * cd.hashSize <= cd.hashOffset
    &&& cd.hashOffset + cd.nCodeSlots * cd.hashSize <= cd.length
}

/// Absolute position of slot `i` of `cd`, whose blob starts at `base`.
pub open spec fn slot_pos(cd: CodeDirectory, base: int, i: int) -> int {
    base + cd.hashOffset + i * cd.hashSize
}

/// The bytes of slot `i`.
pub open spec fn slot_bytes(cd: CodeDirectory, b: Seq<u8>, base: int, i: int) -> Seq<u8> {
    b.subrange(slot_pos(cd, base, i), slot_pos(cd, base, i) + cd.hashSize)
}

/// The stored hashes of `cd`, whose blob starts at `base`: for each slot
/// `i` in `-nSpecialSlots .. nCodeSlots - 1`, in that order, the pair of `i` and
/// the hex of its bytes.
pub open spec fn stored_hashes_spec(cd: CodeDirectory, b: Seq<u8>, base: int) -> Result<
    Seq<(i32, Seq<char>)>,
    CDMachError,
> {
    if !stored_geometry_ok(cd) {
        Err(CDMachError::HashGeometryMismatch)
    } else if base + cd.hashOffset + cd.nCodeSlots * cd.hashSize > b.len() {
        Err(CDMachError::Truncated)
    } else {
        Ok(
            Seq::new(
                (cd.nSpecialSlots + cd.nCodeSlots) as nat,
                |j: int|
                    (
                        (j - cd.nSpecialSlots) as i32,
                        hex_lower(slot_bytes(cd, b, base, j - cd.nSpecialSlots)),
                    ),
            ),
        )
    }
}

/// The page size `2^pageSize` of a CodeDirectory that pages its image.
pub open spec fn page_size(cd: CodeDirectory) -> nat {
    pow2(cd.pageSize as nat)
}

/// The end of the hashed code range: `codeLimit64` where it is nonzero, else `codeLimit`.
pub open spec fn code_limit(cd: CodeDirectory) -> u64 {
    if cd.codeLimit64 != 0 {
        cd.codeLimit64
    } else {
        cd.codeLimit as u64
    }
}

/// The code slots fit the code range: without paging there is exactly one
/// slot; with paging, every slot after the first starts before the code limit.
pub open spec fn code_geometry_ok(cd: CodeDirectory) -> bool {
    &&& cd.nCodeSlots <= 0x7fff_ffff
    &&& if cd.pageSize == 0 {
        cd.nCodeSlots == 1
    } else {
        cd.nCodeSlots <= 1 || (cd.nCodeSlots - 1) * page_size(cd) < code_limit(cd)
    }
}

/// Start of the window that code slot `k` hashes.
pub open spec fn window_start(cd: CodeDirectory, k: int) -> int {
    if cd.pageSize == 0 {
        0
    } else {
        k * page_size(cd)
    }
}

/// End of the window that code slot `k` hashes: the last slot runs to the code limit.
pub open spec fn window_end(cd: CodeDirectory, k: int) -> int {
    if k == cd.nCodeSlots - 1 {
        code_limit(cd) as int
    } else {
        (k + 1) * page_size(cd)
    }
}

/// The code hashes recomputed from `image`: for each code slot `k`, in order,
/// the pair of `k` and the hex digest of its window of the image.
pub open spec fn computed_hashes_spec(cd: CodeDirectory, image: Seq<u8>) -> Result<
    Seq<(i32, Seq<char>)>,
    CDMachError,
> {
    if !code_geometry_ok(cd) {
        Err(CDMachError::HashGeometryMismatch)
    } else if cd.nCodeSlots > 0 && code_limit(cd) > image.len() {
        Err(CDMachError::Truncated)
    } else if !known_hash_type(cd.hashType) {
        Err(CDMachError::UnsupportedHashType(cd.hashType))
    } else {
        Ok(
            Seq::new(
                cd.nCodeSlots as nat,
                |k: int|
                    (
                        k as i32,
                        hex_lower(
                            code_digest(
                                cd.hashType,
                                image.subrange(window_start(cd, k), window_end(cd, k)),
                            ),
                        ),
                    ),
            ),
        )
    }
}

/// The CDHash of `cd`, whose blob starts at `base`: the digest of its `length` bytes.
pub open spec fn cd_hash_spec(cd: CodeDirectory, b: Seq<u8>, base: int) -> Result<
    Seq<char>,
    CDMachError,
> {
    if !fits(b, base, cd.length as int) {
        Err(CDMachError::Truncated)
    } else if !known_hash_type(cd.hashType) {
        Err(CDMachError::UnsupportedHashType(cd.hashType))
    } else {
        Ok(hex_lower(code_digest(cd.hashType, b.subrange(base, base + cd.length))))
    }
}

proof fn lemma_mul_le(a: int, b: int, c: int)
    requires
        0 <= a <= b,
        0 <= c,
    ensures
        a * c <= b * c,
{
    assert(a * c <= b * c) by (nonlinear_arith)
        requires
            0 <= a <= b,
            0 <= c,
    ;
}

impl CodeDirectory {
    /// The stored hashes of every slot, `-nSpecialSlots .. nCodeSlots - 1`, read
    /// from the hash array of this CodeDirectory, whose blob starts at `base`.
    pub fn cd_hashes(&self, buf: &[u8], base: u64) -> (r: Result<Vec<(i32, String)>, CDMachError>)
        requires
            base + self.length <= u64::MAX,
        ensures
            hash_result_view(r) == stored_hashes_spec(*self, buf@, base as int),
    {
        let n_special = self.nSpecialSlots as u64;
        let n_code = self.nCodeSlots as u64;
        let size = self.hashSize as u64;
        if n_special > 0x8000_0000 || n_code > 0x7fff_ffff {
            return Err(CDMachError::HashGeometryMismatch);
        }
        assert(n_special * size <= 0x8000_0000 * 0xff) by (nonlinear_arith)
            requires
                n_special <= 0x8000_0000,
                size <= 0xff,
        ;
        assert(n_code * size <= 0x7fff_ffff * 0xff) by (nonlinear_arith)
            requires
                n_code <= 0x7fff_ffff,
                size <= 0xff,
        ;
        if n_special * size > self.hashOffset as u64 || self.hashOffset as u64 + n_code * size
            > self.length as u64 {
            return Err(CDMachError::HashGeometryMismatch);
        }
        let len = buf.len() as u64;
        let end = base + self.hashOffset as u64 + n_code * size;
        if end > len {
            return Err(CDMachError::Truncated);
        }
        let total = n_special + n_code;
        let first = base + self.hashOffset as u64 - n_special * size;
        let mut hashes: Vec<(i32, String)> = Vec::new();
        let mut j: u64 = 0;
        let mut pos: u64 = first;
        while j < total
            invariant
                total == self.nSpecialSlots + self.nCodeSlots,
                n_special == self.nSpecialSlots,
                n_code == self.nCodeSlots,
                size == self.hashSize,
                n_special <= 0x8000_0000,
                n_code <= 0x7fff_ffff,
                first + n_special * size == base + self.hashOffset,
                end == base + self.hashOffset + n_code * size,
                end <= len,
                len == buf@.len(),
                len <= usize::MAX,
                j <= total,
                pos == first + j * size,
                hash_list_view(hashes@) =~= Seq::new(
                    j as nat,
                    |m: int|
                        (
                            (m - self.nSpecialSlots) as i32,
                            hex_lower(slot_bytes(*self, buf@, base as int, m - self.nSpecialSlots)),
                        ),
                ),
            decreases total - j,
        {
            proof {
                lemma_mul_le(j + 1, total as int, size as int);
                assert((j + 1) * size == j * size + size) by (nonlinear_arith);
                assert(total * size == n_special * size + n_code * size) by (nonlinear_arith)
                    requires
                        total == n_special + n_code,
                ;
                let i = j - n_special;
                assert(slot_pos(*self, base as int, i) == pos) by (nonlinear_arith)
                    requires
                        i == j - n_special,
                        pos == first + j * size,
                        first + n_special * size == base + self.hashOffset,
                        size == self.hashSize,
                ;
            }
            assert(pos + size <= end);
            let bytes = slice_subrange(buf, pos as usize, (pos + size) as usize);
            let i = (j as i64 - n_special as i64) as i32;
            let text = to_hex(bytes);
            assert(bytes@ == slot_bytes(*self, buf@, base as int, j - n_special));
            let ghost before = hashes@;
            hashes.push((i, text));
            assert(hash_list_view(hashes@) =~= hash_list_view(before).push((i, text@)));
            j = j + 1;
            pos = pos + size;
        }
        Ok(hashes)
    }

    /// Recomputes the hash of every code slot from `image`, the bytes of the
    /// Mach-O image from its start: slot `k` covers `[k * 2^pageSize, (k + 1) * 2^pageSize)`,
    /// the last slot ends at the code limit, and without paging the one slot covers
    /// the whole code range.
    pub fn computed_cd_hashes(&self, image: &[u8]) -> (r: Result<
        Vec<(i32, String)>,
        CDMachError,
    >)
        requires
            image@.len() < MAX_DIGEST_INPUT,
        ensures
            hash_result_view(r) == computed_hashes_spec(*self, image@),
    {
        let n = self.nCodeSlots as u64;
        let limit = if self.codeLimit64 != 0 {
            self.codeLimit64
        } else {
            self.codeLimit as u64
        };
        if n > 0x7fff_ffff {
            return Err(CDMachError::HashGeometryMismatch);
        }
        // The page size, or 0 where there is none (no paging) or it exceeds every code limit.
        let page: u64 = if self.pageSize == 0 || self.pageSize >= 64 {
            0
        } else {
            let mut p: u64 = 1;
            let mut e: u8 = 0;
            proof {
                vstd::arithmetic::power2::lemma2_to64();
            }
            while e < self.pageSize
                invariant
                    e <= self.pageSize < 64,
                    p == pow2(e as nat),
                decreases self.pageSize - e,
            {
                proof {
                    lemma_pow2_unfold((e + 1) as nat);
                    lemma_pow2_strictly_increases((e + 1) as nat, 64);
                    vstd::arithmetic::power2::lemma2_to64();
                }
                p = p * 2;
                e = e + 1;
            }
            p
        };
        proof {
            if self.pageSize >= 64 {
                if self.pageSize > 64 {
                    lemma_pow2_strictly_increases(64, self.pageSize as nat);
                }
                vstd::arithmetic::power2::lemma2_to64();
                assert(page_size(*self) >= 0x1_0000_0000_0000_0000);
            }
        }
        let fits_geometry = if self.pageSize == 0 {
            n == 1
        } else if n <= 1 {
            true
        } else if self.pageSize >= 64 {
            // 2^pageSize exceeds every code limit: only slot 0 starts below it.
            proof {
                lemma_mul_le(1, (n - 1) as int, page_size(*self) as int);
            }
            false
        } else {
            assert((n - 1) * page <= 0x7fff_ffff * 0xffff_ffff_ffff_ffff) by (nonlinear_arith)
                requires
                    n <= 0x7fff_ffff,
                    page <= 0xffff_ffff_ffff_ffff,
            ;
            ((n - 1) as u128) * (page as u128) < limit as u128
        };
        if !fits_geometry {
            return Err(CDMachError::HashGeometryMismatch);
        }
        assert(code_geometry_ok(*self));
        let len = image.len() as u64;
        if n > 0 && limit > len {
            return Err(CDMachError::Truncated);
        }
        if !(self.hashType == CS_HASHTYPE_SHA1 || self.hashType == CS_HASHTYPE_SHA256
            || self.hashType == CS_HASHTYPE_SHA256_TRUNCATED) {
            return Err(CDMachError::UnsupportedHashType(self.hashType));
        }
        let mut hashes: Vec<(i32, String)> = Vec::new();
        let mut k: u64 = 0;
        let mut start: u64 = 0;
        assert(window_start(*self, 0) == 0) by (nonlinear_arith);
        while k < n
            invariant
                known_hash_type(self.hashType),
                code_geometry_ok(*self),
                n == self.nCodeSlots,
                limit == code_limit(*self),
                n > 0 ==> limit <= len,
                len == image@.len(),
                len <= usize::MAX,
                len < MAX_DIGEST_INPUT,
                self.pageSize != 0 && self.pageSize < 64 ==> page == page_size(*self),
                (self.pageSize == 0 || self.pageSize >= 64) ==> n <= 1,
                k <= n,
                k < n ==> start == window_start(*self, k as int),
                hash_list_view(hashes@) =~= Seq::new(
                    k as nat,
                    |m: int|
                        (
                            m as i32,
                            hex_lower(
                                code_digest(
                                    self.hashType,
                                    image@.subrange(window_start(*self, m), window_end(*self, m)),
                                ),
                            ),
                        ),
                ),
            decreases n - k,
        {
            let end: u64 = if k == n - 1 {
                limit
            } else {
                proof {
                    lemma_mul_le((k + 1) as int, (n - 1) as int, page_size(*self) as int);
                    assert((k + 1) * page == k * page + page) by (nonlinear_arith);
                }
                start + page
            };
            proof {
                if k < n - 1 {
                    assert(window_end(*self, k as int) == end);
                }
                if self.pageSize != 0 && self.pageSize < 64 {
                    lemma_mul_le(k as int, (n - 1) as int, page_size(*self) as int);
                }
                if n <= 1 {
                    assert(k == 0);
                    assert(window_start(*self, 0) == 0) by (nonlinear_arith);
                }
            }
            assert(start <= end <= len);
            let window = slice_subrange(image, start as usize, end as usize);
            let text = digest_hex(self.hashType, window);
            let ghost before = hashes@;
            hashes.push((k as i32, text));
            assert(hash_list_view(hashes@) =~= hash_list_view(before).push((k as i32, text@)));
            k = k + 1;
            if k < n {
                start = end;
            }
        }
        Ok(hashes)
    }

    /// The CDHash: the digest, under this CodeDirectory's hash type, of the
    /// `length` bytes of its blob, which starts at `base`.
    pub fn compute_cd_hash(&self, buf: &[u8], base: u64) -> (r: Result<String, CDMachError>)
        ensures
            viewed(r) == cd_hash_spec(*self, buf@, base as int),
    {
        let len = buf.len() as u64;
        if base > len || (self.length as u64) > len - base {
            return Err(CDMachError::Truncated);
        }
        if !(self.hashType == CS_HASHTYPE_SHA1 || self.hashType == CS_HASHTYPE_SHA256
            || self.hashType == CS_HASHTYPE_SHA256_TRUNCATED) {
            return Err(CDMachError::UnsupportedHashType(self.hashType));
        }
        let blob = slice_subrange(buf, base as usize, (base + self.length as u64) as usize);
        Ok(digest_hex(self.hashType, blob))
    }
}

/// A SuperBlob whose header is in the buffer, whose count is zero and whose
/// length covers its header decodes without error to an empty index.
pub proof fn lemma_empty_index(b: Seq<u8>, p: int)
    requires
        fits(b, p, 12),
        be_u32(b, p + 8) == 0,
        be_u32(b, p + 4) >= 12,
    ensures
        super_blob_spec(b, p) matches Ok(sb) && sb.count == 0 && sb.index.len() == 0,
{
}

/// `⌈x / d⌉`
pub open spec fn ceil_div(x: int, d: int) -> int {
    (x + d - 1) / d
}

/// The code slots of a paged CodeDirectory are exact: they fit the code range,
/// none is empty, and none is longer than a page; with no slot the range is empty.
pub open spec fn pages_exact(cd: CodeDirectory) -> bool {
    let n = cd.nCodeSlots as int;
    &&& code_geometry_ok(cd)
    &&& n == 0 ==> code_limit(cd) == 0
    &&& n > 0 ==> 0 < window_end(cd, n - 1) - window_start(cd, n - 1) <= page_size(cd)
}

/// With paging on, the code slots are exact precisely when
/// `nCodeSlots = ⌈L / 2^pageSize⌉`, where `L` is the code limit.
pub proof fn lemma_slot_count(cd: CodeDirectory)
    requires
        cd.pageSize > 0,
        cd.nCodeSlots <= 0x7fff_ffff,
    ensures
        pages_exact(cd) <==> cd.nCodeSlots == ceil_div(code_limit(cd) as int, page_size(cd) as int),
{
    let n = cd.nCodeSlots as int;
    let l = code_limit(cd) as int;
    let p = page_size(cd) as int;
    lemma_pow2_pos(cd.pageSize as nat);
    let x = l + p - 1;
    lemma_fundamental_div_mod(x, p);
    lemma_mod_pos_bound(x, p);
    let q = x / p;
    let r = x % p;
    assert(x == q * p + r) by (nonlinear_arith)
        requires
            x == p * q + r,
    ;
    if n == q {
        if n > 0 {
            assert((n - 1) * p == n * p - p) by (nonlinear_arith);
            assert(l > 0) by (nonlinear_arith)
                requires
                    n > 0,
                    x == n * p + r,
                    0 <= r < p,
                    x == l + p - 1,
            ;
        } else {
            assert(q * p == 0) by (nonlinear_arith)
                requires
                    q == 0,
            ;
        }
        assert(pages_exact(cd));
    }
    if pages_exact(cd) {
        if n == 0 {
            assert(0 * p == 0) by (nonlinear_arith);
            lemma_fundamental_div_mod_converse(x, p, 0, p - 1);
        } else {
            assert(window_start(cd, n - 1) == (n - 1) * p);
            assert((n - 1) * p == n * p - p) by (nonlinear_arith);
            lemma_fundamental_div_mod_converse(x, p, n, l + p - 1 - n * p);
        }
    }
}

/// Each recomputed code hash covers one page of the image: with page size
/// `P`, slot `k` before the last hashes `[k·P, (k+1)·P)` and the last slot
/// hashes `[(nCodeSlots−1)·P, L)`.
pub proof fn lemma_code_pages(cd: CodeDirectory, image: Seq<u8>, k: int)
    requires
        computed_hashes_spec(cd, image) is Ok,
        cd.pageSize > 0,
        0 <= k < cd.nCodeSlots,
    ensures
        computed_hashes_spec(cd, image) matches Ok(h) && h.len() == cd.nCodeSlots && h[k].0 == k
            && (k < cd.nCodeSlots - 1 ==> h[k].1 == hex_lower(
            code_digest(
                cd.hashType,
                image.subrange(k * page_size(cd), (k + 1) * page_size(cd)),
            ),
        )) && (k == cd.nCodeSlots - 1 ==> h[k].1 == hex_lower(
            code_digest(
                cd.hashType,
                image.subrange((cd.nCodeSlots - 1) * page_size(cd), code_limit(cd) as int),
            ),
        )),
{
}

/// Without paging there is exactly one code slot, and it covers `[0, L)`.
pub proof fn lemma_unpaged_single_slot(cd: CodeDirectory, image: Seq<u8>)
    requires
        cd.pageSize == 0,
    ensures
        cd.nCodeSlots != 1 ==> computed_hashes_spec(cd, image) == Err::<
            Seq<(i32, Seq<char>)>,
            CDMachError,
        >(CDMachError::HashGeometryMismatch),
        computed_hashes_spec(cd, image) matches Ok(h) ==> h.len() == 1 && h[0] == (
            0i32,
            hex_lower(code_digest(cd.hashType, image.subrange(0, code_limit(cd) as int))),
        ),
{
}

/// A nonzero `codeLimit64` overrides `codeLimit`: it is the code limit, and the
/// recomputed hashes are the same whatever `codeLimit` holds.
pub proof fn lemma_code_limit64_overrides(cd: CodeDirectory, image: Seq<u8>, other_limit: u32)
    requires
        cd.codeLimit64 != 0,
    ensures
        code_limit(cd) == cd.codeLimit64,
        computed_hashes_spec(cd, image) == computed_hashes_spec(
            CodeDirectory { codeLimit: other_limit, ..cd },
            image,
        ),
{
    let other = CodeDirectory { codeLimit: other_limit, ..cd };
    assert(code_limit(other) == code_limit(cd));
    assert(forall|k: int| window_start(other, k) == window_start(cd, k));
    assert(forall|k: int| window_end(other, k) == window_end(cd, k));
    if computed_hashes_spec(cd, image) is Ok {
        assert(computed_hashes_spec(cd, image)->Ok_0 =~= computed_hashes_spec(other, image)->Ok_0);
    }
}

/// A zero-filled special slot is no error: it stays in the table, in its
/// place, as the hex of its zero bytes.
pub proof fn lemma_zero_special_slot(cd: CodeDirectory, b: Seq<u8>, base: int, j: int)
    requires
        stored_geometry_ok(cd),
        0 <= base,
        base + cd.hashOffset + cd.nCodeSlots * cd.hashSize <= b.len(),
        0 <= j < cd.nSpecialSlots,
        forall|k: int|
            0 <= k < cd.hashSize ==> #[trigger] slot_bytes(cd, b, base, j - cd.nSpecialSlots)[k]
                == 0,
    ensures
        stored_hashes_spec(cd, b, base) matches Ok(h) && h[j] == (
            (j - cd.nSpecialSlots) as i32,
            hex_lower(Seq::new(cd.hashSize as nat, |k: int| 0u8)),
        ),
{
    let i = j - cd.nSpecialSlots;
    let hs = cd.hashSize as int;
    let sp = cd.nSpecialSlots as int;
    let nc = cd.nCodeSlots as int;
    assert(i * hs >= -(sp * hs) && i * hs + hs <= 0 && 0 <= nc * hs) by (nonlinear_arith)
        requires
            i == j - sp,
            0 <= j < sp,
            0 <= hs,
            0 <= nc,
    ;
    let z = slot_bytes(cd, b, base, i);
    assert(0 <= slot_pos(cd, base, i) && slot_pos(cd, base, i) + hs <= b.len());
    assert(z.len() == hs);
    assert(forall|k: int| 0 <= k < hs ==> z[k] == 0);
    assert(z =~= Seq::new(cd.hashSize as nat, |k: int| 0u8));
}

/// On a correctly signed image, whose stored code-slot bytes are the digests of
/// the pages they cover, each stored code-slot entry equals the recomputed one.
pub proof fn lemma_signed_pages_match(cd: CodeDirectory, b: Seq<u8>, base: int, image: Seq<u8>)
    requires
        stored_hashes_spec(cd, b, base) is Ok,
        computed_hashes_spec(cd, image) is Ok,
        forall|k: int|
            0 <= k < cd.nCodeSlots ==> #[trigger] slot_bytes(cd, b, base, k) == code_digest(
                cd.hashType,
                image.subrange(window_start(cd, k), window_end(cd, k)),
            ),
    ensures
        forall|k: int|
            0 <= k < cd.nCodeSlots ==> stored_hashes_spec(cd, b, base)->Ok_0[cd.nSpecialSlots + k]
                == #[trigger] computed_hashes_spec(cd, image)->Ok_0[k],
{
    assert forall|k: int| 0 <= k < cd.nCodeSlots implies stored_hashes_spec(cd, b, base)->Ok_0[
        cd.nSpecialSlots + k] == #[trigger] computed_hashes_spec(cd, image)->Ok_0[k] by {
        assert(slot_bytes(cd, b, base, k) == code_digest(
            cd.hashType,
            image.subrange(window_start(cd, k), window_end(cd, k)),
        ));
    }
}

pub(crate) proof fn lemma_be_u32_shift(b: Seq<u8>, p: int, n: int, x: int)
    requires
        0 <= p,
        p + n <= b.len(),
        0 <= x,
        x + 4 <= n,
    ensures
        be_u32(b.subrange(p, p + n), x) == be_u32(b, p + x),
{
}

/// The envelope's own bytes decode to the same SuperBlob: copied out of the
/// buffer and decoded at position zero, they give what they gave in place.
pub proof fn lemma_super_blob_relocates(b: Seq<u8>, p: int)
    requires
        super_blob_spec(b, p) matches Ok(sb) && fits(b, p, sb.length as int),
    ensures
        super_blob_spec(b.subrange(p, p + be_u32(b, p + 4)), 0) == super_blob_spec(b, p),
{
    let sb = super_blob_spec(b, p)->Ok_0;
    let n = sb.length as int;
    let e = b.subrange(p, p + n);
    lemma_be_u32_shift(b, p, n, 0);
    lemma_be_u32_shift(b, p, n, 4);
    lemma_be_u32_shift(b, p, n, 8);
    assert forall|i: int| 0 <= i < sb.count implies index_entry(e, 0, i) == index_entry(b, p, i) by {
        lemma_be_u32_shift(b, p, n, 12 + 8 * i);
        lemma_be_u32_shift(b, p, n, 16 + 8 * i);
    }
    let re = super_blob_spec(e, 0)->Ok_0;
    assert(re.index =~= sb.index);
}

} // verus!
