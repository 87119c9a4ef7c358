//! The embedded signature: walks the SuperBlob's index, classifies each blob by
//! its magic, and decodes and digests what it can.
use crate::bytes::{be_u32, be_u64, fits, get_u32, string_at_spec, viewed};
use crate::codedir::{
    cd_hash_spec, code_digest, code_directory_at, code_directory_spec, computed_hashes_spec, hash_result_view,
    hash_type_name, stored_hashes_spec, super_blob_spec, team_id_spec,
    known_hash_type, lemma_be_u32_shift, lemma_super_blob_relocates, BlobIndex, CodeDirectory, SuperBlob, SuperBlobModel,
};
use crate::consts::{
    CSMAGIC_BLOBWRAPPER, CSMAGIC_CODEDIRECTORY, CSMAGIC_EMBEDDED_ENTITLEMENTS,
    CSMAGIC_EMBEDDED_SIGNATURE, CSMAGIC_REQUIREMENTS, CSSLOT_CODEDIRECTORY,
};
use crate::errors::CDMachError;
use crate::primitives::{digest, digest_of, hex_lower, to_hex, DigestAlgorithm, MAX_DIGEST_INPUT};
use vstd::prelude::*;
use vstd::slice::{slice_subrange, slice_to_vec};

verus! {

/// One blob of an embedded signature, classified by its magic. What fails to
/// decode in a blob is kept, as an error, in the field it concerns.
#[derive(Debug)]
pub enum Blob {
    CodeDirectory {
        /// `BlobIndex`
        index: BlobIndex,
        /// `CodeDirectory` header
        code_directory: Result<CodeDirectory, CDMachError>,
        /// Identifier string
        identifier: Result<String, CDMachError>,
        /// Team Identifier
        team_id: Result<String, CDMachError>,
        /// Hash Type (e.g., "SHA-1", "SHA-256")
        hash_type: Result<String, CDMachError>,
        /// Stored hash values for each slot index
        cd_hashes: Result<Vec<(i32, String)>, CDMachError>,
        /// Hashes recomputed from the image for each code slot
        computed_cd_hashes: Result<Vec<(i32, String)>, CDMachError>,
        /// Computed CDHash
        cd_hash: Result<String, CDMachError>,
    },
    Requirements { index: BlobIndex },
    Entitlements {
        index: BlobIndex,
        /// the entitlements blob, header included, kept opaque
        entitlements: Result<Vec<u8>, CDMachError>,
    },
    SignedData {
        index: BlobIndex,
        /// SHA-256 of the whole CMS wrapper blob, header included
        sha256_digest: Result<String, CDMachError>,
    },
    Unknown { index: BlobIndex },
    /// A blob whose 8-byte header (magic and length) lies past the buffer.
    Malformed { index: BlobIndex, error: CDMachError },
}

/// What a `Blob` holds, as mathematical values.
pub enum BlobModel {
    CodeDirectory {
        index: BlobIndex,
        code_directory: Result<CodeDirectory, CDMachError>,
        identifier: Result<Seq<char>, CDMachError>,
        team_id: Result<Seq<char>, CDMachError>,
        hash_type: Result<Seq<char>, CDMachError>,
        cd_hashes: Result<Seq<(i32, Seq<char>)>, CDMachError>,
        computed_cd_hashes: Result<Seq<(i32, Seq<char>)>, CDMachError>,
        cd_hash: Result<Seq<char>, CDMachError>,
    },
    Requirements { index: BlobIndex },
    Entitlements { index: BlobIndex, entitlements: Result<Seq<u8>, CDMachError> },
    SignedData { index: BlobIndex, sha256_digest: Result<Seq<char>, CDMachError> },
    Unknown { index: BlobIndex },
    Malformed { index: BlobIndex, error: CDMachError },
}

impl View for Blob {
    type V = BlobModel;

    open spec fn view(&self) -> BlobModel {
        match self {
            Blob::CodeDirectory {
                index,
                code_directory,
                identifier,
                team_id,
                hash_type,
                cd_hashes,
                computed_cd_hashes,
                cd_hash,
            } => BlobModel::CodeDirectory {
                index: *index,
                code_directory: *code_directory,
                identifier: viewed(*identifier),
                team_id: viewed(*team_id),
                hash_type: viewed(*hash_type),
                cd_hashes: hash_result_view(*cd_hashes),
                computed_cd_hashes: hash_result_view(*computed_cd_hashes),
                cd_hash: viewed(*cd_hash),
            },
            Blob::Requirements { index } => BlobModel::Requirements { index: *index },
            Blob::Entitlements { index, entitlements } => BlobModel::Entitlements {
                index: *index,
                entitlements: viewed(*entitlements),
            },
            Blob::SignedData { index, sha256_digest } => BlobModel::SignedData {
                index: *index,
                sha256_digest: viewed(*sha256_digest),
            },
            Blob::Unknown { index } => BlobModel::Unknown { index: *index },
            Blob::Malformed { index, error } => BlobModel::Malformed { index: *index, error: *error },
        }
    }
}

/// The CodeDirectory blob at absolute position `start`. Where its header
/// decodes, each field is decoded from it (the code pages are read from `b`
/// itself, the image from its first byte); where it does not, every field holds
/// the header's error.
pub open spec fn code_directory_blob(b: Seq<u8>, start: int, bi: BlobIndex) -> BlobModel {
    match code_directory_spec(b, start) {
        Ok(cd) => BlobModel::CodeDirectory {
            index: bi,
            code_directory: Ok(cd),
            identifier: string_at_spec(b, start + cd.identOffset),
            team_id: team_id_spec(cd, b, start),
            hash_type: hash_type_name(cd.hashType),
            cd_hashes: stored_hashes_spec(cd, b, start),
            computed_cd_hashes: computed_hashes_spec(cd, b),
            cd_hash: cd_hash_spec(cd, b, start),
        },
        Err(e) => BlobModel::CodeDirectory {
            index: bi,
            code_directory: Err(e),
            identifier: Err(e),
            team_id: Err(e),
            hash_type: Err(e),
            cd_hashes: Err(e),
            computed_cd_hashes: Err(e),
            cd_hash: Err(e),
        },
    }
}

/// The bytes of the blob at `start` with the given length, if they are in the buffer.
pub open spec fn blob_bytes(b: Seq<u8>, start: int, length: u32) -> Result<Seq<u8>, CDMachError> {
    if fits(b, start, length as int) {
        Ok(b.subrange(start, start + length))
    } else {
        Err(CDMachError::Truncated)
    }
}

/// The blob that index entry `bi` of the SuperBlob at `base` points to,
/// classified by its magic.
pub open spec fn blob_spec(b: Seq<u8>, base: int, bi: BlobIndex) -> BlobModel {
    let start = base + bi.offset;
    if !fits(b, start, 8) {
        BlobModel::Malformed { index: bi, error: CDMachError::Truncated }
    } else {
        let magic = be_u32(b, start);
        let length = be_u32(b, start + 4);
        if magic == CSMAGIC_REQUIREMENTS {
            BlobModel::Requirements { index: bi }
        } else if magic == CSMAGIC_CODEDIRECTORY {
            code_directory_blob(b, start, bi)
        } else if magic == CSMAGIC_BLOBWRAPPER {
            BlobModel::SignedData {
                index: bi,
                sha256_digest: match blob_bytes(b, start, length) {
                    Ok(bytes) => Ok(hex_lower(digest_of(DigestAlgorithm::Sha256, bytes))),
                    Err(e) => Err(e),
                },
            }
        } else if magic == CSMAGIC_EMBEDDED_ENTITLEMENTS {
            BlobModel::Entitlements { index: bi, entitlements: blob_bytes(b, start, length) }
        } else {
            BlobModel::Unknown { index: bi }
        }
    }
}

/// Decodes the blob that index entry `bi` of the SuperBlob at `base` points to.
fn decode_blob(buf: &[u8], base: u64, bi: BlobIndex) -> (r: Blob)
    requires
        base <= u32::MAX,
        buf@.len() < MAX_DIGEST_INPUT,
    ensures
        r@ == blob_spec(buf@, base as int, bi),
{
    let len = buf.len() as u64;
    let start = base + bi.offset as u64;
    if len < 8 || start > len - 8 {
        return Blob::Malformed { index: bi, error: CDMachError::Truncated };
    }
    let magic = get_u32(buf, start);
    let length = get_u32(buf, start + 4);
    if magic == CSMAGIC_REQUIREMENTS {
        Blob::Requirements { index: bi }
    } else if magic == CSMAGIC_CODEDIRECTORY {
        match CodeDirectory::parse(buf, start) {
            Ok(cd) => {
                let identifier = cd.identifier(buf, start);
                let team_id = cd.team_id(buf, start);
                let hash_type = match cd.hash_type_str() {
                    Ok(name) => Ok(name.to_owned()),
                    Err(e) => Err(e),
                };
                let cd_hashes = cd.cd_hashes(buf, start);
                let computed_cd_hashes = cd.computed_cd_hashes(buf);
                let cd_hash = cd.compute_cd_hash(buf, start);
                Blob::CodeDirectory {
                    index: bi,
                    code_directory: Ok(cd),
                    identifier,
                    team_id,
                    hash_type,
                    cd_hashes,
                    computed_cd_hashes,
                    cd_hash,
                }
            },
            Err(e) => Blob::CodeDirectory {
                index: bi,
                code_directory: Err(e),
                identifier: Err(e),
                team_id: Err(e),
                hash_type: Err(e),
                cd_hashes: Err(e),
                computed_cd_hashes: Err(e),
                cd_hash: Err(e),
            },
        }
    } else if magic == CSMAGIC_BLOBWRAPPER || magic == CSMAGIC_EMBEDDED_ENTITLEMENTS {
        let bytes = if length as u64 > len - start {
            Err(CDMachError::Truncated)
        } else {
            Ok(slice_subrange(buf, start as usize, (start + length as u64) as usize))
        };
        if magic == CSMAGIC_BLOBWRAPPER {
            let sha256_digest = match bytes {
                Ok(bytes) => Ok(to_hex(digest(DigestAlgorithm::Sha256, bytes).as_slice())),
                Err(e) => Err(e),
            };
            Blob::SignedData { index: bi, sha256_digest }
        } else {
            let entitlements = match bytes {
                Ok(bytes) => Ok(slice_to_vec(bytes)),
                Err(e) => Err(e),
            };
            Blob::Entitlements { index: bi, entitlements }
        }
    } else {
        Blob::Unknown { index: bi }
    }
}

/// An embedded signature: where it is, its envelope, and the blobs it indexes.
#[derive(Debug)]
pub struct CodeSignature {
    /// Offset of the envelope in the buffer
    pub offset: u32,
    /// Size of the envelope as the load command gives it
    pub size: u32,
    /// SuperBlob
    pub super_blob: SuperBlob,
    /// SHA-256 of the whole envelope (its `length` bytes)
    pub signature_digest: String,
    /// `BlobIndex` of the first CodeDirectory
    pub cd_blob_idx: Option<BlobIndex>,
    /// the blobs, one for each index entry, in index order
    pub blobs: Vec<Blob>,
}

/// What a `CodeSignature` holds, as mathematical values.
pub struct CodeSignatureModel {
    pub offset: u32,
    pub size: u32,
    pub super_blob: SuperBlobModel,
    pub signature_digest: Seq<char>,
    pub cd_blob_idx: Option<BlobIndex>,
    pub blobs: Seq<BlobModel>,
}

impl View for CodeSignature {
    type V = CodeSignatureModel;

    open spec fn view(&self) -> CodeSignatureModel {
        CodeSignatureModel {
            offset: self.offset,
            size: self.size,
            super_blob: self.super_blob@,
            signature_digest: self.signature_digest@,
            cd_blob_idx: self.cd_blob_idx,
            blobs: self.blobs@.map_values(|b: Blob| b@),
        }
    }
}

/// The result of looking at a signature region.
#[derive(Debug)]
pub enum SignatureOutcome {
    /// An embedded signature, decoded.
    Embedded(CodeSignature),
    /// Another kind of signature data, left alone.
    Unhandled { magic: u32 },
}

pub enum SignatureOutcomeModel {
    Embedded(CodeSignatureModel),
    Unhandled { magic: u32 },
}

impl View for SignatureOutcome {
    type V = SignatureOutcomeModel;

    open spec fn view(&self) -> SignatureOutcomeModel {
        match self {
            SignatureOutcome::Embedded(cs) => SignatureOutcomeModel::Embedded(cs@),
            SignatureOutcome::Unhandled { magic } => SignatureOutcomeModel::Unhandled {
                magic: *magic,
            },
        }
    }
}

/// Index entry `bi` of the SuperBlob at `base` points to a blob with the CodeDirectory magic.
pub open spec fn is_code_directory_entry(b: Seq<u8>, base: int, bi: BlobIndex) -> bool {
    fits(b, base + bi.offset, 8) && be_u32(b, base + bi.offset) == CSMAGIC_CODEDIRECTORY
}

/// The first entry of `idx` that points to a CodeDirectory.
pub open spec fn first_code_directory(b: Seq<u8>, base: int, idx: Seq<BlobIndex>) -> Option<
    BlobIndex,
>
    decreases idx.len(),
{
    if idx.len() == 0 {
        None
    } else {
        let earlier = first_code_directory(b, base, idx.drop_last());
        if earlier is Some {
            earlier
        } else if is_code_directory_entry(b, base, idx.last()) {
            Some(idx.last())
        } else {
            None
        }
    }
}

/// The signature whose envelope is at `offset`: anything but an embedded
/// signature is left unhandled; an embedded one must have a whole SuperBlob
/// header and index, and its `length` bytes must be in the buffer.
pub open spec fn signature_spec(b: Seq<u8>, offset: u32, size: u32) -> Result<
    SignatureOutcomeModel,
    CDMachError,
> {
    if !fits(b, offset as int, 4) {
        Err(CDMachError::Truncated)
    } else if be_u32(b, offset as int) != CSMAGIC_EMBEDDED_SIGNATURE {
        Ok(SignatureOutcomeModel::Unhandled { magic: be_u32(b, offset as int) })
    } else {
        match super_blob_spec(b, offset as int) {
            Err(e) => Err(e),
            Ok(sb) => if !fits(b, offset as int, sb.length as int) {
                Err(CDMachError::Truncated)
            } else {
                Ok(
                    SignatureOutcomeModel::Embedded(
                        CodeSignatureModel {
                            offset,
                            size,
                            super_blob: sb,
                            signature_digest: hex_lower(
                                digest_of(
                                    DigestAlgorithm::Sha256,
                                    b.subrange(offset as int, offset + sb.length),
                                ),
                            ),
                            cd_blob_idx: first_code_directory(b, offset as int, sb.index),
                            blobs: sb.index.map_values(|bi: BlobIndex| blob_spec(b, offset as int, bi)),
                        },
                    ),
                )
            },
        }
    }
}

impl CodeSignature {
    /// Parses the signature whose envelope starts at `offset` in `buf` and is
    /// `size` bytes long. A failure in one blob is kept inside that blob; only
    /// an unreadable envelope fails the whole parse.
    pub fn parse(offset: u32, size: u32, buf: &[u8]) -> (r: Result<SignatureOutcome, CDMachError>)
        requires
            buf@.len() < MAX_DIGEST_INPUT,
        ensures
            viewed(r) == signature_spec(buf@, offset, size),
    {
        let len = buf.len() as u64;
        let base = offset as u64;
        if len < 4 || base > len - 4 {
            return Err(CDMachError::Truncated);
        }
        let magic = get_u32(buf, base);
        if magic != CSMAGIC_EMBEDDED_SIGNATURE {
            return Ok(SignatureOutcome::Unhandled { magic });
        }
        let super_blob = SuperBlob::parse(buf, base)?;
        if super_blob.length as u64 > len - base {
            return Err(CDMachError::Truncated);
        }
        let envelope = slice_subrange(buf, base as usize, (base + super_blob.length as u64) as usize);
        let signature_digest = to_hex(digest(DigestAlgorithm::Sha256, envelope).as_slice());
        let ghost idx = super_blob.index@;
        let mut blobs: Vec<Blob> = Vec::new();
        let mut cd_blob_idx: Option<BlobIndex> = None;
        let mut i: usize = 0;
        while i < super_blob.index.len()
            invariant
                idx == super_blob.index@,
                i <= idx.len(),
                base == offset,
                len == buf@.len(),
                len < MAX_DIGEST_INPUT,
                blobs@.map_values(|b: Blob| b@) =~= idx.take(i as int).map_values(
                    |bi: BlobIndex| blob_spec(buf@, base as int, bi),
                ),
                cd_blob_idx == first_code_directory(buf@, base as int, idx.take(i as int)),
            decreases idx.len() - i,
        {
            let bi = super_blob.index[i];
            let blob = decode_blob(buf, base, bi);
            if cd_blob_idx.is_none() && is_code_directory_magic(buf, base, bi) {
                cd_blob_idx = Some(bi);
            }
            let ghost before = blobs@;
            let ghost model = blob@;
            blobs.push(blob);
            proof {
                let f = |b: Blob| b@;
                let g = |x: BlobIndex| blob_spec(buf@, base as int, x);
                assert(idx.take(i + 1).drop_last() =~= idx.take(i as int));
                assert(idx.take(i + 1) =~= idx.take(i as int).push(bi));
                assert(blobs@.map_values(f) =~= before.map_values(f).push(model));
                assert(idx.take(i + 1).map_values(g) =~= idx.take(i as int).map_values(g).push(
                    g(bi),
                ));
            }
            i = i + 1;
        }
        assert(idx.take(idx.len() as int) =~= idx);
        Ok(
            SignatureOutcome::Embedded(
                CodeSignature { offset, size, super_blob, signature_digest, cd_blob_idx, blobs },
            ),
        )
    }

    /// The first of the SuperBlob's `count` index entries (as far as the index
    /// holds them) with the CodeDirectory slot type, in an embedded signature.
    pub fn find_code_directory(blob: &SuperBlob) -> (r: Result<Option<BlobIndex>, CDMachError>)
        ensures
            blob.magic != CSMAGIC_EMBEDDED_SIGNATURE ==> r == Err::<Option<BlobIndex>, _>(
                CDMachError::BadMagic(blob.magic),
            ),
            blob.magic == CSMAGIC_EMBEDDED_SIGNATURE ==> match r {
                Ok(Some(bi)) => exists|i: int|
                    0 <= i < scanned_entries(blob) && blob.index@[i] == bi && bi.typ
                        == CSSLOT_CODEDIRECTORY && forall|k: int|
                        0 <= k < i ==> blob.index@[k].typ != CSSLOT_CODEDIRECTORY,
                Ok(None) => false,
                Err(e) => e == CDMachError::NoCodeDirectory && forall|k: int|
                    0 <= k < scanned_entries(blob) ==> blob.index@[k].typ != CSSLOT_CODEDIRECTORY,
            },
    {
        if blob.magic != CSMAGIC_EMBEDDED_SIGNATURE {
            return Err(CDMachError::BadMagic(blob.magic));
        }
        let n: usize = if (blob.count as usize) < blob.index.len() {
            blob.count as usize
        } else {
            blob.index.len()
        };
        let mut i: usize = 0;
        while i < n
            invariant
                n == scanned_entries(blob),
                i <= n,
                blob.magic == CSMAGIC_EMBEDDED_SIGNATURE,
                forall|k: int| 0 <= k < i ==> blob.index@[k].typ != CSSLOT_CODEDIRECTORY,
            decreases n - i,
        {
            if blob.index[i].typ == CSSLOT_CODEDIRECTORY {
                return Ok(Some(blob.index[i]));
            }
            i = i + 1;
        }
        Err(CDMachError::NoCodeDirectory)
    }
}

/// How many index entries a scan of the SuperBlob covers: its `count`, or as
/// many as its index holds where that is fewer.
pub open spec fn scanned_entries(blob: &SuperBlob) -> int {
    if blob.count < blob.index@.len() {
        blob.count as int
    } else {
        blob.index@.len() as int
    }
}

/// Whether index entry `bi` points to a blob with the CodeDirectory magic.
fn is_code_directory_magic(buf: &[u8], base: u64, bi: BlobIndex) -> (r: bool)
    requires
        base <= u32::MAX,
    ensures
        r == is_code_directory_entry(buf@, base as int, bi),
{
    let len = buf.len() as u64;
    let start = base + bi.offset as u64;
    if len < 8 || start > len - 8 {
        return false;
    }
    get_u32(buf, start) == CSMAGIC_CODEDIRECTORY
}

/// Where each indexed blob lies, relative to the SuperBlob at `p`: from its
/// offset to its offset plus the length its header declares.
pub open spec fn blob_spans(b: Seq<u8>, p: int, idx: Seq<BlobIndex>) -> Seq<(int, int)> {
    idx.map_values(|bi: BlobIndex| (bi.offset as int, bi.offset + be_u32(b, p + bi.offset + 4)))
}

/// Sum of the lengths of the spans.
pub open spec fn span_total(s: Seq<(int, int)>) -> int
    decreases s.len(),
{
    if s.len() == 0 {
        0
    } else {
        span_total(s.drop_last()) + (s.last().1 - s.last().0)
    }
}

/// A well-formed envelope: it is in the buffer, and its blobs lie after the
/// index and within the envelope without overlapping.
pub open spec fn envelope_well_formed(b: Seq<u8>, p: int, sb: SuperBlobModel) -> bool {
    let spans = blob_spans(b, p, sb.index);
    &&& fits(b, p, sb.length as int)
    &&& forall|i: int|
        0 <= i < spans.len() ==> 12 + 8 * sb.count <= #[trigger] spans[i].0 && spans[i].1
            <= sb.length
    &&& forall|i: int, j: int|
        0 <= i < spans.len() && 0 <= j < spans.len() && i != j ==> #[trigger] spans[i].1
            <= #[trigger] spans[j].0 || spans[j].1 <= spans[i].0
}

/// Every blob declares a length of at least its own 8-byte header.
pub open spec fn blobs_hold_headers(b: Seq<u8>, p: int, sb: SuperBlobModel) -> bool {
    let spans = blob_spans(b, p, sb.index);
    forall|i: int| 0 <= i < spans.len() ==> #[trigger] spans[i].0 + 8 <= spans[i].1
}

proof fn lemma_span_total_remove(s: Seq<(int, int)>, j: int)
    requires
        0 <= j < s.len(),
    ensures
        span_total(s) == span_total(s.remove(j)) + (s[j].1 - s[j].0),
    decreases s.len(),
{
    if j == s.len() - 1 {
        assert(s.remove(j) =~= s.drop_last());
    } else {
        let t = s.drop_last();
        lemma_span_total_remove(t, j);
        assert(s.remove(j).drop_last() =~= t.remove(j));
        assert(s.remove(j).last() == s.last());
    }
}

proof fn lemma_last_start(s: Seq<(int, int)>) -> (j: int)
    requires
        s.len() > 0,
    ensures
        0 <= j < s.len(),
        forall|i: int| 0 <= i < s.len() ==> s[i].0 < s[j].0 || (s[i].0 == s[j].0 && s[i].1 <= s[j].1),
    decreases s.len(),
{
    if s.len() == 1 {
        0
    } else {
        let k = lemma_last_start(s.drop_last());
        assert(forall|i: int| 0 <= i < s.len() - 1 ==> s.drop_last()[i] == s[i]);
        let l = s.last();
        if l.0 > s[k].0 || (l.0 == s[k].0 && l.1 >= s[k].1) {
            (s.len() - 1) as int
        } else {
            k
        }
    }
}

/// Spans inside `[lo, hi]` that do not overlap have lengths summing to at most
/// `hi - lo`.
proof fn lemma_disjoint_spans(s: Seq<(int, int)>, lo: int, hi: int)
    requires
        lo <= hi,
        forall|i: int| 0 <= i < s.len() ==> lo <= #[trigger] s[i].0 <= s[i].1 <= hi,
        forall|i: int, j: int|
            0 <= i < s.len() && 0 <= j < s.len() && i != j ==> #[trigger] s[i].1 <= #[trigger] s[j].0
                || s[j].1 <= s[i].0,
    ensures
        span_total(s) <= hi - lo,
    decreases s.len(),
{
    if s.len() > 0 {
        let j = lemma_last_start(s);
        let r = s.remove(j);
        assert forall|i: int| 0 <= i < r.len() implies lo <= #[trigger] r[i].0 <= r[i].1 <= s[j].0 by {
            let i2 = if i < j {
                i
            } else {
                i + 1
            };
            assert(r[i] == s[i2]);
            assert(s[i2].1 <= s[j].0 || s[j].1 <= s[i2].0);
        }
        assert forall|i: int, k: int|
            0 <= i < r.len() && 0 <= k < r.len() && i != k implies #[trigger] r[i].1
                <= #[trigger] r[k].0 || r[k].1 <= r[i].0 by {
            let i2 = if i < j {
                i
            } else {
                i + 1
            };
            let k2 = if k < j {
                k
            } else {
                k + 1
            };
            assert(r[i] == s[i2] && r[k] == s[k2]);
            assert(s[i2].1 <= s[k2].0 || s[k2].1 <= s[i2].0);
        }
        lemma_disjoint_spans(r, lo, s[j].0);
        lemma_span_total_remove(s, j);
    }
}

/// In a well-formed envelope the lengths of the indexed blobs add up to no more
/// than the envelope's length less its header and index.
pub proof fn lemma_blobs_fit_envelope(b: Seq<u8>, p: int, sb: SuperBlobModel)
    requires
        super_blob_spec(b, p) == Ok::<SuperBlobModel, CDMachError>(sb),
        envelope_well_formed(b, p, sb),
    ensures
        span_total(blob_spans(b, p, sb.index)) <= sb.length - (12 + 8 * sb.count),
{
    let spans = blob_spans(b, p, sb.index);
    let lo = 12 + 8 * sb.count;
    assert forall|i: int| 0 <= i < spans.len() implies lo <= #[trigger] spans[i].0 <= spans[i].1
        <= sb.length by {}
    lemma_disjoint_spans(spans, lo, sb.length as int);
}

/// The CDHash reported for a CodeDirectory blob is the digest, under its hash
/// type, of exactly `length` bytes from the start of that blob: recomputing it
/// with `compute_cd_hash` at that blob gives the same result.
pub proof fn lemma_cd_hash_covers_blob(b: Seq<u8>, offset: u32, size: u32, k: int)
    requires
        signature_spec(b, offset, size) matches Ok(SignatureOutcomeModel::Embedded(cs)) && 0 <= k
            < cs.blobs.len() && cs.blobs[k] matches BlobModel::CodeDirectory {
            code_directory: Ok(_),
            ..
        },
    ensures
        signature_spec(b, offset, size) matches Ok(SignatureOutcomeModel::Embedded(cs))
            && cs.blobs[k] matches BlobModel::CodeDirectory {
            index,
            code_directory: Ok(cd),
            cd_hash,
            ..
        } && index == cs.super_blob.index[k] && cd_hash == cd_hash_spec(
            cd,
            b,
            offset + index.offset,
        ) && cd.length == be_u32(b, offset + index.offset + 4) && (known_hash_type(cd.hashType)
            && fits(b, offset + index.offset, cd.length as int) ==> cd_hash == Ok::<
            Seq<char>,
            CDMachError,
        >(
            hex_lower(
                code_digest(
                    cd.hashType,
                    b.subrange(offset + index.offset, offset + index.offset + cd.length),
                ),
            ),
        )),
{
}

/// Entry by entry, the envelope's copy and the envelope in place agree on
/// which entries point to a CodeDirectory.
proof fn lemma_first_code_directory_same(
    b: Seq<u8>,
    p: int,
    e: Seq<u8>,
    idx: Seq<BlobIndex>,
)
    requires
        forall|k: int|
            0 <= k < idx.len() ==> is_code_directory_entry(e, 0, #[trigger] idx[k])
                == is_code_directory_entry(b, p, idx[k]),
    ensures
        first_code_directory(e, 0, idx) == first_code_directory(b, p, idx),
    decreases idx.len(),
{
    if idx.len() > 0 {
        let t = idx.drop_last();
        assert forall|k: int| 0 <= k < t.len() implies is_code_directory_entry(e, 0, #[trigger] t[k])
            == is_code_directory_entry(b, p, t[k]) by {
            assert(t[k] == idx[k]);
        }
        lemma_first_code_directory_same(b, p, e, t);
        assert(idx.last() == idx[idx.len() - 1]);
    }
}

/// A blob that lies inside the envelope at `p` (of length `n`) is read the same
/// from a copy of the envelope's bytes.
/// A CodeDirectory header that lies inside the envelope at `p` (of length `n`)
/// decodes the same from a copy of the envelope's bytes.
proof fn lemma_code_directory_relocates(b: Seq<u8>, p: int, n: int, o: int)
    requires
        0 <= p,
        p + n <= b.len(),
        0 <= o,
        o + 88 <= n,
    ensures
        code_directory_spec(b.subrange(p, p + n), o) == code_directory_spec(b, p + o),
{
    let e = b.subrange(p, p + n);
    lemma_be_u32_shift(b, p, n, o);
    lemma_be_u32_shift(b, p, n, o + 4);
    lemma_be_u32_shift(b, p, n, o + 8);
    lemma_be_u32_shift(b, p, n, o + 12);
    lemma_be_u32_shift(b, p, n, o + 16);
    lemma_be_u32_shift(b, p, n, o + 20);
    lemma_be_u32_shift(b, p, n, o + 24);
    lemma_be_u32_shift(b, p, n, o + 28);
    lemma_be_u32_shift(b, p, n, o + 32);
    lemma_be_u32_shift(b, p, n, o + 36);
    lemma_be_u32_shift(b, p, n, o + 40);
    lemma_be_u32_shift(b, p, n, o + 44);
    lemma_be_u32_shift(b, p, n, o + 48);
    lemma_be_u32_shift(b, p, n, o + 52);
    lemma_be_u32_shift(b, p, n, o + 56);
    lemma_be_u32_shift(b, p, n, o + 60);
    lemma_be_u32_shift(b, p, n, o + 64);
    lemma_be_u32_shift(b, p, n, o + 68);
    lemma_be_u32_shift(b, p, n, o + 72);
    lemma_be_u32_shift(b, p, n, o + 76);
    lemma_be_u32_shift(b, p, n, o + 80);
    lemma_be_u32_shift(b, p, n, o + 84);
    assert(code_directory_at(e, o) == code_directory_at(b, p + o)) by {
        assert(be_u64(e, o + 56) == be_u64(b, p + o + 56));
        assert(be_u64(e, o + 64) == be_u64(b, p + o + 64));
        assert(be_u64(e, o + 72) == be_u64(b, p + o + 72));
        assert(be_u64(e, o + 80) == be_u64(b, p + o + 80));
    }
}

proof fn lemma_blob_relocates(b: Seq<u8>, p: int, n: int, bi: BlobIndex)
    requires
        0 <= p,
        p + n <= b.len(),
        bi.offset + 8 <= bi.offset + be_u32(b, p + bi.offset + 4) <= n,
    ensures
        is_code_directory_entry(b.subrange(p, p + n), 0, bi) == is_code_directory_entry(b, p, bi),
        if blob_spec(b, p, bi) is CodeDirectory {
            blob_spec(b.subrange(p, p + n), 0, bi) is CodeDirectory
        } else {
            blob_spec(b.subrange(p, p + n), 0, bi) == blob_spec(b, p, bi)
        },
        be_u32(b, p + bi.offset + 4) >= 88 ==> same_header(
            blob_spec(b.subrange(p, p + n), 0, bi),
            blob_spec(b, p, bi),
        ),
{
    let e = b.subrange(p, p + n);
    let o = bi.offset as int;
    let l = be_u32(b, p + o + 4) as int;
    if l >= 88 {
        lemma_code_directory_relocates(b, p, n, o);
    }
    lemma_be_u32_shift(b, p, n, o);
    lemma_be_u32_shift(b, p, n, o + 4);
    assert(e.subrange(o, o + l) =~= b.subrange(p + o, p + o + l));
    assert(blob_bytes(e, o, l as u32) == blob_bytes(b, p + o, l as u32));
}

/// Both blobs are CodeDirectories with the same header (or the same header
/// error), or neither is a CodeDirectory.
pub open spec fn same_header(x: BlobModel, y: BlobModel) -> bool {
    match (x, y) {
        (
            BlobModel::CodeDirectory { code_directory: c1, .. },
            BlobModel::CodeDirectory { code_directory: c2, .. },
        ) => c1 == c2,
        (BlobModel::CodeDirectory { .. }, _) => false,
        (_, BlobModel::CodeDirectory { .. }) => false,
        _ => true,
    }
}

/// Round trip: the raw bytes of a well-formed envelope, copied out of the
/// buffer and parsed on their own, give the same SuperBlob, the same signature
/// digest and the same primary CodeDirectory; every blob keeps its kind, and
/// every blob but a CodeDirectory is equal. A CodeDirectory whose declared
/// length covers the largest header (88 bytes) keeps its header; its other
/// fields may read the image or strings outside the envelope.
#[verifier::rlimit(50)]
pub proof fn lemma_envelope_round_trip(b: Seq<u8>, offset: u32, size: u32)
    requires
        signature_spec(b, offset, size) matches Ok(SignatureOutcomeModel::Embedded(cs))
            && envelope_well_formed(b, offset as int, cs.super_blob) && blobs_hold_headers(
            b,
            offset as int,
            cs.super_blob,
        ),
    ensures
        signature_spec(b, offset, size) matches Ok(SignatureOutcomeModel::Embedded(cs))
            && signature_spec(
            b.subrange(offset as int, offset + cs.super_blob.length),
            0,
            size,
        ) matches Ok(SignatureOutcomeModel::Embedded(again)) && again.super_blob == cs.super_blob
            && again.signature_digest == cs.signature_digest && again.cd_blob_idx
            == cs.cd_blob_idx && again.blobs.len() == cs.blobs.len() && forall|k: int|
            0 <= k < cs.blobs.len() ==> (if cs.blobs[k] is CodeDirectory {
                #[trigger] again.blobs[k] is CodeDirectory
            } else {
                again.blobs[k] == cs.blobs[k]
            }) && (be_u32(b, offset + cs.super_blob.index[k].offset + 4) >= 88 ==> same_header(
                again.blobs[k],
                cs.blobs[k],
            )),
{
    let p = offset as int;
    let sb = super_blob_spec(b, p)->Ok_0;
    let n = sb.length as int;
    let e = b.subrange(p, p + n);
    lemma_super_blob_relocates(b, p);
    lemma_be_u32_shift(b, p, n, 0);
    assert(e.subrange(0, n) =~= b.subrange(p, p + n));
    let spans = blob_spans(b, p, sb.index);
    assert forall|k: int| 0 <= k < sb.index.len() implies {
        &&& is_code_directory_entry(e, 0, #[trigger] sb.index[k]) == is_code_directory_entry(
            b,
            p,
            sb.index[k],
        )
        &&& if blob_spec(b, p, sb.index[k]) is CodeDirectory {
            blob_spec(e, 0, sb.index[k]) is CodeDirectory
        } else {
            blob_spec(e, 0, sb.index[k]) == blob_spec(b, p, sb.index[k])
        }
        &&& be_u32(b, p + sb.index[k].offset + 4) >= 88 ==> same_header(
            blob_spec(e, 0, sb.index[k]),
            blob_spec(b, p, sb.index[k]),
        )
    } by {
        assert(spans[k].0 + 8 <= spans[k].1 <= n);
        lemma_blob_relocates(b, p, n, sb.index[k]);
    }
    lemma_first_code_directory_same(b, p, e, sb.index);
}

} // verus!
