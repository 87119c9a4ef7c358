//! Magic numbers, slot indices, hash types and CodeDirectory version thresholds.
use vstd::prelude::*;

verus! {

/// single Requirement blob
pub const CSMAGIC_REQUIREMENT: u32 = 0xfade0c00;

/// Requirements vector (internal requirements)
pub const CSMAGIC_REQUIREMENTS: u32 = 0xfade0c01;

/// CodeDirectory blob
pub const CSMAGIC_CODEDIRECTORY: u32 = 0xfade0c02;

/// embedded form of signature data
pub const CSMAGIC_EMBEDDED_SIGNATURE: u32 = 0xfade0cc0;

/// multi-arch collection of embedded signatures
pub const CSMAGIC_DETACHED_SIGNATURE: u32 = 0xfade0cc1;

/// used for the CMS blob
pub const CSMAGIC_BLOBWRAPPER: u32 = 0xfade0b01;

/// embedded entitlements
pub const CSMAGIC_EMBEDDED_ENTITLEMENTS: u32 = 0xfade7171;

pub const CS_PAGE_SIZE: u32 = 4096;

pub const CS_HASHTYPE_SHA1: u8 = 1;

pub const CS_HASHTYPE_SHA256: u8 = 2;

pub const CS_HASHTYPE_SHA256_TRUNCATED: u8 = 3;

pub const CS_HASH_SIZE_SHA1: u32 = 20;

pub const CS_HASH_SIZE_SHA256: u32 = 32;

pub const CS_HASH_SIZE_SHA256_TRUNCATED: u32 = 20;

pub const CSSLOT_CODEDIRECTORY: u32 = 0;

pub const CSSLOT_INFOSLOT: u32 = 1;

pub const CSSLOT_REQUIREMENTS: u32 = 2;

pub const CSSLOT_RESOURCEDIR: u32 = 3;

pub const CSSLOT_APPLICATION: u32 = 4;

pub const CSSLOT_ENTITLEMENTS: u32 = 5;

pub const CSSLOT_ALTERNATE_CODEDIRECTORIES: u32 = 0x1000;

pub const CSSLOT_ALTERNATE_CODEDIRECTORY_MAX: u32 = 5;

pub const CSSLOT_ALTERNATE_CODEDIRECTORY_LIMIT: u32 = CSSLOT_ALTERNATE_CODEDIRECTORIES
    + CSSLOT_ALTERNATE_CODEDIRECTORY_MAX;

pub const CSSLOT_CMS_SIGNATURE: u32 = 0x10000;

pub const kSecCodeSignatureAdhoc: u32 = 2;

/// CodeDirectory version written by current tools ("version 2.4")
pub const CURRENT_VERSION: u32 = 0x20400;

/// highest CodeDirectory version accepted ("version 3 with wiggle room")
pub const COMPATIBILITY_LIMIT: u32 = 0x2F000;

/// earliest supported version
pub const EARLIEST_VERSION: u32 = 0x20001;

/// first version to support scatter option
pub const SUPPORTS_SCATTER: u32 = 0x20100;

/// first version to support team ID option
pub const SUPPORTS_TEAM_ID: u32 = 0x20200;

/// first version to support codeLimit64
pub const SUPPORTS_CODE_LIMIT64: u32 = 0x20300;

/// first version to support exec base and limit
pub const SUPPORTS_EXEC_SEGMENT: u32 = 0x20400;

/// Size of the SuperBlob header: magic, length and count.
pub const SUPER_BLOB_HEADER_SIZE: u32 = 12;

/// Size of one SuperBlob index entry: type and offset.
pub const BLOB_INDEX_SIZE: u32 = 8;

} // verus!
