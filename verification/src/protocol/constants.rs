//! Protocol versions, flag bits and code numbers.

use vstd::prelude::*;

verus! {

// Protocol versions
/// The newest protocol spoken here.
pub const PROTOCOL_VERSION: u32 = 31;
/// Zero stands for a final release.
pub const SUBPROTOCOL_VERSION: u32 = 0;
pub const MIN_PROTOCOL_VERSION: u32 = 20;
pub const OLD_PROTOCOL_VERSION: u32 = 25;
pub const MAX_PROTOCOL_VERSION: u32 = 40;

// Network
pub const RSYNC_PORT: u16 = 873;
pub const RSYNC_NAME: &'static str = "rsync";
pub const URL_PREFIX: &'static str = "rsync://";
pub const SYMLINK_PREFIX: &'static str = "/rsyncd-munged/";

// Block / transfer sizes
pub const BLOCK_SIZE: u32 = 700;
pub const WRITE_SIZE: usize = 32768;
pub const CHUNK_SIZE: usize = 32768;
pub const MAX_MAP_SIZE: usize = 262144;
pub const IO_BUFFER_SIZE: usize = 32768;
pub const MAX_BLOCK_SIZE: i32 = 0x20000;
pub const OLD_MAX_BLOCK_SIZE: i32 = 0x20000000;
pub const SPARSE_WRITE_SIZE: usize = 1024;

// Checksum
pub const SUM_LENGTH: usize = 16;
pub const SHORT_SUM_LENGTH: usize = 2;
pub const BLOCKSUM_BIAS: u32 = 10;
/// Added to every byte of a rolling checksum.
pub const CHAR_OFFSET: u32 = 0;
/// MD4 block size.
pub const CSUM_CHUNK: usize = 64;
/// Enough for SHA-512.
pub const MAX_DIGEST_LEN: usize = 64;
pub const MD4_DIGEST_LEN: usize = 16;
pub const MD5_DIGEST_LEN: usize = 16;

// Multiplexed I/O
pub const MPLEX_BASE: u8 = 7;

// XMIT flags (file list transfer)
pub const XMIT_TOP_DIR: u32 = 1;
pub const XMIT_SAME_MODE: u32 = 2;
/// Protocols 28+.
pub const XMIT_EXTENDED_FLAGS: u32 = 4;
/// Protocols 20-27.
pub const XMIT_SAME_RDEV_PRE28: u32 = 4;
pub const XMIT_SAME_UID: u32 = 8;
pub const XMIT_SAME_GID: u32 = 0x10;
pub const XMIT_SAME_NAME: u32 = 0x20;
pub const XMIT_LONG_NAME: u32 = 0x40;
/// Extended flags (XMIT_EXTENDED_FLAGS must be set).
pub const XMIT_SAME_TIME: u32 = 0x80;
/// Devices only.
pub const XMIT_SAME_RDEV_MAJOR: u32 = 0x100;
/// Dirs only (protocols 30+).
pub const XMIT_NO_CONTENT_DIR: u32 = 0x100;
/// Protocols 28+ (non-dirs).
pub const XMIT_HLINKED: u32 = 0x200;
/// Protocols 28-29.
pub const XMIT_SAME_DEV_PRE30: u32 = 0x400;
/// Protocols 30+.
pub const XMIT_USER_NAME_FOLLOWS: u32 = 0x400;
/// Protocols 28-29.
pub const XMIT_RDEV_MINOR_8_PRE30: u32 = 0x800;
/// Protocols 30+.
pub const XMIT_GROUP_NAME_FOLLOWS: u32 = 0x800;
/// Protocols 30+ (HLINKED only).
pub const XMIT_HLINK_FIRST: u32 = 0x1000;
/// Protocols 31+ (w/EXTENDED_FLAGS).
pub const XMIT_IO_ERROR_ENDLIST: u32 = 0x1000;
/// Protocols 31+.
pub const XMIT_MOD_NSEC: u32 = 0x2000;
/// Any protocol.
pub const XMIT_SAME_ATIME: u32 = 0x4000;
/// Any protocol (varint flags).
pub const XMIT_CRTIME_EQ_MTIME: u32 = 0x20000;

// Live flist FLAG_* bits
pub const FLAG_TOP_DIR: u16 = 1;
pub const FLAG_FILE_SENT: u16 = 2;
pub const FLAG_CONTENT_DIR: u16 = 4;
pub const FLAG_MOUNT_DIR: u16 = 8;
pub const FLAG_SKIP_HLINK: u16 = 8;
pub const FLAG_DUPLICATE: u16 = 0x10;
pub const FLAG_MISSING_DIR: u16 = 0x10;
pub const FLAG_HLINKED: u16 = 0x20;
pub const FLAG_HLINK_FIRST: u16 = 0x40;
pub const FLAG_IMPLIED_DIR: u16 = 0x40;
pub const FLAG_HLINK_LAST: u16 = 0x80;
pub const FLAG_HLINK_DONE: u16 = 0x100;
pub const FLAG_LENGTH64: u16 = 0x200;
pub const FLAG_SKIP_GROUP: u16 = 0x400;
pub const FLAG_TIME_FAILED: u16 = 0x800;
pub const FLAG_MOD_NSEC: u16 = 0x1000;
pub const FLAG_GOT_DIR_FLIST: u16 = 0x2000;

// NDX special values (file index)
pub const NDX_DONE: i32 = -1;
pub const NDX_FLIST_EOF: i32 = -2;
pub const NDX_DEL_STATS: i32 = -3;
pub const NDX_FLIST_OFFSET: i32 = -101;

// I/O error bits
pub const IOERR_GENERAL: u32 = 1;
pub const IOERR_VANISHED: u32 = 2;
pub const IOERR_DEL_LIMIT: u32 = 4;

// Delete flags
pub const DEL_NO_UID_WRITE: u32 = 1;
pub const DEL_RECURSE: u32 = 2;
pub const DEL_DIR_IS_EMPTY: u32 = 4;
pub const DEL_FOR_FILE: u32 = 8;
pub const DEL_FOR_DIR: u32 = 0x10;
pub const DEL_FOR_SYMLINK: u32 = 0x20;
pub const DEL_FOR_DEVICE: u32 = 0x40;
pub const DEL_FOR_SPECIAL: u32 = 0x80;
pub const DEL_FOR_BACKUP: u32 = 0x100;

// Itemize-change bits
pub const ITEM_REPORT_ATIME: u32 = 1;
pub const ITEM_REPORT_CHANGE: u32 = 2;
pub const ITEM_REPORT_SIZE: u32 = 4;
/// Symlinks only.
pub const ITEM_REPORT_TIMEFAIL: u32 = 4;
pub const ITEM_REPORT_TIME: u32 = 8;
pub const ITEM_REPORT_PERMS: u32 = 0x10;
pub const ITEM_REPORT_OWNER: u32 = 0x20;
pub const ITEM_REPORT_GROUP: u32 = 0x40;
pub const ITEM_REPORT_ACL: u32 = 0x80;
pub const ITEM_REPORT_XATTR: u32 = 0x100;
pub const ITEM_REPORT_CRTIME: u32 = 0x400;
pub const ITEM_BASIS_TYPE_FOLLOWS: u32 = 0x800;
pub const ITEM_XNAME_FOLLOWS: u32 = 0x1000;
pub const ITEM_IS_NEW: u32 = 0x2000;
pub const ITEM_LOCAL_CHANGE: u32 = 0x4000;
pub const ITEM_TRANSFER: u32 = 0x8000;
pub const ITEM_MISSING_DATA: u32 = 0x10000;
pub const ITEM_DELETED: u32 = 0x20000;
pub const ITEM_MATCHED: u32 = 0x40000;

// Compat flags (protocol 30+)
pub const CF_INC_RECURSE: u32 = 1;
pub const CF_SYMLINK_TIMES: u32 = 2;
pub const CF_SYMLINK_ICONV: u32 = 4;
pub const CF_SAFE_FLIST: u32 = 8;
pub const CF_AVOID_XATTR_OPTIM: u32 = 0x10;
/// Proper_seed_order.
pub const CF_CHKSUM_SEED_FIX: u32 = 0x20;
pub const CF_INPLACE_PARTIAL_DIR: u32 = 0x40;
pub const CF_VARINT_FLIST_FLAGS: u32 = 0x80;
pub const CF_ID0_NAMES: u32 = 0x100;

// Misc sizes / limits
pub const MAX_ARGS: usize = 1000;
pub const MAX_BASIS_DIRS: usize = 20;
pub const MAXPATHLEN: usize = 1024;

// File comparison destinations
pub const COMPARE_DEST: u32 = 1;
pub const COPY_DEST: u32 = 2;
pub const LINK_DEST: u32 = 3;

// Flush modes
pub const NORMAL_FLUSH: u32 = 0;
pub const FULL_FLUSH: u32 = 1;
pub const MSG_FLUSH: u32 = 2;

// Daemon greeting prefix
pub const RSYNCD_GREETING: &'static str = "@RSYNCD:";
pub const RSYNCD_OK: &'static str = "@RSYNCD: OK";
pub const RSYNCD_EXIT: &'static str = "@RSYNCD: EXIT";
pub const RSYNCD_AUTHREQD: &'static str = "@RSYNCD: AUTHREQD";

/// The strong checksums a session can agree on.
#[derive(Debug, Clone, Copy, PartialEq, Eq, Structural)]
pub enum CsumType {
    NoSum,
    /// Protocols below 21.
    Md4Archaic,
    /// Protocols 21 to 26.
    Md4Busted,
    /// Protocols 27 to 29.
    Md4Old,
    /// Protocols from 30 on.
    Md4,
    Md5,
    Sha1,
    Sha256,
    Sha512,
    Xxh64,
    Xxh3_64,
    Xxh3_128,
}

/// What a multiplexed frame carries.
#[derive(Debug, Clone, Copy, PartialEq, Eq, Structural)]
pub enum MsgCode {
    /// Raw data.
    Data,
    ErrorXfer,
    Info,
    Error,
    Warning,
    ErrorSocket,
    Log,
    Client,
    ErrorUtf8,
    /// Reprocess a file index.
    Redo,
    /// Statistics for the generator.
    Stats,
    IoError,
    IoTimeout,
    Noop,
    ErrorExit,
    /// A file was updated.
    Success,
    /// A file was deleted.
    Deleted,
    /// The sender could not open a file.
    NoSend,
}

impl MsgCode {
    /// The number of a message code on the wire.
    pub open spec fn code(self) -> u8 {
        match self {
            MsgCode::Data => 0,
            MsgCode::ErrorXfer => 1,
            MsgCode::Info => 2,
            MsgCode::Error => 3,
            MsgCode::Warning => 4,
            MsgCode::ErrorSocket => 5,
            MsgCode::Log => 6,
            MsgCode::Client => 7,
            MsgCode::ErrorUtf8 => 8,
            MsgCode::Redo => 9,
            MsgCode::Stats => 10,
            MsgCode::IoError => 22,
            MsgCode::IoTimeout => 33,
            MsgCode::Noop => 42,
            MsgCode::ErrorExit => 86,
            MsgCode::Success => 100,
            MsgCode::Deleted => 101,
            MsgCode::NoSend => 102,
        }
    }

    /// The number of this message code on the wire.
    pub fn as_u8(self) -> (v: u8)
        ensures
            v == self.code(),
    {
        match self {
            MsgCode::Data => 0,
            MsgCode::ErrorXfer => 1,
            MsgCode::Info => 2,
            MsgCode::Error => 3,
            MsgCode::Warning => 4,
            MsgCode::ErrorSocket => 5,
            MsgCode::Log => 6,
            MsgCode::Client => 7,
            MsgCode::ErrorUtf8 => 8,
            MsgCode::Redo => 9,
            MsgCode::Stats => 10,
            MsgCode::IoError => 22,
            MsgCode::IoTimeout => 33,
            MsgCode::Noop => 42,
            MsgCode::ErrorExit => 86,
            MsgCode::Success => 100,
            MsgCode::Deleted => 101,
            MsgCode::NoSend => 102,
        }
    }

    /// The message code with the number `v`, where there is one.
    pub fn from_u8(v: u8) -> (res: Option<MsgCode>)
        ensures
            res == msg_code_of(v),
    {
        match v {
            0 => Some(MsgCode::Data),
            1 => Some(MsgCode::ErrorXfer),
            2 => Some(MsgCode::Info),
            3 => Some(MsgCode::Error),
            4 => Some(MsgCode::Warning),
            5 => Some(MsgCode::ErrorSocket),
            6 => Some(MsgCode::Log),
            7 => Some(MsgCode::Client),
            8 => Some(MsgCode::ErrorUtf8),
            9 => Some(MsgCode::Redo),
            10 => Some(MsgCode::Stats),
            22 => Some(MsgCode::IoError),
            33 => Some(MsgCode::IoTimeout),
            42 => Some(MsgCode::Noop),
            86 => Some(MsgCode::ErrorExit),
            100 => Some(MsgCode::Success),
            101 => Some(MsgCode::Deleted),
            102 => Some(MsgCode::NoSend),
            _ => None,
        }
    }
}

/// The message code with the number `v`, where there is one.
pub open spec fn msg_code_of(v: u8) -> Option<MsgCode> {
    if v == 0 {
        Some(MsgCode::Data)
    } else if v == 1 {
        Some(MsgCode::ErrorXfer)
    } else if v == 2 {
        Some(MsgCode::Info)
    } else if v == 3 {
        Some(MsgCode::Error)
    } else if v == 4 {
        Some(MsgCode::Warning)
    } else if v == 5 {
        Some(MsgCode::ErrorSocket)
    } else if v == 6 {
        Some(MsgCode::Log)
    } else if v == 7 {
        Some(MsgCode::Client)
    } else if v == 8 {
        Some(MsgCode::ErrorUtf8)
    } else if v == 9 {
        Some(MsgCode::Redo)
    } else if v == 10 {
        Some(MsgCode::Stats)
    } else if v == 22 {
        Some(MsgCode::IoError)
    } else if v == 33 {
        Some(MsgCode::IoTimeout)
    } else if v == 42 {
        Some(MsgCode::Noop)
    } else if v == 86 {
        Some(MsgCode::ErrorExit)
    } else if v == 100 {
        Some(MsgCode::Success)
    } else if v == 101 {
        Some(MsgCode::Deleted)
    } else if v == 102 {
        Some(MsgCode::NoSend)
    } else {
        None
    }
}

/// Every message code is found again by its number, and a number has a code
/// only if it is that code's number.
pub proof fn msg_code_round_trip(code: MsgCode, v: u8)
    ensures
        msg_code_of(code.code()) == Some(code),
        msg_code_of(v) matches Some(c) ==> c.code() == v,
{
}

} // verus!
