//! One partition's storage: records, segments of records, the log made of
//! segments, and the leader-epoch checkpoint beside it.
//!
//! Nothing here touches a file. Functions take the bytes that files hold and
//! return the bytes and file operations that are to be carried out.

pub mod disk;
pub mod epoch;
pub mod image;
pub mod index;
pub mod log;
pub mod policy_laws;
pub mod record;
pub mod scan;
pub mod segment;
pub mod stable;

pub use epoch::EpochCheckpoint;
pub use log::{AppendInfo, Log};
pub use record::{DecodeOutcome, Record};

use crate::text::{
    chars_of, decimal, find_char, first_of, int_error_text, parse_number, parse_uint, push_decimal,
    same_text,
};
use vstd::prelude::*;
use vstd::slice::*;
use vstd::string::*;

verus! {

/// When appended records are forced to stable storage.
#[derive(Debug, Clone, Copy, PartialEq, Eq, Structural)]
pub enum FsyncPolicy {
    /// fsync after every append. Honest and slow; the durability floor.
    Always,
    /// Group commit: fsync when either `max_bytes` dirty bytes or `max_ms`
    /// milliseconds have accumulated since the last flush. Acks for these
    /// records must be held until the covering flush (the broker's job).
    Batch { max_bytes: u64, max_ms: u64 },
    /// Never fsync explicitly; the OS page cache decides. Kafka's per-broker
    /// default, because its durability story is replication, not the local disk.
    Os,
}

/// What a batch policy's two numbers are read as.
pub open spec fn batch_policy(bytes: Seq<char>, ms: Seq<char>) -> std::result::Result<
    FsyncPolicy,
    Seq<char>,
> {
    match parse_number(bytes, u64::MAX as nat) {
        Err(e) => Err("batch bytes: "@ + int_error_text(e)),
        Ok(b) => match parse_number(ms, u64::MAX as nat) {
            Err(e) => Err("batch ms: "@ + int_error_text(e)),
            Ok(m) => Ok(FsyncPolicy::Batch { max_bytes: b as u64, max_ms: m as u64 }),
        },
    }
}

/// What a policy's text is read as.
pub open spec fn policy_of(s: Seq<char>) -> std::result::Result<FsyncPolicy, Seq<char>> {
    let prefix = "batch:"@;
    if s == "always"@ {
        Ok(FsyncPolicy::Always)
    } else if s == "os"@ {
        Ok(FsyncPolicy::Os)
    } else if !(prefix.len() <= s.len() && s.take(prefix.len() as int) == prefix) {
        Err("unknown fsync policy "@ + s)
    } else {
        let rest = s.skip(prefix.len() as int);
        let colon = first_of(rest, ':');
        if colon == rest.len() {
            Err("batch policy must be batch:<bytes>:<ms>, got "@ + s)
        } else {
            batch_policy(rest.take(colon), rest.skip(colon + 1))
        }
    }
}

fn joined(lead: &str, detail: &str) -> (text: String)
    ensures
        text@ == lead@ + detail@,
{
    let mut text: String = lead.to_owned();
    text.append(detail);
    text
}

impl FsyncPolicy {
    /// Parses `always`, `os`, or `batch:<bytes>:<ms>` (the CLI/bench syntax).
    pub fn parse(s: &str) -> (r: std::result::Result<Self, String>)
        ensures
            match policy_of(s@) {
                Ok(p) => r == Ok::<FsyncPolicy, String>(p),
                Err(text) => r is Err && r->Err_0@ == text,
            },
    {
        if same_text(s, "always") {
            return Ok(FsyncPolicy::Always);
        }
        if same_text(s, "os") {
            return Ok(FsyncPolicy::Os);
        }
        let all: Vec<char> = chars_of(s);
        let prefix: Vec<char> = chars_of("batch:");
        let chars: &[char] = all.as_slice();
        if chars.len() < prefix.len() || !crate::text::same_chars(
            slice_subrange(chars, 0, prefix.len()),
            prefix.as_slice(),
        ) {
            return Err(joined("unknown fsync policy ", s));
        }
        let rest: &[char] = slice_subrange(chars, prefix.len(), chars.len());
        let colon: usize = find_char(rest, ':');
        if colon == rest.len() {
            return Err(joined("batch policy must be batch:<bytes>:<ms>, got ", s));
        }
        let max_bytes: u64 = match parse_uint(slice_subrange(rest, 0, colon), u64::MAX) {
            Ok(n) => n,
            Err(e) => {
                return Err(joined("batch bytes: ", e.message()));
            },
        };
        let max_ms: u64 = match parse_uint(slice_subrange(rest, colon + 1, rest.len()), u64::MAX) {
            Ok(n) => n,
            Err(e) => {
                return Err(joined("batch ms: ", e.message()));
            },
        };
        Ok(FsyncPolicy::Batch { max_bytes, max_ms })
    }
}

#[derive(Debug, Clone, Copy, PartialEq, Eq, Structural)]
pub struct LogConfig {
    pub max_segment_bytes: u64,
    pub index_interval_bytes: u64,
    pub max_record_bytes: u32,
    pub fsync: FsyncPolicy,
}

impl Default for LogConfig {
    fn default() -> (r: Self)
        ensures
            r.max_segment_bytes == 128 * 1024 * 1024,
            r.index_interval_bytes == 4096,
            r.max_record_bytes == 16 * 1024 * 1024,
            r.fsync == (FsyncPolicy::Batch { max_bytes: 1_048_576, max_ms: 50 }),
            r.valid(),
    {
        LogConfig {
            max_segment_bytes: 128 * 1024 * 1024,
            index_interval_bytes: 4096,
            max_record_bytes: 16 * 1024 * 1024,
            fsync: FsyncPolicy::Batch { max_bytes: 1024 * 1024, max_ms: 50 },
        }
    }
}

/// What is wrong with a configuration, if anything.
pub open spec fn config_fault(c: LogConfig) -> Option<Seq<char>> {
    if c.max_segment_bytes < 1024 || c.max_segment_bytes > 0x4000_0000 {
        Some("max_segment_bytes must be within [1 KiB, 1 GiB]"@)
    } else if c.index_interval_bytes < 64 {
        Some("index_interval_bytes must be at least 64"@)
    } else if c.max_record_bytes > 0x4000_0000 {
        Some("max_record_bytes must be at most 1 GiB"@)
    } else {
        None
    }
}

impl LogConfig {
    pub open spec fn valid(self) -> bool {
        config_fault(self) is None
    }

    pub fn validate(&self) -> (r: Result<()>)
        ensures
            match config_fault(*self) {
                None => r is Ok,
                Some(text) => r is Err && r->Err_0@ == StorageFault::InvalidConfig(text),
            },
    {
        // Segment-relative file positions are stored as u32 in the index, so a
        // segment (plus one oversized record) must stay far below 4 GiB.
        if self.max_segment_bytes < 1024 || self.max_segment_bytes > 0x4000_0000 {
            return Err(
                StorageError::InvalidConfig(
                    "max_segment_bytes must be within [1 KiB, 1 GiB]".to_owned(),
                ),
            );
        }
        if self.index_interval_bytes < 64 {
            return Err(
                StorageError::InvalidConfig("index_interval_bytes must be at least 64".to_owned()),
            );
        }
        if self.max_record_bytes > 0x4000_0000 {
            return Err(
                StorageError::InvalidConfig("max_record_bytes must be at most 1 GiB".to_owned()),
            );
        }
        Ok(())
    }
}

#[derive(Debug)]
pub enum StorageError {
    /// A file operation failed; the text describes how.
    Io(String),
    Corrupt { offset: u64, position: u64, reason: String },
    OffsetOutOfRange(u64),
    RecordTooLarge(u64),
    InvalidLayout(String),
    InvalidConfig(String),
}

pub type Result<T> = std::result::Result<T, StorageError>;

/// What a storage error says.
pub enum StorageFault {
    Io(Seq<char>),
    Corrupt { offset: u64, position: u64, reason: Seq<char> },
    OffsetOutOfRange(u64),
    RecordTooLarge(u64),
    InvalidLayout(Seq<char>),
    InvalidConfig(Seq<char>),
}

impl View for StorageError {
    type V = StorageFault;

    open spec fn view(&self) -> StorageFault {
        match *self {
            StorageError::Io(text) => StorageFault::Io(text@),
            StorageError::Corrupt { offset, position, reason } => StorageFault::Corrupt {
                offset,
                position,
                reason: reason@,
            },
            StorageError::OffsetOutOfRange(offset) => StorageFault::OffsetOutOfRange(offset),
            StorageError::RecordTooLarge(len) => StorageFault::RecordTooLarge(len),
            StorageError::InvalidLayout(text) => StorageFault::InvalidLayout(text@),
            StorageError::InvalidConfig(text) => StorageFault::InvalidConfig(text@),
        }
    }
}

/// The text that describes a storage error.
pub open spec fn storage_error_text(f: StorageFault) -> Seq<char> {
    match f {
        StorageFault::Io(text) => "io: "@ + text,
        StorageFault::Corrupt { offset, position, reason } => "corrupt data at file position "@
            + decimal(position as nat) + " (near offset "@ + decimal(offset as nat) + "): "@ + reason,
        StorageFault::OffsetOutOfRange(offset) => "offset "@ + decimal(offset as nat)
            + " out of range"@,
        StorageFault::RecordTooLarge(len) => "record too large: "@ + decimal(len as nat)
            + " bytes"@,
        StorageFault::InvalidLayout(text) => "invalid log layout: "@ + text,
        StorageFault::InvalidConfig(text) => "invalid config: "@ + text,
    }
}

impl StorageError {
    /// The text that describes this error.
    pub fn message(&self) -> (text: String)
        ensures
            text@ == storage_error_text(self@),
    {
        match self {
            StorageError::Io(detail) => joined("io: ", detail.as_str()),
            StorageError::Corrupt { offset, position, reason } => {
                let mut text: String = "corrupt data at file position ".to_owned();
                push_decimal(&mut text, *position);
                text.append(" (near offset ");
                push_decimal(&mut text, *offset);
                text.append("): ");
                text.append(reason.as_str());
                text
            },
            StorageError::OffsetOutOfRange(offset) => {
                let mut text: String = "offset ".to_owned();
                push_decimal(&mut text, *offset);
                text.append(" out of range");
                text
            },
            StorageError::RecordTooLarge(len) => {
                let mut text: String = "record too large: ".to_owned();
                push_decimal(&mut text, *len);
                text.append(" bytes");
                text
            },
            StorageError::InvalidLayout(detail) => joined(
                "invalid log layout: ",
                detail.as_str(),
            ),
            StorageError::InvalidConfig(detail) => joined("invalid config: ", detail.as_str()),
        }
    }
}

} // verus!
