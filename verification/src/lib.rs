//! Core engine of a live-process memory scanner.
//!
//! The library models the memory map of a target process, plans bounded
//! batches of read requests, resolves the retry protocol of a vectored
//! remote read, evaluates typed value constraints over raw bytes, searches
//! for wildcard byte patterns and encoded strings, and keeps a history of
//! match sets.  All I/O (reading the map description, issuing the remote
//! read call, the interactive command loop) is left to the embedding
//! program, which feeds this library plain bytes and values.

use vstd::prelude::*;

pub mod num;
pub mod value;
pub mod constraint;
pub mod proc_maps;
pub mod remote;
pub mod plan;
pub mod scanner;
pub mod pattern;
pub mod strings;

verus! {

/// Result alias used throughout the library.
pub type Result<T> = core::result::Result<T, Error>;

/// Errors produced by the library's parsers and engines.
///
/// All of these describe malformed input; they are raised before any
/// memory is read.  Unreadable memory is never an error: it is reported
/// per request as an absent buffer.
#[derive(Debug, Clone, Copy, PartialEq, Eq, Structural)]
pub enum Error {
    /// The process id literal is not a valid number.
    PidNotInt,
    /// The process id is zero, which never names a process.
    ZeroPid,
    /// A required argument is absent.
    MissingArgument,
    /// An unsigned numeric literal is malformed or out of range.
    ParseUnsigned,
    /// A signed numeric literal is malformed or out of range.
    ParseSigned,
    /// The literal needs a floating-point parse, which the embedder
    /// performs; the library works on the encoded bits only.
    ParseFloat,
    /// The single-character value type code is not one of the ten known.
    UnknownTypeCode,
    /// A pattern token is neither a two-digit hex byte nor a wildcard;
    /// carries the token's position in the pattern.
    InvalidPatternByte { index: usize },
    /// Every token of the pattern is a wildcard, so nothing anchors it.
    AllWildcardPattern,
    /// A per-byte occurrence counter of an anchor would overflow.
    AnchorCounterOverflow,
}

/// System process id of the target process.
///
/// A valid process id is strictly positive.
#[derive(Debug, Clone, Copy, PartialEq, Eq, Structural)]
pub struct Pid(pub usize);

impl Pid {
    /// A usable process id is non-zero.
    pub open spec fn wf(self) -> bool {
        self.0 > 0
    }

    /// Wraps a raw id, rejecting zero.
    pub fn new(raw: usize) -> (r: Option<Pid>)
        ensures
            match r {
                Some(p) => p.0 == raw && p.wf(),
                None => raw == 0,
            },
    {
        if raw == 0 {
            None
        } else {
            Some(Pid(raw))
        }
    }

    /// Parses a decimal process id literal, rejecting zero.
    pub fn parse(token: &[u8]) -> (r: Result<Pid>)
        ensures
            match r {
                Ok(p) => {
                    &&& p.wf()
                    &&& crate::num::dec_u64_val(token@) == Some(p.0 as int)
                },
                Err(Error::PidNotInt) => {
                    ||| crate::num::dec_u64_val(token@) is None
                    ||| crate::num::dec_u64_val(token@).unwrap() > usize::MAX
                },
                Err(Error::ZeroPid) => crate::num::dec_u64_val(token@) == Some(0int),
                Err(_) => false,
            },
    {
        match crate::num::parse_u64_dec(token) {
            Ok(v) => {
                if v > usize::MAX as u64 {
                    Err(Error::PidNotInt)
                } else if v == 0 {
                    Err(Error::ZeroPid)
                } else {
                    Ok(Pid(v as usize))
                }
            },
            Err(_) => Err(Error::PidNotInt),
        }
    }
}

} // verus!
