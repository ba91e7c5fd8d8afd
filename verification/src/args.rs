//! Target specifications from the command line: each names an image file,
//! optionally with an explicit depth level as `path=z`.

use crate::text::first_eq;
use crate::text::lemma_first_eq;
use crate::text::parse_u8;
use crate::text::parses_as_u8;
use crate::text::spec_trim;
use crate::text::trim_str;
use crate::text::u8_val;
use vstd::prelude::*;
use vstd::string::StrSliceExecFns;
use vstd::string::StringExecFns;

verus! {

/// The command line: the illumination data file and the target
/// specifications.
pub struct Args {
    pub input: String,
    pub files: Vec<String>,
}

/// Why a set of target specifications was refused.
#[derive(Clone, Copy, PartialEq, Eq, Structural, Debug)]
pub enum TargetError {
    /// The text after `'='` is not a depth level a `u8` can hold.
    BadZLevel,
    /// Neither one file per depth level nor a single template was given.
    CountMismatch,
}

/// Splits a target specification into its path and its optional depth
/// level: everything before the first `'='` (trimmed) is the path, and what
/// follows must read as a small decimal number. A specification without
/// `'='` is a bare path with no depth.
pub fn parse_path_arg(arg: &str) -> (r: Result<(String, Option<u8>), TargetError>)
    ensures
        ({
            let t = spec_trim(arg@);
            let i = first_eq(t);
            if i == t.len() {
                r matches Ok(p) && p.0@ == t && p.1 is None
            } else {
                let path = spec_trim(t.subrange(0, i));
                let ztext = spec_trim(t.subrange(i + 1, t.len() as int));
                if parses_as_u8(ztext) {
                    r matches Ok(p) && p.0@ == path && (p.1 matches Some(z) && z as int == u8_val(
                        ztext,
                    ))
                } else {
                    r matches Err(e) && e == TargetError::BadZLevel
                }
            }
        }),
{
    let t = trim_str(arg);
    let n: usize = t.unicode_len();
    let mut i: usize = 0;
    while i < n && t.get_char(i) != '='
        invariant
            n == t@.len(),
            i <= n,
            forall|k: int| 0 <= k < i ==> t@[k] != '=',
        decreases n - i,
    {
        i = i + 1;
    }
    proof {
        lemma_first_eq(t@, i as int);
    }
    if i == n {
        Ok((t.to_owned(), None))
    } else {
        let path = trim_str(t.substring_char(0, i));
        let ztext = trim_str(t.substring_char(i + 1, n));
        match parse_u8(ztext) {
            Some(z) => Ok((path.to_owned(), Some(z))),
            None => Err(TargetError::BadZLevel),
        }
    }
}

} // verus!
