//! Resource ids on the wire, and the decisions whether a path may be opened:
//! the deny patterns of a scope, then the scopes' verdicts.

use vstd::prelude::*;
use vstd::string::StringExecFns;
use crate::error::{Error, Result, is_raw_error};
use super::line_records::base256_value;

verus! {

/// The big-endian encoding of `n` (`u32::to_be_bytes`).
pub open spec fn be_u32_bytes(n: u32) -> Seq<u8> {
    seq![(n >> 24u32) as u8, (n >> 16u32) as u8, (n >> 8u32) as u8, n as u8]
}

/// The number whose big-endian encoding is the first four bytes of `b`.
pub open spec fn u32_from_be_bytes(b: Seq<u8>) -> u32 {
    ((b[0] as u32) << 24u32) | ((b[1] as u32) << 16u32) | ((b[2] as u32) << 8u32) | (b[3] as u32)
}

/// Law: a resource id sent as bytes reads back as the same id.
pub proof fn lemma_be_u32_roundtrip(n: u32)
    ensures
        u32_from_be_bytes(be_u32_bytes(n)) == n,
{
    let b = be_u32_bytes(n);
    let (b0, b1, b2, b3) = (b[0], b[1], b[2], b[3]);
    assert(((b0 as u32) << 24u32) | ((b1 as u32) << 16u32) | ((b2 as u32) << 8u32) | (b3 as u32)
        == n) by (bit_vector)
        requires
            b0 == (n >> 24u32) as u8,
            b1 == (n >> 16u32) as u8,
            b2 == (n >> 8u32) as u8,
            b3 == n as u8,
    ;
}

/// Law: a resource id is sent as four bytes that spell it in base 256, most
/// significant byte first.
pub proof fn lemma_be_u32_value(n: u32)
    ensures
        be_u32_bytes(n).len() == 4,
        base256_value(be_u32_bytes(n)) == n,
{
    let b = be_u32_bytes(n);
    let (b0, b1, b2, b3) = (b[0], b[1], b[2], b[3]);
    assert(b.take(0) =~= Seq::<u8>::empty());
    assert(base256_value(b.take(1)) == b0 as nat) by {
        assert(b.take(1).drop_last() =~= b.take(0));
        assert(base256_value(b.take(0)) == 0);
        assert(b.take(1).last() == b0);
    }
    assert(base256_value(b.take(2)) == base256_value(b.take(1)) * 256 + b1 as nat) by {
        assert(b.take(2).drop_last() =~= b.take(1));
    }
    assert(base256_value(b.take(3)) == base256_value(b.take(2)) * 256 + b2 as nat) by {
        assert(b.take(3).drop_last() =~= b.take(2));
    }
    assert(base256_value(b) == base256_value(b.take(3)) * 256 + b3 as nat) by {
        assert(b.drop_last() =~= b.take(3));
    }
    assert(n == (((b0 as u32) * 256 + (b1 as u32)) * 256 + (b2 as u32)) * 256 + (b3 as u32))
        by (bit_vector)
        requires
            b0 == (n >> 24u32) as u8,
            b1 == (n >> 16u32) as u8,
            b2 == (n >> 8u32) as u8,
            b3 == n as u8,
    ;
}

/// The bytes a resource id is sent as: big endian.
pub fn convert_rid_to_bytes(rid: u32) -> (bytes: Vec<u8>)
    ensures
        bytes@ == be_u32_bytes(rid),
{
    let mut bytes: Vec<u8> = Vec::new();
    bytes.push((rid >> 24u32) as u8);
    bytes.push((rid >> 16u32) as u8);
    bytes.push((rid >> 8u32) as u8);
    bytes.push(rid as u8);
    assert(bytes@ =~= be_u32_bytes(rid));
    bytes
}

/// The message of a refused path; in debug builds a path that no scope
/// allows gets a hint on where to allow it.
pub open spec fn forbidden_path_message(path: Seq<char>, hint: bool) -> Seq<char> {
    if hint {
        "forbidden path: "@ + path
            + ", maybe it is not allowed on the scope configuration in your capability file"@
    } else {
        "forbidden path: "@ + path
    }
}

/// Decides whether `path` may be opened (the decision in `resolve_path`).
///
/// A path that the plugin's scope or the file-system plugin's scope forbids
/// is refused; otherwise a path that either scope allows is accepted;
/// otherwise it is refused, with a hint when `debug_build`.
pub fn check_path_access(
    path: &str,
    forbidden_by_plugin_scope: bool,
    forbidden_by_fs_scope: bool,
    allowed_by_plugin_scope: bool,
    allowed_by_fs_scope: bool,
    debug_build: bool,
) -> (res: Result<()>)
    ensures
        res is Ok <==> !forbidden_by_plugin_scope && !forbidden_by_fs_scope && (
        allowed_by_plugin_scope || allowed_by_fs_scope),
        res matches Err(e) ==> is_raw_error(
            e,
            forbidden_path_message(
                path@,
                debug_build && !forbidden_by_plugin_scope && !forbidden_by_fs_scope,
            ),
        ),
{
    let mut msg = "forbidden path: ".to_owned();
    msg.append(path);
    if forbidden_by_plugin_scope || forbidden_by_fs_scope {
        return Err(Error::Raw(msg));
    }
    if allowed_by_plugin_scope || allowed_by_fs_scope {
        return Ok(());
    }
    if debug_build {
        msg.append(", maybe it is not allowed on the scope configuration in your capability file");
    }
    Err(Error::Raw(msg))
}

/// Whether `glob::Pattern::new` compiles `pattern`.
pub uninterp spec fn glob_pattern_valid(pattern: Seq<char>) -> bool;

/// What `glob::Pattern::matches_with` answers for the pattern compiled from
/// `pattern`, on `path`, under the match options `case_sensitive`,
/// `require_literal_separator` and `require_literal_leading_dot`. Which
/// characters separate path components is fixed by the target the crate is
/// built for.
pub uninterp spec fn glob_matches(
    pattern: Seq<char>,
    path: Seq<char>,
    case_sensitive: bool,
    require_literal_separator: bool,
    require_literal_leading_dot: bool,
) -> bool;

#[verifier::external_type_specification]
#[verifier::external_body]
pub struct ExGlobPattern(glob::Pattern);

/// A compiled glob pattern, with the text it was compiled from.
struct GlobPattern {
    compiled: glob::Pattern,
    source: Ghost<Seq<char>>,
}

impl GlobPattern {
    /// The text the pattern was compiled from.
    pub closed spec fn source(&self) -> Seq<char> {
        self.source@
    }

    /// `glob::Pattern::matches_with` with the given match options. Claimed:
    /// the answer is that of the pattern compiled from `source()` on `path`,
    /// under these options, and of nothing else.
    #[verifier::external_body]
    fn matches_with(
        &self,
        path: &str,
        case_sensitive: bool,
        require_literal_separator: bool,
        require_literal_leading_dot: bool,
    ) -> (r: bool)
        ensures
            r == glob_matches(
                self.source(),
                path@,
                case_sensitive,
                require_literal_separator,
                require_literal_leading_dot,
            ),
    {
        self.compiled.matches_with(
            path,
            glob::MatchOptions { case_sensitive, require_literal_separator, require_literal_leading_dot },
        )
    }
}

/// `glob::Pattern::new`: compiles `pattern`. Claimed: it succeeds exactly
/// where the pattern is valid, and the result was compiled from `pattern`.
#[verifier::external_body]
fn compile_glob(pattern: &str) -> (r: Option<GlobPattern>)
    ensures
        r is Some == glob_pattern_valid(pattern@),
        r matches Some(g) ==> g.source() == pattern@,
{
    match glob::Pattern::new(pattern) {
        Ok(compiled) => Some(GlobPattern { compiled, source: Ghost(pattern@) }),
        Err(_) => None,
    }
}

/// The deny pattern `pattern` forbids the resolved path `path`: it is a
/// valid glob pattern that matches the path, case-insensitively, with `*`,
/// `?` and `[...]` never matching a path separator, and with a leading dot
/// of a component matched only literally where `require_literal_leading_dot`.
pub open spec fn pattern_forbids(pattern: Seq<char>, path: Seq<char>, require_literal_leading_dot: bool) -> bool {
    &&& glob_pattern_valid(pattern)
    &&& glob_matches(pattern, path, false, true, require_literal_leading_dot)
}

/// Whether a scope whose deny patterns are `forbidden` forbids a path
/// (the decision in `is_forbidden`). `resolved` is the path with symbolic
/// links followed and made canonical, or `None` where that failed or the
/// path is not valid UTF-8: such a path is not forbidden. Otherwise it is
/// forbidden where one of the patterns forbids it (`pattern_forbids`); a
/// separator is matched only by a separator, so that `/dir/*` does not
/// reach into the subdirectories of `/dir`.
pub fn is_forbidden_path(forbidden: &Vec<String>, resolved: Option<String>, require_literal_leading_dot: bool) -> (r: bool)
    ensures
        r == (resolved matches Some(p) && exists|i: int|
            0 <= i < forbidden@.len() && pattern_forbids(
                #[trigger] forbidden@[i]@,
                p@,
                require_literal_leading_dot,
            )),
{
    let path = match &resolved {
        Some(p) => p,
        None => return false,
    };
    let mut i: usize = 0;
    while i < forbidden.len()
        invariant
            i <= forbidden@.len(),
            resolved == Some(*path),
            forall|j: int|
                0 <= j < i ==> !pattern_forbids(#[trigger] forbidden@[j]@, path@, require_literal_leading_dot),
        decreases forbidden@.len() - i,
    {
        match compile_glob(forbidden[i].as_str()) {
            Some(g) => {
                if g.matches_with(path.as_str(), false, true, require_literal_leading_dot) {
                    assert(pattern_forbids(forbidden@[i as int]@, path@, require_literal_leading_dot));
                    return true;
                }
            },
            None => {},
        }
        i = i + 1;
    }
    false
}

} // verus!
