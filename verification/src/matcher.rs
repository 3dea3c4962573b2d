//! The executable glob matcher, proved equal to the specification semantics.
//!
//! [`match_batch`] matches one pattern against many candidate paths; its
//! contract pins every returned boolean to [`glob_outcome`] of the pattern
//! bytes and that candidate's bytes alone, so results never depend on the
//! other candidates in the batch.

use vstd::prelude::*;
use crate::charset::extract_charset;
use crate::semantics::MatchErr;
use crate::semantics::Outcome;
use crate::semantics::PatState;
use crate::semantics::ResRes;
use crate::semantics::ScanRes;
use crate::semantics::back_run;
use crate::semantics::glob_outcome;
use crate::semantics::lemma_parse_class_bounds;
use crate::semantics::lemma_resolve_bounds;
use crate::semantics::no_slash;
use crate::semantics::normalize;
use crate::semantics::resolve_from;
use crate::semantics::resolve_step;
use crate::semantics::run_match;
use crate::semantics::scan;
use crate::semantics::trial_allowed;
use crate::semantics::trial_is_last;
use vstd::slice::slice_subrange;
use vstd::string::StringSliceAdditionalSpecFns;
use vstd::utf8::encode_utf8;

verus! {

/// The byte sequence that a `String` value holds.
pub open spec fn string_bytes(s: String) -> Seq<u8> {
    encode_utf8(s@)
}

/// The message text reported for each kind of malformed pattern.
pub open spec fn error_text(e: MatchErr) -> Seq<char> {
    match e {
        MatchErr::TrailingBackslash => "Pattern ends with backslash"@,
        MatchErr::UnclosedCharset => "Unclosed character class"@,
        MatchErr::EmptyCharset => "Empty character class"@,
        MatchErr::InvalidRange => "Invalid range in character class"@,
    }
}

/// The outcome of one pattern (held in a `String`) against one candidate
/// byte sequence.
pub open spec fn pattern_outcome(pat: String, path: Seq<u8>) -> Outcome {
    glob_outcome(string_bytes(pat), path)
}

/// The first `k` patterns of the list all fail to match `path`.
pub open spec fn first_k_fail(patterns: Seq<String>, path: Seq<u8>, k: int) -> bool {
    forall|j: int| 0 <= j < k ==> #[trigger] pattern_outcome(patterns[j], path) == Outcome::Failed
}

/// Match the anchor items starting at pattern index `pi` against the
/// candidate from index `si`. `Ok(Some((pi2, si2)))` is a completed scan,
/// `Ok(None)` a mismatch, `Err` a malformed construct.
fn scan_anchor(p: &[u8], pi: usize, s: &[u8], si: usize) -> (r: Result<
    Option<(usize, usize)>,
    MatchErr,
>)
    requires
        pi <= p@.len(),
        si <= s@.len(),
    ensures
        match r {
            Ok(Some((pi2, si2))) => {
                &&& scan(p@, pi as int, s@, si as int) == (ScanRes::Done {
                    pi: pi2 as int,
                    si: si2 as int,
                })
                &&& pi2 <= p@.len()
                &&& si <= si2 <= s@.len()
            },
            Ok(None) => scan(p@, pi as int, s@, si as int) == ScanRes::NoMatch,
            Err(e) => scan(p@, pi as int, s@, si as int) == ScanRes::Bad(e),
        },
{
    let mut cpi = pi;
    let mut csi = si;
    while cpi < p.len()
        invariant
            cpi <= p@.len(),
            csi <= s@.len(),
            si <= csi,
            scan(p@, cpi as int, s@, csi as int) == scan(p@, pi as int, s@, si as int),
        decreases p@.len() - cpi,
    {
        let c = p[cpi];
        if c == 0x2au8 {
            return Ok(Some((cpi, csi)));
        } else if c == 0x5cu8 {
            if p.len() - cpi < 2 {
                return Err(MatchErr::TrailingBackslash);
            }
            if csi < s.len() && s[csi] == p[cpi + 1] {
                cpi = cpi + 2;
                csi = csi + 1;
            } else {
                return Ok(None);
            }
        } else if c == 0x5bu8 {
            match extract_charset(p, cpi) {
                Err(e) => {
                    return Err(e);
                },
                Ok((cs, next)) => {
                    proof {
                        lemma_parse_class_bounds(p@, cpi as int);
                    }
                    if csi < s.len() && cs.matches(s[csi]) {
                        cpi = next;
                        csi = csi + 1;
                    } else {
                        return Ok(None);
                    }
                },
            }
        } else if c == 0x3fu8 {
            if csi < s.len() && s[csi] != 0x2fu8 {
                cpi = cpi + 1;
                csi = csi + 1;
            } else {
                return Ok(None);
            }
        } else {
            if csi < s.len() && s[csi] == c {
                cpi = cpi + 1;
                csi = csi + 1;
            } else {
                return Ok(None);
            }
        }
    }
    Ok(Some((cpi, csi)))
}

/// The length of the maximal non-`/` run of `s` ending at `hi`, never
/// reaching below `lo`.
fn back_run_len(s: &[u8], lo: usize, hi: usize) -> (r: usize)
    requires
        lo <= hi <= s@.len(),
    ensures
        r as int == back_run(s@, lo as int, hi as int),
{
    let mut j = hi;
    let mut n: usize = 0;
    while j > lo && s[j - 1] != 0x2fu8
        invariant
            lo <= j <= hi <= s@.len(),
            n == hi - j,
            back_run(s@, lo as int, hi as int) == n + back_run(s@, lo as int, j as int),
        decreases j,
    {
        j = j - 1;
        n = n + 1;
    }
    n
}

/// Is there a `/` among the bytes of `s` in `[lo, hi)`?
fn has_slash(s: &[u8], lo: usize, hi: usize) -> (r: bool)
    requires
        lo <= hi <= s@.len(),
    ensures
        r == !no_slash(s@, lo as int, hi as int),
{
    let mut j = lo;
    while j < hi
        invariant
            lo <= j <= hi <= s@.len(),
            no_slash(s@, lo as int, j as int),
        decreases hi - j,
    {
        if s[j] == 0x2fu8 {
            return true;
        }
        j = j + 1;
    }
    false
}

/// Resolve one wildcard run: search upward from advance `0` for the
/// smallest allowed advance whose anchor scan succeeds, exactly as
/// [`resolve_from`] prescribes.
fn match_wildcard_segment(
    p: &[u8],
    p0: usize,
    s: &[u8],
    pos: usize,
    globstar: bool,
    k: usize,
) -> (r: Result<Option<(usize, usize)>, MatchErr>)
    requires
        p0 <= p@.len(),
        pos <= s@.len(),
    ensures
        match r {
            Ok(Some((pi2, si2))) => {
                &&& resolve_from(p@, p0 as int, s@, pos as int, 0, globstar, k as nat)
                    == (ResRes::Committed { pi: pi2 as int, si: si2 as int })
                &&& pi2 <= p@.len()
                &&& si2 <= s@.len()
            },
            Ok(None) => resolve_from(p@, p0 as int, s@, pos as int, 0, globstar, k as nat)
                == ResRes::NoMatch,
            Err(e) => resolve_from(p@, p0 as int, s@, pos as int, 0, globstar, k as nat)
                == ResRes::Bad(e),
        },
{
    let n = s.len();
    let max = n - pos;
    let mut d: usize = 0;
    while d <= max
        invariant
            d <= max,
            n == s@.len(),
            max == s@.len() - pos,
            pos <= s@.len(),
            p0 <= p@.len(),
            resolve_from(p@, p0 as int, s@, pos as int, 0, globstar, k as nat) == resolve_from(
                p@,
                p0 as int,
                s@,
                pos as int,
                d as int,
                globstar,
                k as nat,
            ),
        decreases max - d,
    {
        let allowed = if globstar {
            k == 0 || back_run_len(s, pos, pos + d) == k
        } else {
            !has_slash(s, pos, pos + d) && (k == 0 || d == k)
        };
        let last = !globstar && ((pos + d < s.len() && s[pos + d] == 0x2fu8) || (k > 0 && d >= k));
        assert(allowed == trial_allowed(s@, pos as int, d as int, globstar, k as nat));
        assert(last == trial_is_last(s@, pos as int, d as int, globstar, k as nat));
        if allowed {
            match scan_anchor(p, p0, s, pos + d) {
                Err(e) => {
                    return Err(e);
                },
                Ok(Some((pi2, si2))) => {
                    return Ok(Some((pi2, si2)));
                },
                Ok(None) => {
                    if last || d == max {
                        return Ok(None);
                    }
                },
            }
        } else {
            if last || d == max {
                return Ok(None);
            }
        }
        d = d + 1;
    }
    Ok(None)
}

/// Walk one already-normalized pattern against one candidate. `Ok(true)` is
/// a match, `Ok(false)` a non-match, `Err` a malformed construct reached
/// while the candidate was still viable.
fn match_single(p: &[u8], s: &[u8]) -> (r: Result<bool, MatchErr>)
    ensures
        match r {
            Ok(b) => run_match(p@, 0, PatState::Literal, 0, s@, 0) == (if b {
                Outcome::Matched
            } else {
                Outcome::Failed
            }),
            Err(e) => run_match(p@, 0, PatState::Literal, 0, s@, 0) == Outcome::Error(e),
        },
{
    let mut pi: usize = 0;
    let mut pos: usize = 0;
    let mut st = PatState::Literal;
    let mut qc: usize = 0;
    while pi < p.len()
        invariant
            pi <= p@.len(),
            pos <= s@.len(),
            qc <= pi,
            run_match(p@, pi as int, st, qc as nat, s@, pos as int) == run_match(
                p@,
                0,
                PatState::Literal,
                0,
                s@,
                0,
            ),
        decreases p@.len() - pi,
    {
        let c = p[pi];
        if c == 0x2au8 {
            st = match st {
                PatState::Literal => PatState::InWildcard,
                PatState::InWildcard => PatState::InPossibleGlobstar,
                PatState::InPossibleGlobstar => PatState::InPossibleGlobstar,
                PatState::InGlobstar => PatState::InSuperWild,
                PatState::InSuperWild => PatState::InSuperWild,
            };
            pi = pi + 1;
        } else if c == 0x2fu8 {
            match st {
                PatState::Literal => {
                    if pos < s.len() && s[pos] == 0x2fu8 {
                        pos = pos + 1;
                        pi = pi + 1;
                    } else {
                        return Ok(false);
                    }
                },
                PatState::InPossibleGlobstar => {
                    st = PatState::InGlobstar;
                    pi = pi + 1;
                },
                PatState::InGlobstar | PatState::InSuperWild => {
                    pi = pi + 1;
                },
                PatState::InWildcard => {
                    match resolve_here(p, pi, s, pos, false, qc) {
                        Err(e) => {
                            return Err(e);
                        },
                        Ok(None) => {
                            return Ok(false);
                        },
                        Ok(Some((pi2, si2))) => {
                            pi = pi2;
                            pos = si2;
                            st = PatState::Literal;
                            qc = 0;
                        },
                    }
                },
            }
        } else if c == 0x3fu8 {
            match st {
                PatState::Literal => {
                    if pos < s.len() && s[pos] != 0x2fu8 {
                        pos = pos + 1;
                        pi = pi + 1;
                    } else {
                        return Ok(false);
                    }
                },
                _ => {
                    qc = qc + 1;
                    pi = pi + 1;
                },
            }
        } else {
            let globstar = match st {
                PatState::Literal => false,
                PatState::InWildcard | PatState::InPossibleGlobstar => false,
                PatState::InGlobstar | PatState::InSuperWild => true,
            };
            match st {
                PatState::Literal => {
                    if c == 0x5cu8 {
                        if p.len() - pi < 2 {
                            return Err(MatchErr::TrailingBackslash);
                        }
                        if pos < s.len() && s[pos] == p[pi + 1] {
                            pos = pos + 1;
                            pi = pi + 2;
                        } else {
                            return Ok(false);
                        }
                    } else if c == 0x5bu8 {
                        match extract_charset(p, pi) {
                            Err(e) => {
                                return Err(e);
                            },
                            Ok((cs, next)) => {
                                proof {
                                    lemma_parse_class_bounds(p@, pi as int);
                                }
                                if pos < s.len() && cs.matches(s[pos]) {
                                    pos = pos + 1;
                                    pi = next;
                                } else {
                                    return Ok(false);
                                }
                            },
                        }
                    } else {
                        if pos < s.len() && s[pos] == c {
                            pos = pos + 1;
                            pi = pi + 1;
                        } else {
                            return Ok(false);
                        }
                    }
                },
                _ => {
                    match resolve_here(p, pi, s, pos, globstar, qc) {
                        Err(e) => {
                            return Err(e);
                        },
                        Ok(None) => {
                            return Ok(false);
                        },
                        Ok(Some((pi2, si2))) => {
                            pi = pi2;
                            pos = si2;
                            st = PatState::Literal;
                            qc = 0;
                        },
                    }
                },
            }
        }
    }
    match st {
        PatState::Literal => {
            if pos == s.len() {
                Ok(true)
            } else if s[pos] == 0x2fu8 {
                Ok(true)
            } else {
                Ok(false)
            }
        },
        _ => Ok(true),
    }
}

/// Resolve the wildcard run whose anchor starts at `pi`, mirroring
/// [`resolve_step`]: on a commit the walk continues at the returned pattern
/// index with a cleared state.
fn resolve_here(p: &[u8], pi: usize, s: &[u8], pos: usize, globstar: bool, qc: usize) -> (r:
    Result<Option<(usize, usize)>, MatchErr>)
    requires
        pi < p@.len(),
        p@[pi as int] != 0x2au8,
        pos <= s@.len(),
    ensures
        match r {
            Ok(Some((pi2, si2))) => {
                &&& resolve_step(p@, pi as int, globstar, qc as nat, s@, pos as int) == run_match(
                    p@,
                    pi2 as int,
                    PatState::Literal,
                    0,
                    s@,
                    si2 as int,
                )
                &&& (pi as int) < pi2 as int
                &&& pi2 as int <= p@.len()
                &&& si2 <= s@.len()
            },
            Ok(None) => resolve_step(p@, pi as int, globstar, qc as nat, s@, pos as int)
                == Outcome::Failed,
            Err(e) => resolve_step(p@, pi as int, globstar, qc as nat, s@, pos as int)
                == Outcome::Error(e),
        },
{
    let r = match_wildcard_segment(p, pi, s, pos, globstar, qc);
    proof {
        lemma_resolve_bounds(p@, pi as int, s@, pos as int, 0, globstar, qc as nat);
    }
    match r {
        Err(e) => Err(e),
        Ok(None) => Ok(None),
        Ok(Some((pi2, si2))) => Ok(Some((pi2, si2))),
    }
}

/// The message reported for a malformed pattern.
pub(crate) fn error_message(e: MatchErr) -> (r: String)
    ensures
        r@ == error_text(e),
{
    match e {
        MatchErr::TrailingBackslash => "Pattern ends with backslash".to_owned(),
        MatchErr::UnclosedCharset => "Unclosed character class".to_owned(),
        MatchErr::EmptyCharset => "Empty character class".to_owned(),
        MatchErr::InvalidRange => "Invalid range in character class".to_owned(),
    }
}

/// Strip at most one leading and at most one trailing `/` from the pattern
/// bytes, as [`normalize`] prescribes.
fn normalize_pattern<'a>(pb: &'a [u8]) -> (r: &'a [u8])
    ensures
        r@ == normalize(pb@),
{
    let n = pb.len();
    let lo: usize = if n > 0 && pb[0] == 0x2fu8 {
        1
    } else {
        0
    };
    let hi: usize = if n > lo && pb[n - 1] == 0x2fu8 {
        n - 1
    } else {
        n
    };
    let r = slice_subrange(pb, lo, hi);
    proof {
        assert(r@ =~= normalize(pb@));
    }
    r
}

/// Match pattern bytes (leading and trailing `/` still present) against one
/// candidate: exactly [`glob_outcome`].
pub(crate) fn match_glob(p: &[u8], s: &[u8]) -> (r: Result<bool, MatchErr>)
    ensures
        match r {
            Ok(b) => glob_outcome(p@, s@) == (if b {
                Outcome::Matched
            } else {
                Outcome::Failed
            }),
            Err(e) => glob_outcome(p@, s@) == Outcome::Error(e),
        },
{
    let np = normalize_pattern(p);
    match_single(np, s)
}

/// Match every candidate string against one glob pattern.
///
/// Each returned boolean is [`glob_outcome`] of the pattern bytes and that
/// candidate's bytes alone, in input order, so no candidate influences
/// another's verdict. The call succeeds exactly when no candidate's walk
/// reaches a malformed construct; an empty batch is returned without
/// validating the pattern.
pub fn match_batch(pattern: &str, strings: &[&str]) -> (r: Result<Vec<bool>, String>)
    ensures
        match r {
            Ok(res) => {
                &&& res@.len() == strings@.len()
                &&& forall|i: int|
                    0 <= i < strings@.len() ==> !(#[trigger] glob_outcome(
                        pattern.spec_bytes(),
                        strings@[i].spec_bytes(),
                    ) is Error)
                &&& forall|i: int|
                    0 <= i < strings@.len() ==> res@[i] == (#[trigger] glob_outcome(
                        pattern.spec_bytes(),
                        strings@[i].spec_bytes(),
                    ) == Outcome::Matched)
            },
            Err(m) => exists|i: int|
                {
                    &&& 0 <= i < strings@.len()
                    &&& (#[trigger] glob_outcome(
                        pattern.spec_bytes(),
                        strings@[i].spec_bytes(),
                    )) matches Outcome::Error(e)
                    &&& m@ == error_text(e)
                },
        },
{
    let pb = pattern.as_bytes();
    let np = normalize_pattern(pb);
    let mut res: Vec<bool> = Vec::new();
    let mut i: usize = 0;
    while i < strings.len()
        invariant
            i <= strings@.len(),
            res@.len() == i,
            np@ == normalize(pattern.spec_bytes()),
            forall|j: int|
                0 <= j < i ==> !(#[trigger] glob_outcome(
                    pattern.spec_bytes(),
                    strings@[j].spec_bytes(),
                ) is Error),
            forall|j: int|
                0 <= j < i ==> res@[j] == (#[trigger] glob_outcome(
                    pattern.spec_bytes(),
                    strings@[j].spec_bytes(),
                ) == Outcome::Matched),
        decreases strings@.len() - i,
    {
        let sb = strings[i].as_bytes();
        match match_single(np, sb) {
            Ok(b) => {
                res.push(b);
            },
            Err(e) => {
                proof {
                    assert(glob_outcome(pattern.spec_bytes(), strings@[i as int].spec_bytes())
                        == Outcome::Error(e));
                }
                return Err(error_message(e));
            },
        }
        i = i + 1;
    }
    Ok(res)
}

/// Does `path` match at least one of the patterns? Patterns are tried in
/// order and the first match wins; a malformed pattern reached before any
/// match aborts with its message.
pub fn matches_any(path: &str, patterns: &[String]) -> (r: Result<bool, String>)
    ensures
        match r {
            Ok(true) => exists|i: int|
                {
                    &&& 0 <= i < patterns@.len()
                    &&& #[trigger] pattern_outcome(patterns@[i], path.spec_bytes())
                        == Outcome::Matched
                    &&& first_k_fail(patterns@, path.spec_bytes(), i)
                },
            Ok(false) => first_k_fail(patterns@, path.spec_bytes(), patterns@.len() as int),
            Err(m) => exists|i: int|
                {
                    &&& 0 <= i < patterns@.len()
                    &&& (#[trigger] pattern_outcome(
                        patterns@[i],
                        path.spec_bytes(),
                    )) matches Outcome::Error(e)
                    &&& m@ == error_text(e)
                    &&& first_k_fail(patterns@, path.spec_bytes(), i)
                },
        },
{
    let sb = path.as_bytes();
    let mut i: usize = 0;
    while i < patterns.len()
        invariant
            i <= patterns@.len(),
            sb@ == path.spec_bytes(),
            first_k_fail(patterns@, path.spec_bytes(), i as int),
        decreases patterns@.len() - i,
    {
        let pb = patterns[i].as_str().as_bytes();
        let np = normalize_pattern(pb);
        match match_single(np, sb) {
            Ok(true) => {
                proof {
                    assert(pattern_outcome(patterns@[i as int], path.spec_bytes())
                        == Outcome::Matched);
                }
                return Ok(true);
            },
            Ok(false) => {
                proof {
                    assert(pattern_outcome(patterns@[i as int], path.spec_bytes())
                        == Outcome::Failed);
                }
            },
            Err(e) => {
                proof {
                    assert(pattern_outcome(patterns@[i as int], path.spec_bytes())
                        == Outcome::Error(e));
                }
                return Err(error_message(e));
            },
        }
        i = i + 1;
    }
    Ok(false)
}

} // verus!
