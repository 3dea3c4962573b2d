//! The mathematical meaning of glob patterns.
//!
//! Everything here is specification-level: a pattern is a `Seq<u8>`, a
//! candidate path is a `Seq<u8>`, and [`glob_outcome`] says whether the
//! pattern matches the candidate, fails to match it, or is malformed.
//! The executable matcher is proved against these definitions.
//!
//! A pattern is interpreted by a small state machine ([`run_match`]) that
//! walks the pattern bytes, classifying runs of `*`, `?` and `/` and
//! committing each wildcard run at the leftmost-shortest position where the
//! following anchor (the literal/escape/class/`?` items up to the next `*`)
//! matches ([`resolve_from`]).

use vstd::prelude::*;

verus! {

/// The ways a pattern can be malformed.
#[derive(Clone, Copy, Debug, PartialEq, Eq, Structural)]
pub enum MatchErr {
    /// `\` as the last byte of the pattern or of a character class.
    TrailingBackslash,
    /// A `[` with no closing `]` before the end of the pattern.
    UnclosedCharset,
    /// `[]` or `[!]`: a class with no items.
    EmptyCharset,
    /// `a-b` inside a class with `a > b`.
    InvalidRange,
}

/// One item of a parsed character class.
#[derive(Clone, Copy, Debug, PartialEq, Eq, Structural)]
pub enum CharSetItem {
    /// A single byte.
    Single(u8),
    /// An inclusive byte range `lo-hi`.
    Range(u8, u8),
}

/// The outcome of matching one pattern against one candidate.
#[derive(Clone, Copy, Debug, PartialEq, Eq, Structural)]
pub enum Outcome {
    /// The candidate satisfies the pattern.
    Matched,
    /// The candidate does not satisfy the pattern.
    Failed,
    /// A malformed pattern construct was reached while this candidate was
    /// still viable.
    Error(MatchErr),
}

/// The state of the outer pattern walk: how many consecutive `*` have just
/// been seen and whether a `/` followed them.
#[derive(Clone, Copy, Debug, PartialEq, Eq, Structural)]
pub enum PatState {
    /// Byte-for-byte matching.
    Literal,
    /// One `*` seen.
    InWildcard,
    /// `**` (or longer) seen; may become a globstar.
    InPossibleGlobstar,
    /// `**/` seen: crosses directory separators.
    InGlobstar,
    /// `**/*` seen: still crosses directory separators.
    InSuperWild,
}

/// Result of parsing the items of a character class.
pub enum ClassParse {
    /// Items parsed and the index just past the closing `]`.
    Parsed { items: Seq<CharSetItem>, next: int },
    /// The class is malformed.
    Bad(MatchErr),
}

/// Result of parsing a whole `[...]` class, negation flag included.
pub enum ClassSpec {
    /// A well-formed class and the index just past the closing `]`.
    Class { negated: bool, items: Seq<CharSetItem>, next: int },
    /// The class is malformed.
    Bad(MatchErr),
}

/// Result of matching the anchor items of a pattern segment against a
/// candidate from a fixed position.
pub enum ScanRes {
    /// All items up to the next `*` (or the pattern end) matched; `pi` is
    /// that pattern index and `si` the candidate index just past the
    /// consumed bytes.
    Done { pi: int, si: int },
    /// Some item did not match.
    NoMatch,
    /// A malformed construct was reached before any mismatch.
    Bad(MatchErr),
}

/// Result of resolving one wildcard run against a candidate.
pub enum ResRes {
    /// The run committed: the candidate cursor moves to `si` and the walk
    /// continues at pattern index `pi`.
    Committed { pi: int, si: int },
    /// No trial position made the anchor match.
    NoMatch,
    /// A malformed construct was reached during some trial.
    Bad(MatchErr),
}

/// Does one class item cover byte `b`?
pub open spec fn item_covers(item: CharSetItem, b: u8) -> bool {
    match item {
        CharSetItem::Single(c) => c == b,
        CharSetItem::Range(lo, hi) => lo <= b && b <= hi,
    }
}

/// Does any item of the list cover byte `b`?
pub open spec fn items_cover(items: Seq<CharSetItem>, b: u8) -> bool {
    exists|i: int| 0 <= i < items.len() && item_covers(items[i], b)
}

/// Does a parsed class accept byte `b`? Coverage is flipped by negation.
pub open spec fn class_accepts(negated: bool, items: Seq<CharSetItem>, b: u8) -> bool {
    items_cover(items, b) != negated
}

/// Parse class items starting at `i` (just past `[` and any negation mark),
/// accumulating into `acc`, until the closing `]`.
pub open spec fn parse_items(p: Seq<u8>, i: int, acc: Seq<CharSetItem>) -> ClassParse
    decreases p.len() - i,
{
    if i < 0 || i >= p.len() {
        ClassParse::Bad(MatchErr::UnclosedCharset)
    } else if p[i] == 0x5cu8 {  // backslash: escape the next byte
        if i + 1 >= p.len() {
            ClassParse::Bad(MatchErr::TrailingBackslash)
        } else {
            parse_items(p, i + 2, acc.push(CharSetItem::Single(p[i + 1])))
        }
    } else if p[i] == 0x5du8 {  // ']' closes the class
        if acc.len() == 0 {
            ClassParse::Bad(MatchErr::EmptyCharset)
        } else {
            ClassParse::Parsed { items: acc, next: i + 1 }
        }
    } else if i + 2 < p.len() && p[i + 1] == 0x2du8 {  // 'a-b' range candidate
        if p[i + 2] == 0x5du8 {
            // 'a-]': the dash is literal; ']' closes on the next step
            parse_items(p, i + 2, acc.push(CharSetItem::Single(p[i])).push(CharSetItem::Single(0x2du8)))
        } else if p[i] > p[i + 2] {
            ClassParse::Bad(MatchErr::InvalidRange)
        } else {
            parse_items(p, i + 3, acc.push(CharSetItem::Range(p[i], p[i + 2])))
        }
    } else {
        parse_items(p, i + 1, acc.push(CharSetItem::Single(p[i])))
    }
}

/// Parse a whole class whose `[` stands at index `i`: an optional `!` or `^`
/// negation mark, then the items.
pub open spec fn parse_class(p: Seq<u8>, i: int) -> ClassSpec {
    let start = if i + 1 < p.len() && (p[i + 1] == 0x21u8 || p[i + 1] == 0x5eu8) {
        i + 2
    } else {
        i + 1
    };
    let negated = start == i + 2;
    match parse_items(p, start, Seq::empty()) {
        ClassParse::Parsed { items, next } => ClassSpec::Class { negated, items, next },
        ClassParse::Bad(e) => ClassSpec::Bad(e),
    }
}

/// Parsing items can only move forward, and never past the pattern end.
pub proof fn lemma_parse_items_bounds(p: Seq<u8>, i: int, acc: Seq<CharSetItem>)
    ensures
        parse_items(p, i, acc) matches ClassParse::Parsed { next, .. } ==> i < next <= p.len(),
    decreases p.len() - i,
{
    if i < 0 || i >= p.len() {
    } else if p[i] == 0x5cu8 {
        if i + 1 < p.len() {
            lemma_parse_items_bounds(p, i + 2, acc.push(CharSetItem::Single(p[i + 1])));
        }
    } else if p[i] == 0x5du8 {
    } else if i + 2 < p.len() && p[i + 1] == 0x2du8 {
        if p[i + 2] == 0x5du8 {
            lemma_parse_items_bounds(
                p,
                i + 2,
                acc.push(CharSetItem::Single(p[i])).push(CharSetItem::Single(0x2du8)),
            );
        } else if p[i] <= p[i + 2] {
            lemma_parse_items_bounds(p, i + 3, acc.push(CharSetItem::Range(p[i], p[i + 2])));
        }
    } else {
        lemma_parse_items_bounds(p, i + 1, acc.push(CharSetItem::Single(p[i])));
    }
}

/// A parsed class ends strictly after its `[` and within the pattern.
pub proof fn lemma_parse_class_bounds(p: Seq<u8>, i: int)
    ensures
        parse_class(p, i) matches ClassSpec::Class { next, .. } ==> i + 1 < next <= p.len(),
{
    let start = if i + 1 < p.len() && (p[i + 1] == 0x21u8 || p[i + 1] == 0x5eu8) {
        i + 2
    } else {
        i + 1
    };
    lemma_parse_items_bounds(p, start, Seq::empty());
}

/// Match the anchor items of a segment: pattern bytes from `pi` up to the
/// next `*` (or the pattern end) against candidate bytes from `si`. Each
/// item — a literal byte, an escaped byte, a class, or `?` — consumes
/// exactly one candidate byte.
pub open spec fn scan(p: Seq<u8>, pi: int, s: Seq<u8>, si: int) -> ScanRes
    decreases p.len() - pi,
{
    if pi < 0 || pi >= p.len() {
        ScanRes::Done { pi: p.len() as int, si }
    } else if p[pi] == 0x2au8 {  // '*' seeds the next wildcard run
        ScanRes::Done { pi, si }
    } else if p[pi] == 0x5cu8 {  // backslash
        if pi + 1 >= p.len() {
            ScanRes::Bad(MatchErr::TrailingBackslash)
        } else if 0 <= si < s.len() && s[si] == p[pi + 1] {
            scan(p, pi + 2, s, si + 1)
        } else {
            ScanRes::NoMatch
        }
    } else if p[pi] == 0x5bu8 {  // '[' opens a class
        match parse_class(p, pi) {
            ClassSpec::Bad(e) => ScanRes::Bad(e),
            ClassSpec::Class { negated, items, next } => {
                proof {
                    lemma_parse_class_bounds(p, pi);
                }
                if 0 <= si < s.len() && class_accepts(negated, items, s[si]) {
                    scan(p, next, s, si + 1)
                } else {
                    ScanRes::NoMatch
                }
            },
        }
    } else if p[pi] == 0x3fu8 {  // '?' consumes one non-'/' byte
        if 0 <= si < s.len() && s[si] != 0x2fu8 {
            scan(p, pi + 1, s, si + 1)
        } else {
            ScanRes::NoMatch
        }
    } else {  // literal byte
        if 0 <= si < s.len() && s[si] == p[pi] {
            scan(p, pi + 1, s, si + 1)
        } else {
            ScanRes::NoMatch
        }
    }
}

/// A completed scan stops within the pattern, strictly after a non-`*`
/// starting byte, and never moves the candidate cursor backwards.
pub proof fn lemma_scan_bounds(p: Seq<u8>, pi: int, s: Seq<u8>, si: int)
    ensures
        scan(p, pi, s, si) matches ScanRes::Done { pi: pi2, si: si2 } ==> {
            &&& pi2 <= p.len()
            &&& (pi <= p.len() ==> pi <= pi2)
            &&& si <= si2
            &&& (si <= s.len() ==> si2 <= s.len())
            &&& (0 <= pi < p.len() && p[pi] != 0x2au8 ==> pi < pi2)
        },
    decreases p.len() - pi,
{
    if pi < 0 || pi >= p.len() {
    } else if p[pi] == 0x2au8 {
    } else if p[pi] == 0x5cu8 {
        if pi + 1 < p.len() {
            lemma_scan_bounds(p, pi + 2, s, si + 1);
        }
    } else if p[pi] == 0x5bu8 {
        match parse_class(p, pi) {
            ClassSpec::Bad(e) => {},
            ClassSpec::Class { negated, items, next } => {
                lemma_parse_class_bounds(p, pi);
                lemma_scan_bounds(p, next, s, si + 1);
            },
        }
    } else {
        lemma_scan_bounds(p, pi + 1, s, si + 1);
    }
}

/// No `/` among the candidate bytes in `[lo, hi)`.
pub open spec fn no_slash(s: Seq<u8>, lo: int, hi: int) -> bool {
    forall|i: int| lo <= i < hi ==> s[i] != 0x2fu8
}

/// Length of the maximal run of non-`/` bytes ending at `hi`, clipped so it
/// never reaches below `lo`.
pub open spec fn back_run(s: Seq<u8>, lo: int, hi: int) -> int
    decreases hi - lo,
{
    if hi <= lo || !(0 <= hi - 1 < s.len()) || s[hi - 1] == 0x2fu8 {
        0
    } else {
        1 + back_run(s, lo, hi - 1)
    }
}

/// Is the trial at advance `d` allowed, given the mode and the number `k` of
/// pending `?` from the wildcard run? In wildcard mode the consumed span may
/// not contain a `/`; a positive `k` forces the span to consume exactly `k`
/// non-`/` bytes.
pub open spec fn trial_allowed(s: Seq<u8>, pos: int, d: int, globstar: bool, k: nat) -> bool {
    if globstar {
        k == 0 || back_run(s, pos, pos + d) == k
    } else {
        no_slash(s, pos, pos + d) && (k == 0 || d == k)
    }
}

/// After this trial, is the search over (no larger advance may be tried)?
/// In wildcard mode the trial that starts at a `/` is the last one; with a
/// positive `k` the single trial `d == k` is the last one.
pub open spec fn trial_is_last(s: Seq<u8>, pos: int, d: int, globstar: bool, k: nat) -> bool {
    !globstar && ((0 <= pos + d < s.len() && s[pos + d] == 0x2fu8) || (k > 0 && d >= k))
}

/// Resolve a wildcard run: starting from advance `d`, find the smallest
/// allowed advance whose anchor scan succeeds. A scan that reaches a
/// malformed construct aborts the search.
pub open spec fn resolve_from(
    p: Seq<u8>,
    p0: int,
    s: Seq<u8>,
    pos: int,
    d: int,
    globstar: bool,
    k: nat,
) -> ResRes
    decreases s.len() - pos - d,
{
    if pos < 0 || d < 0 || pos + d > s.len() {
        ResRes::NoMatch
    } else if !trial_allowed(s, pos, d, globstar, k) {
        if trial_is_last(s, pos, d, globstar, k) || pos + d == s.len() {
            ResRes::NoMatch
        } else {
            resolve_from(p, p0, s, pos, d + 1, globstar, k)
        }
    } else {
        match scan(p, p0, s, pos + d) {
            ScanRes::Bad(e) => ResRes::Bad(e),
            ScanRes::Done { pi, si } => ResRes::Committed { pi, si },
            ScanRes::NoMatch => {
                if trial_is_last(s, pos, d, globstar, k) || pos + d == s.len() {
                    ResRes::NoMatch
                } else {
                    resolve_from(p, p0, s, pos, d + 1, globstar, k)
                }
            },
        }
    }
}

/// A committed resolution inherits the scan bounds: the continuation index
/// lies within the pattern and strictly after a non-`*` anchor start.
pub proof fn lemma_resolve_bounds(
    p: Seq<u8>,
    p0: int,
    s: Seq<u8>,
    pos: int,
    d: int,
    globstar: bool,
    k: nat,
)
    ensures
        resolve_from(p, p0, s, pos, d, globstar, k) matches ResRes::Committed { pi, si } ==> {
            &&& pi <= p.len()
            &&& (p0 <= p.len() ==> p0 <= pi)
            &&& (0 <= p0 < p.len() && p[p0] != 0x2au8 ==> p0 < pi)
        },
    decreases s.len() - pos - d,
{
    if pos < 0 || d < 0 || pos + d > s.len() {
    } else if !trial_allowed(s, pos, d, globstar, k) {
        if !(trial_is_last(s, pos, d, globstar, k) || pos + d == s.len()) {
            lemma_resolve_bounds(p, p0, s, pos, d + 1, globstar, k);
        }
    } else {
        match scan(p, p0, s, pos + d) {
            ScanRes::Bad(e) => {},
            ScanRes::Done { pi, si } => {
                lemma_scan_bounds(p, p0, s, pos + d);
            },
            ScanRes::NoMatch => {
                if !(trial_is_last(s, pos, d, globstar, k) || pos + d == s.len()) {
                    lemma_resolve_bounds(p, p0, s, pos, d + 1, globstar, k);
                }
            },
        }
    }
}

/// The outer pattern walk from pattern index `pi`, state `st` with `qc`
/// pending `?`, and candidate cursor `pos`. When the pattern is exhausted, a
/// candidate in `Literal` state matches iff its remaining suffix is empty or
/// begins with `/` (directory-prefix semantics); any pending wildcard state
/// accepts.
pub open spec fn run_match(p: Seq<u8>, pi: int, st: PatState, qc: nat, s: Seq<u8>, pos: int) -> Outcome
    decreases p.len() - pi, 1int,
{
    if pi < 0 || pi >= p.len() {
        match st {
            PatState::Literal => {
                if pos == s.len() || (0 <= pos < s.len() && s[pos] == 0x2fu8) {
                    Outcome::Matched
                } else {
                    Outcome::Failed
                }
            },
            _ => Outcome::Matched,
        }
    } else if p[pi] == 0x2au8 {  // '*': extend the wildcard run
        let st2 = match st {
            PatState::Literal => PatState::InWildcard,
            PatState::InWildcard => PatState::InPossibleGlobstar,
            PatState::InPossibleGlobstar => PatState::InPossibleGlobstar,
            PatState::InGlobstar => PatState::InSuperWild,
            PatState::InSuperWild => PatState::InSuperWild,
        };
        run_match(p, pi + 1, st2, qc, s, pos)
    } else if p[pi] == 0x2fu8 {  // '/'
        match st {
            PatState::Literal => {
                if 0 <= pos < s.len() && s[pos] == 0x2fu8 {
                    run_match(p, pi + 1, PatState::Literal, qc, s, pos + 1)
                } else {
                    Outcome::Failed
                }
            },
            PatState::InWildcard => resolve_step(p, pi, false, qc, s, pos),
            PatState::InPossibleGlobstar => run_match(p, pi + 1, PatState::InGlobstar, qc, s, pos),
            PatState::InGlobstar => run_match(p, pi + 1, st, qc, s, pos),
            PatState::InSuperWild => run_match(p, pi + 1, st, qc, s, pos),
        }
    } else if p[pi] == 0x3fu8 {  // '?'
        match st {
            PatState::Literal => {
                if 0 <= pos < s.len() && s[pos] != 0x2fu8 {
                    run_match(p, pi + 1, PatState::Literal, qc, s, pos + 1)
                } else {
                    Outcome::Failed
                }
            },
            _ => run_match(p, pi + 1, st, qc + 1, s, pos),
        }
    } else {  // '\\', '[' or a plain byte
        match st {
            PatState::Literal => {
                if p[pi] == 0x5cu8 {
                    if pi + 1 >= p.len() {
                        Outcome::Error(MatchErr::TrailingBackslash)
                    } else if 0 <= pos < s.len() && s[pos] == p[pi + 1] {
                        run_match(p, pi + 2, PatState::Literal, qc, s, pos + 1)
                    } else {
                        Outcome::Failed
                    }
                } else if p[pi] == 0x5bu8 {
                    match parse_class(p, pi) {
                        ClassSpec::Bad(e) => Outcome::Error(e),
                        ClassSpec::Class { negated, items, next } => {
                            proof {
                                lemma_parse_class_bounds(p, pi);
                            }
                            if 0 <= pos < s.len() && class_accepts(negated, items, s[pos]) {
                                run_match(p, next, PatState::Literal, qc, s, pos + 1)
                            } else {
                                Outcome::Failed
                            }
                        },
                    }
                } else {
                    if 0 <= pos < s.len() && s[pos] == p[pi] {
                        run_match(p, pi + 1, PatState::Literal, qc, s, pos + 1)
                    } else {
                        Outcome::Failed
                    }
                }
            },
            PatState::InWildcard => resolve_step(p, pi, false, qc, s, pos),
            PatState::InPossibleGlobstar => resolve_step(p, pi, false, qc, s, pos),
            PatState::InGlobstar => resolve_step(p, pi, true, qc, s, pos),
            PatState::InSuperWild => resolve_step(p, pi, true, qc, s, pos),
        }
    }
}

/// Resolve the pending wildcard run whose anchor starts at `pi`, then
/// continue the outer walk in `Literal` state from wherever the committed
/// scan stopped.
pub open spec fn resolve_step(p: Seq<u8>, pi: int, globstar: bool, qc: nat, s: Seq<u8>, pos: int) -> Outcome
    decreases p.len() - pi, 0int,
{
    match resolve_from(p, pi, s, pos, 0, globstar, qc) {
        ResRes::Bad(e) => Outcome::Error(e),
        ResRes::NoMatch => Outcome::Failed,
        ResRes::Committed { pi: pi2, si: si2 } => {
            if pi < pi2 <= p.len() {
                run_match(p, pi2, PatState::Literal, 0, s, si2)
            } else {
                Outcome::Failed
            }
        },
    }
}

/// Strip at most one leading and at most one trailing `/` from a pattern.
pub open spec fn normalize(p: Seq<u8>) -> Seq<u8> {
    let q = if p.len() > 0 && p[0] == 0x2fu8 {
        p.subrange(1, p.len() as int)
    } else {
        p
    };
    if q.len() > 0 && q[q.len() - 1] == 0x2fu8 {
        q.subrange(0, q.len() - 1)
    } else {
        q
    }
}

/// The meaning of matching pattern bytes `p` against candidate bytes `s`.
pub open spec fn glob_outcome(p: Seq<u8>, s: Seq<u8>) -> Outcome {
    run_match(normalize(p), 0, PatState::Literal, 0, s, 0)
}

} // verus!
