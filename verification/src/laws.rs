//! Laws of the matching semantics: directory-prefix closure and the
//! leading- and trailing-slash equivalences.

use vstd::prelude::*;
use crate::semantics::ClassSpec;
use crate::semantics::Outcome;
use crate::semantics::PatState;
use crate::semantics::ResRes;
use crate::semantics::ScanRes;
use crate::semantics::back_run;
use crate::semantics::glob_outcome;
use crate::semantics::lemma_parse_class_bounds;
use crate::semantics::normalize;
use crate::semantics::parse_class;
use crate::semantics::resolve_from;
use crate::semantics::resolve_step;
use crate::semantics::run_match;
use crate::semantics::scan;
use crate::semantics::trial_allowed;
use crate::semantics::trial_is_last;

verus! {

/// A candidate extended below a directory: `q`, a separator, then `rest`.
pub open spec fn with_dir_suffix(q: Seq<u8>, rest: Seq<u8>) -> Seq<u8> {
    q + seq![0x2fu8] + rest
}

/// How many candidate bytes the anchor starting at `pi` consumes: one per
/// item up to the next `*` or the pattern end.
spec fn anchor_len(p: Seq<u8>, pi: int) -> int
    decreases p.len() - pi,
{
    if pi < 0 || pi >= p.len() {
        0
    } else if p[pi] == 0x2au8 {
        0
    } else if p[pi] == 0x5cu8 {
        if pi + 1 >= p.len() {
            0
        } else {
            1 + anchor_len(p, pi + 2)
        }
    } else if p[pi] == 0x5bu8 {
        match parse_class(p, pi) {
            ClassSpec::Bad(_) => 0,
            ClassSpec::Class { next, .. } => {
                proof {
                    lemma_parse_class_bounds(p, pi);
                }
                if pi < next <= p.len() {
                    1 + anchor_len(p, next)
                } else {
                    0
                }
            },
        }
    } else {
        1 + anchor_len(p, pi + 1)
    }
}

/// An anchor consumes a non-negative number of candidate bytes.
proof fn lemma_anchor_len_nonneg(p: Seq<u8>, pi: int)
    ensures
        anchor_len(p, pi) >= 0,
    decreases p.len() - pi,
{
    if pi < 0 || pi >= p.len() {
    } else if p[pi] == 0x2au8 {
    } else if p[pi] == 0x5cu8 {
        if pi + 1 < p.len() {
            lemma_anchor_len_nonneg(p, pi + 2);
        }
    } else if p[pi] == 0x5bu8 {
        match parse_class(p, pi) {
            ClassSpec::Bad(_) => {},
            ClassSpec::Class { next, .. } => {
                lemma_parse_class_bounds(p, pi);
                lemma_anchor_len_nonneg(p, next);
            },
        }
    } else {
        lemma_anchor_len_nonneg(p, pi + 1);
    }
}

/// A completed scan consumes exactly the anchor's item count in candidate
/// bytes.
proof fn lemma_scan_consumes(p: Seq<u8>, pi: int, s: Seq<u8>, si: int)
    ensures
        scan(p, pi, s, si) matches ScanRes::Done { si: si2, .. } ==> si2 == si + anchor_len(p, pi),
    decreases p.len() - pi,
{
    if pi < 0 || pi >= p.len() {
    } else if p[pi] == 0x2au8 {
    } else if p[pi] == 0x5cu8 {
        if pi + 1 < p.len() {
            lemma_scan_consumes(p, pi + 2, s, si + 1);
        }
    } else if p[pi] == 0x5bu8 {
        match parse_class(p, pi) {
            ClassSpec::Bad(_) => {},
            ClassSpec::Class { next, .. } => {
                lemma_parse_class_bounds(p, pi);
                lemma_scan_consumes(p, next, s, si + 1);
            },
        }
    } else {
        lemma_scan_consumes(p, pi + 1, s, si + 1);
    }
}

/// A scan that completed within `q` completes identically when `q` grows a
/// `/`-separated suffix: it never read past the bytes it consumed.
proof fn lemma_scan_ext_done(p: Seq<u8>, pi: int, q: Seq<u8>, rest: Seq<u8>, si: int)
    requires
        0 <= si <= q.len(),
        scan(p, pi, q, si) is Done,
    ensures
        scan(p, pi, with_dir_suffix(q, rest), si) == scan(p, pi, q, si),
    decreases p.len() - pi,
{
    let ext = with_dir_suffix(q, rest);
    if pi < 0 || pi >= p.len() {
    } else if p[pi] == 0x2au8 {
    } else if p[pi] == 0x5cu8 {
        if pi + 1 < p.len() && 0 <= si < q.len() && q[si] == p[pi + 1] {
            assert(ext[si] == q[si]);
            lemma_scan_ext_done(p, pi + 2, q, rest, si + 1);
        }
    } else if p[pi] == 0x5bu8 {
        match parse_class(p, pi) {
            ClassSpec::Bad(_) => {},
            ClassSpec::Class { negated, items, next } => {
                lemma_parse_class_bounds(p, pi);
                if 0 <= si < q.len() {
                    assert(ext[si] == q[si]);
                    lemma_scan_ext_done(p, next, q, rest, si + 1);
                }
            },
        }
    } else {
        if 0 <= si < q.len() {
            assert(ext[si] == q[si]);
            lemma_scan_ext_done(p, pi + 1, q, rest, si + 1);
        }
    }
}

/// A scan that mismatched within `q`, with its whole anchor in budget, still
/// mismatches when `q` grows a `/`-separated suffix: the mismatch was at a
/// real byte of `q`.
proof fn lemma_scan_ext_nomatch(p: Seq<u8>, pi: int, q: Seq<u8>, rest: Seq<u8>, si: int)
    requires
        0 <= si,
        si + anchor_len(p, pi) <= q.len(),
        scan(p, pi, q, si) is NoMatch,
    ensures
        scan(p, pi, with_dir_suffix(q, rest), si) == ScanRes::NoMatch,
    decreases p.len() - pi,
{
    let ext = with_dir_suffix(q, rest);
    if pi < 0 || pi >= p.len() {
    } else if p[pi] == 0x2au8 {
    } else if p[pi] == 0x5cu8 {
        if pi + 1 < p.len() {
            assert(anchor_len(p, pi) == 1 + anchor_len(p, pi + 2));
            lemma_anchor_len_nonneg(p, pi + 2);
            assert(si < q.len());
            assert(ext[si] == q[si]);
            if q[si] == p[pi + 1] {
                lemma_scan_ext_nomatch(p, pi + 2, q, rest, si + 1);
            }
        }
    } else if p[pi] == 0x5bu8 {
        match parse_class(p, pi) {
            ClassSpec::Bad(_) => {},
            ClassSpec::Class { negated, items, next } => {
                lemma_parse_class_bounds(p, pi);
                assert(anchor_len(p, pi) == 1 + anchor_len(p, next));
                lemma_anchor_len_nonneg(p, next);
                assert(si < q.len());
                assert(ext[si] == q[si]);
                if crate::semantics::class_accepts(negated, items, q[si]) {
                    lemma_scan_ext_nomatch(p, next, q, rest, si + 1);
                }
            },
        }
    } else {
        assert(anchor_len(p, pi) == 1 + anchor_len(p, pi + 1));
        lemma_anchor_len_nonneg(p, pi + 1);
        assert(si < q.len());
        assert(ext[si] == q[si]);
        if p[pi] == 0x3fu8 {
            if q[si] != 0x2fu8 {
                lemma_scan_ext_nomatch(p, pi + 1, q, rest, si + 1);
            }
        } else {
            if q[si] == p[pi] {
                lemma_scan_ext_nomatch(p, pi + 1, q, rest, si + 1);
            }
        }
    }
}

/// A resolution that commits from trial `d` lands at or beyond the current
/// trial's anchor end, and within the candidate.
proof fn lemma_resolve_commit_bound(
    p: Seq<u8>,
    p0: int,
    s: Seq<u8>,
    pos: int,
    d: int,
    globstar: bool,
    k: nat,
)
    requires
        0 <= pos,
        0 <= d,
        pos + d <= s.len(),
    ensures
        resolve_from(p, p0, s, pos, d, globstar, k) matches ResRes::Committed { si: si2, .. } ==> {
            &&& si2 >= pos + d + anchor_len(p, p0)
            &&& si2 <= s.len()
        },
    decreases s.len() - pos - d,
{
    lemma_anchor_len_nonneg(p, p0);
    if !trial_allowed(s, pos, d, globstar, k) {
        if !(trial_is_last(s, pos, d, globstar, k) || pos + d == s.len()) {
            lemma_resolve_commit_bound(p, p0, s, pos, d + 1, globstar, k);
        }
    } else {
        match scan(p, p0, s, pos + d) {
            ScanRes::Bad(_) => {},
            ScanRes::Done { pi, si } => {
                crate::semantics::lemma_scan_bounds(p, p0, s, pos + d);
                lemma_scan_consumes(p, p0, s, pos + d);
            },
            ScanRes::NoMatch => {
                if !(trial_is_last(s, pos, d, globstar, k) || pos + d == s.len()) {
                    lemma_resolve_commit_bound(p, p0, s, pos, d + 1, globstar, k);
                }
            },
        }
    }
}

/// Runs of non-`/` bytes within `q` are unchanged by a `/`-separated
/// extension.
proof fn lemma_back_run_ext(q: Seq<u8>, rest: Seq<u8>, lo: int, hi: int)
    requires
        0 <= lo,
        hi <= q.len(),
    ensures
        back_run(with_dir_suffix(q, rest), lo, hi) == back_run(q, lo, hi),
    decreases hi - lo,
{
    let ext = with_dir_suffix(q, rest);
    if hi <= lo || !(0 <= hi - 1 < q.len()) || q[hi - 1] == 0x2fu8 {
    } else {
        assert(ext[hi - 1] == q[hi - 1]);
        lemma_back_run_ext(q, rest, lo, hi - 1);
    }
}

/// A resolution that commits within `q` commits identically when `q` grows
/// a `/`-separated suffix: every earlier trial still fails at a real byte,
/// and the committing trial reads the same bytes.
proof fn lemma_resolve_ext(
    p: Seq<u8>,
    p0: int,
    q: Seq<u8>,
    rest: Seq<u8>,
    pos: int,
    d: int,
    globstar: bool,
    k: nat,
)
    requires
        0 <= pos,
        0 <= d,
        pos + d <= q.len(),
        resolve_from(p, p0, q, pos, d, globstar, k) is Committed,
    ensures
        resolve_from(p, p0, with_dir_suffix(q, rest), pos, d, globstar, k) == resolve_from(
            p,
            p0,
            q,
            pos,
            d,
            globstar,
            k,
        ),
    decreases q.len() - pos - d,
{
    let ext = with_dir_suffix(q, rest);
    lemma_anchor_len_nonneg(p, p0);

    // The allowance of the current trial reads only bytes of `q`.
    assert(forall|i: int| pos <= i < pos + d ==> ext[i] == q[i]);
    lemma_back_run_ext(q, rest, pos, pos + d);
    assert(trial_allowed(ext, pos, d, globstar, k) == trial_allowed(q, pos, d, globstar, k));

    if !trial_allowed(q, pos, d, globstar, k) {
        // The search went on, so this was not the last trial and the trial
        // did not sit at the end of `q`.
        assert(!(trial_is_last(q, pos, d, globstar, k) || pos + d == q.len()));
        assert(pos + d < q.len());
        assert(ext[pos + d] == q[pos + d]);
        assert(trial_is_last(ext, pos, d, globstar, k) == trial_is_last(q, pos, d, globstar, k));
        assert(pos + d != ext.len());
        lemma_resolve_ext(p, p0, q, rest, pos, d + 1, globstar, k);
    } else {
        match scan(p, p0, q, pos + d) {
            ScanRes::Bad(_) => {},
            ScanRes::Done { pi, si } => {
                lemma_scan_ext_done(p, p0, q, rest, pos + d);
            },
            ScanRes::NoMatch => {
                assert(!(trial_is_last(q, pos, d, globstar, k) || pos + d == q.len()));
                assert(pos + d < q.len());
                // The committing trial lies beyond this one, so this trial's
                // whole anchor fits within `q`.
                assert(resolve_from(p, p0, q, pos, d + 1, globstar, k) == resolve_from(
                    p,
                    p0,
                    q,
                    pos,
                    d,
                    globstar,
                    k,
                ));
                lemma_resolve_commit_bound(p, p0, q, pos, d + 1, globstar, k);
                assert(pos + d + anchor_len(p, p0) <= q.len());
                lemma_scan_ext_nomatch(p, p0, q, rest, pos + d);
                assert(ext[pos + d] == q[pos + d]);
                assert(trial_is_last(ext, pos, d, globstar, k) == trial_is_last(
                    q,
                    pos,
                    d,
                    globstar,
                    k,
                ));
                assert(pos + d != ext.len());
                lemma_resolve_ext(p, p0, q, rest, pos, d + 1, globstar, k);
            },
        }
    }
}

/// A walk that accepts `q` also accepts `q` grown by a `/`-separated
/// suffix: every byte it read is a byte of `q`, and at exhaustion the new
/// suffix begins with `/`.
proof fn lemma_run_ext(
    p: Seq<u8>,
    pi: int,
    st: PatState,
    qc: nat,
    q: Seq<u8>,
    rest: Seq<u8>,
    pos: int,
)
    requires
        0 <= pos <= q.len(),
        run_match(p, pi, st, qc, q, pos) == Outcome::Matched,
    ensures
        run_match(p, pi, st, qc, with_dir_suffix(q, rest), pos) == Outcome::Matched,
    decreases p.len() - pi, 1int,
{
    let ext = with_dir_suffix(q, rest);
    if pi < 0 || pi >= p.len() {
        match st {
            PatState::Literal => {
                if pos == q.len() {
                    assert(ext[pos] == 0x2fu8);
                } else {
                    assert(ext[pos] == q[pos]);
                }
            },
            _ => {},
        }
    } else if p[pi] == 0x2au8 {
        let st2 = match st {
            PatState::Literal => PatState::InWildcard,
            PatState::InWildcard => PatState::InPossibleGlobstar,
            PatState::InPossibleGlobstar => PatState::InPossibleGlobstar,
            PatState::InGlobstar => PatState::InSuperWild,
            PatState::InSuperWild => PatState::InSuperWild,
        };
        lemma_run_ext(p, pi + 1, st2, qc, q, rest, pos);
    } else if p[pi] == 0x2fu8 {
        match st {
            PatState::Literal => {
                assert(ext[pos] == q[pos]);
                lemma_run_ext(p, pi + 1, PatState::Literal, qc, q, rest, pos + 1);
            },
            PatState::InWildcard => {
                lemma_resolve_step_ext(p, pi, false, qc, q, rest, pos);
            },
            PatState::InPossibleGlobstar => {
                lemma_run_ext(p, pi + 1, PatState::InGlobstar, qc, q, rest, pos);
            },
            PatState::InGlobstar | PatState::InSuperWild => {
                lemma_run_ext(p, pi + 1, st, qc, q, rest, pos);
            },
        }
    } else if p[pi] == 0x3fu8 {
        match st {
            PatState::Literal => {
                assert(ext[pos] == q[pos]);
                lemma_run_ext(p, pi + 1, PatState::Literal, qc, q, rest, pos + 1);
            },
            _ => {
                lemma_run_ext(p, pi + 1, st, qc + 1, q, rest, pos);
            },
        }
    } else {
        match st {
            PatState::Literal => {
                if p[pi] == 0x5cu8 {
                    assert(ext[pos] == q[pos]);
                    lemma_run_ext(p, pi + 2, PatState::Literal, qc, q, rest, pos + 1);
                } else if p[pi] == 0x5bu8 {
                    match parse_class(p, pi) {
                        ClassSpec::Bad(_) => {},
                        ClassSpec::Class { negated, items, next } => {
                            lemma_parse_class_bounds(p, pi);
                            assert(ext[pos] == q[pos]);
                            lemma_run_ext(p, next, PatState::Literal, qc, q, rest, pos + 1);
                        },
                    }
                } else {
                    assert(ext[pos] == q[pos]);
                    lemma_run_ext(p, pi + 1, PatState::Literal, qc, q, rest, pos + 1);
                }
            },
            PatState::InWildcard | PatState::InPossibleGlobstar => {
                lemma_resolve_step_ext(p, pi, false, qc, q, rest, pos);
            },
            PatState::InGlobstar | PatState::InSuperWild => {
                lemma_resolve_step_ext(p, pi, true, qc, q, rest, pos);
            },
        }
    }
}

/// The resolution-and-continue step of the walk, extended below a
/// directory.
proof fn lemma_resolve_step_ext(
    p: Seq<u8>,
    pi: int,
    globstar: bool,
    qc: nat,
    q: Seq<u8>,
    rest: Seq<u8>,
    pos: int,
)
    requires
        0 <= pos <= q.len(),
        resolve_step(p, pi, globstar, qc, q, pos) == Outcome::Matched,
    ensures
        resolve_step(p, pi, globstar, qc, with_dir_suffix(q, rest), pos) == Outcome::Matched,
    decreases p.len() - pi, 0int,
{
    match resolve_from(p, pi, q, pos, 0, globstar, qc) {
        ResRes::Bad(_) => {},
        ResRes::NoMatch => {},
        ResRes::Committed { pi: pi2, si: si2 } => {
            lemma_resolve_ext(p, pi, q, rest, pos, 0, globstar, qc);
            lemma_resolve_commit_bound(p, pi, q, pos, 0, globstar, qc);
            lemma_anchor_len_nonneg(p, pi);
            assert(0 <= si2 <= q.len());
            if pi < pi2 <= p.len() {
                lemma_run_ext(p, pi2, PatState::Literal, 0, q, rest, si2);
            }
        },
    }
}

/// Directory-prefix closure: a pattern that matches a path also matches
/// everything below that path taken as a directory.
pub proof fn lemma_directory_prefix(p: Seq<u8>, q: Seq<u8>, rest: Seq<u8>)
    requires
        p.len() == 0 || p[p.len() - 1] != 0x2fu8,
        glob_outcome(p, q) == Outcome::Matched,
    ensures
        glob_outcome(p, q + seq![0x2fu8] + rest) == Outcome::Matched,
{
    lemma_run_ext(normalize(p), 0, PatState::Literal, 0, q, rest, 0);
    assert(with_dir_suffix(q, rest) == q + seq![0x2fu8] + rest);
}

/// Leading-slash equivalence: a leading `/` on a pattern is an anchor
/// marker only, and matching is already anchored.
pub proof fn lemma_leading_slash(p: Seq<u8>, c: Seq<u8>)
    requires
        p.len() == 0 || p[0] != 0x2fu8,
    ensures
        glob_outcome(seq![0x2fu8] + p, c) == glob_outcome(p, c),
{
    let sp = seq![0x2fu8] + p;
    assert(sp.len() == p.len() + 1);
    assert(sp[0] == 0x2fu8);
    assert(sp.subrange(1, sp.len() as int) =~= p);
    assert(normalize(sp) == normalize(p));
}

/// Trailing-slash equivalence, operational form: appending `/` to a pattern
/// without one changes nothing, because the `/` is stripped before matching
/// and the exhaustion rule already accepts directory contents.
pub proof fn lemma_trailing_slash(p: Seq<u8>, c: Seq<u8>)
    requires
        p.len() == 0 || p[p.len() - 1] != 0x2fu8,
    ensures
        glob_outcome(p + seq![0x2fu8], c) == glob_outcome(p, c),
{
    let sp = p + seq![0x2fu8];
    assert(sp.len() == p.len() + 1);
    assert(sp[sp.len() - 1] == 0x2fu8);
    if p.len() == 0 {
        assert(sp[0] == 0x2fu8);
        assert(sp.subrange(1, 1) =~= p);
        assert(normalize(sp) == normalize(p));
    } else if p[0] == 0x2fu8 {
        let q1 = sp.subrange(1, sp.len() as int);
        assert(q1.len() == p.len());
        assert(q1[q1.len() - 1] == 0x2fu8);
        assert(q1.subrange(0, q1.len() - 1) =~= p.subrange(1, p.len() as int));
        let qp = p.subrange(1, p.len() as int);
        if qp.len() > 0 {
            assert(qp[qp.len() - 1] == p[p.len() - 1]);
        }
        assert(normalize(sp) == normalize(p));
    } else {
        assert(sp[0] == p[0]);
        assert(sp.subrange(0, sp.len() - 1) =~= p);
        assert(normalize(sp) == normalize(p));
    }
}

/// A pattern with no wildcard, class, or escape byte: every byte of it is
/// matched literally.
pub open spec fn is_literal_pattern(p: Seq<u8>) -> bool {
    forall|i: int|
        0 <= i < p.len() ==> #[trigger] p[i] != 0x2au8 && p[i] != 0x3fu8 && p[i] != 0x5bu8 && p[i]
            != 0x5cu8
}

/// What a literal pattern matches, from mid-walk state: the candidate's
/// remainder is the pattern's remainder, or that remainder followed by `/`
/// and anything.
proof fn lemma_literal_run(p: Seq<u8>, pi: int, c: Seq<u8>, pos: int, qc: nat)
    requires
        is_literal_pattern(p),
        0 <= pi <= p.len(),
        0 <= pos <= c.len(),
    ensures
        (run_match(p, pi, PatState::Literal, qc, c, pos) == Outcome::Matched) <==> {
            let m = p.len() - pi;
            &&& c.len() - pos >= m
            &&& (forall|j: int| 0 <= j < m ==> #[trigger] c[pos + j] == p[pi + j])
            &&& (c.len() - pos == m || c[pos + m] == 0x2fu8)
        },
    decreases p.len() - pi,
{
    if pi < p.len() {
        assert(p[pi] != 0x2au8 && p[pi] != 0x3fu8 && p[pi] != 0x5bu8 && p[pi] != 0x5cu8);
        if 0 <= pos < c.len() && c[pos] == p[pi] {
            lemma_literal_run(p, pi + 1, c, pos + 1, qc);
            let m = p.len() - pi;
            if run_match(p, pi, PatState::Literal, qc, c, pos) == Outcome::Matched {
                assert forall|j: int| 0 <= j < m implies #[trigger] c[pos + j] == p[pi + j] by {
                    if j > 0 {
                        assert(c[(pos + 1) + (j - 1)] == p[(pi + 1) + (j - 1)]);
                    }
                }
            }
            if c.len() - pos >= m && (forall|j: int| 0 <= j < m ==> #[trigger] c[pos + j] == p[pi + j]) && (
            c.len() - pos == m || c[pos + m] == 0x2fu8) {
                assert forall|j: int| 0 <= j < m - 1 implies #[trigger] c[(pos + 1) + j] == p[(pi
                    + 1) + j] by {
                    assert(c[pos + (j + 1)] == p[pi + (j + 1)]);
                }
            }
        } else {
            assert(run_match(p, pi, PatState::Literal, qc, c, pos) == Outcome::Failed);
            if c.len() - pos >= p.len() - pi && (forall|j: int|
                0 <= j < p.len() - pi ==> #[trigger] c[pos + j] == p[pi + j]) {
                assert(c[pos + 0] == p[pi + 0]);
            }
        }
    }
}

/// Trailing-slash equivalence for literal patterns, in full: the pattern
/// with `/` appended matches exactly the candidates that the bare pattern
/// matches and that are the pattern itself or lie below it as a directory.
pub proof fn lemma_trailing_slash_literal(p: Seq<u8>, c: Seq<u8>)
    requires
        is_literal_pattern(p),
        p.len() == 0 || (p[0] != 0x2fu8 && p[p.len() - 1] != 0x2fu8),
    ensures
        (glob_outcome(p + seq![0x2fu8], c) == Outcome::Matched) <==> {
            &&& glob_outcome(p, c) == Outcome::Matched
            &&& (c.len() == 0 || c == p || (p.len() < c.len() && c.subrange(0, p.len() as int) == p
                && c[p.len() as int] == 0x2fu8))
        },
{
    lemma_trailing_slash(p, c);
    assert(normalize(p) == p);
    lemma_literal_run(p, 0, c, 0, 0);
    if glob_outcome(p, c) == Outcome::Matched {
        let m = p.len() as int;
        assert(c.len() >= m);
        assert forall|j: int| 0 <= j < m implies c[j] == p[j] by {
            assert(c[0 + j] == p[0 + j]);
        }
        if c.len() == m {
            assert(c =~= p);
        } else {
            assert(c[0 + m] == 0x2fu8);
            assert(c.subrange(0, m) =~= p);
        }
    }
}

} // verus!
