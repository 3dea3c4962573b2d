//! Combining many patterns and many paths into one boolean.
//!
//! A pattern beginning with `!` is *negative*; the `!` is stripped before
//! matching. The composed verdict is set-theoretic: true exactly when some
//! path is matched by a positive pattern and by no negative pattern, so it
//! does not depend on the order of the pattern list.

use vstd::prelude::*;
use crate::matcher::error_message;
use crate::matcher::error_text;
use crate::matcher::match_glob;
use crate::matcher::string_bytes;
use crate::semantics::MatchErr;
use crate::semantics::Outcome;
use crate::semantics::glob_outcome;
use vstd::slice::slice_subrange;

verus! {

/// The byte sequences that a list of `String`s holds.
pub open spec fn strings_bytes(ps: Seq<String>) -> Seq<Seq<u8>> {
    ps.map_values(|p: String| string_bytes(p))
}

/// Is this a negative pattern (does it begin with `!`)?
pub open spec fn is_negative(p: Seq<u8>) -> bool {
    p.len() > 0 && p[0] == 0x21u8
}

/// The bytes actually matched: a negative pattern without its leading `!`.
pub open spec fn effective(p: Seq<u8>) -> Seq<u8> {
    if is_negative(p) {
        p.subrange(1, p.len() as int)
    } else {
        p
    }
}

/// Some positive pattern among the first `k` matches `f`.
pub open spec fn pos_hit_upto(pats: Seq<Seq<u8>>, f: Seq<u8>, k: int) -> bool {
    exists|i: int|
        0 <= i < k && i < pats.len() && !is_negative(pats[i]) && #[trigger] glob_outcome(
            pats[i],
            f,
        ) == Outcome::Matched
}

/// Some negative pattern among the first `k` matches `f` (its `!` stripped).
pub open spec fn neg_hit_upto(pats: Seq<Seq<u8>>, f: Seq<u8>, k: int) -> bool {
    exists|i: int|
        0 <= i < k && i < pats.len() && is_negative(#[trigger] pats[i]) && glob_outcome(
            effective(pats[i]),
            f,
        ) == Outcome::Matched
}

/// Some positive pattern of the list matches `f`.
pub open spec fn pos_matches(pats: Seq<Seq<u8>>, f: Seq<u8>) -> bool {
    pos_hit_upto(pats, f, pats.len() as int)
}

/// Some negative pattern of the list matches `f` (with its `!` stripped).
pub open spec fn neg_matches(pats: Seq<Seq<u8>>, f: Seq<u8>) -> bool {
    neg_hit_upto(pats, f, pats.len() as int)
}

/// The composed boolean: some path is matched by a positive pattern and
/// cancelled by no negative pattern.
pub open spec fn compose_value(pats: Seq<Seq<u8>>, files: Seq<Seq<u8>>) -> bool {
    exists|j: int|
        0 <= j < files.len() && pos_matches(pats, #[trigger] files[j]) && !neg_matches(
            pats,
            files[j],
        )
}

/// The first malformed-pattern error met when one pattern is evaluated
/// against the files in order, if any.
pub open spec fn pattern_err(p: Seq<u8>, files: Seq<Seq<u8>>) -> Option<MatchErr>
    decreases files.len(),
{
    if files.len() == 0 {
        None
    } else {
        match glob_outcome(effective(p), files[0]) {
            Outcome::Error(e) => Some(e),
            _ => pattern_err(p, files.drop_first()),
        }
    }
}

/// The first malformed-pattern error met when the patterns are evaluated in
/// order, each against all files in order, if any.
pub open spec fn compose_err(pats: Seq<Seq<u8>>, files: Seq<Seq<u8>>) -> Option<MatchErr>
    decreases pats.len(),
{
    if pats.len() == 0 {
        None
    } else {
        match pattern_err(pats[0], files) {
            Some(e) => Some(e),
            None => compose_err(pats.drop_first(), files),
        }
    }
}

/// One pattern meets no error against the files iff none of the outcomes is
/// an error.
pub proof fn lemma_pattern_err_none(p: Seq<u8>, files: Seq<Seq<u8>>)
    ensures
        pattern_err(p, files) is None <==> forall|j: int|
            0 <= j < files.len() ==> !(#[trigger] glob_outcome(effective(p), files[j]) is Error),
    decreases files.len(),
{
    if files.len() > 0 {
        let rest = files.drop_first();
        lemma_pattern_err_none(p, rest);
        assert(forall|j: int| 0 <= j < rest.len() ==> rest[j] == files[j + 1]);
        if pattern_err(p, files) is None {
            assert forall|j: int| 0 <= j < files.len() implies !(#[trigger] glob_outcome(
                effective(p),
                files[j],
            ) is Error) by {
                if j > 0 {
                    assert(rest[j - 1] == files[j]);
                    assert(!(glob_outcome(effective(p), rest[j - 1]) is Error));
                }
            }
        }
        if forall|j: int|
            0 <= j < files.len() ==> !(#[trigger] glob_outcome(effective(p), files[j]) is Error) {
            assert forall|j: int| 0 <= j < rest.len() implies !(#[trigger] glob_outcome(
                effective(p),
                rest[j],
            ) is Error) by {
                assert(rest[j] == files[j + 1]);
                assert(!(glob_outcome(effective(p), files[j + 1]) is Error));
            }
        }
    }
}

/// When the first `fi` files give no error and file `fi` errs, that error is
/// the pattern's first.
pub proof fn lemma_pattern_err_at(p: Seq<u8>, files: Seq<Seq<u8>>, fi: int, e: MatchErr)
    requires
        0 <= fi < files.len(),
        forall|j: int|
            0 <= j < fi ==> !(#[trigger] glob_outcome(effective(p), files[j]) is Error),
        glob_outcome(effective(p), files[fi]) == Outcome::Error(e),
    ensures
        pattern_err(p, files) == Some(e),
    decreases fi,
{
    if fi > 0 {
        assert(forall|j: int|
            0 <= j < files.drop_first().len() ==> files.drop_first()[j] == files[j + 1]);
        lemma_pattern_err_at(p, files.drop_first(), fi - 1, e);
    }
}

/// When the first `pi` patterns meet no error and pattern `pi` first errs at
/// file `fi`, that error is the composition's first.
pub proof fn lemma_compose_err_at(
    pats: Seq<Seq<u8>>,
    files: Seq<Seq<u8>>,
    pi: int,
    e: MatchErr,
)
    requires
        0 <= pi < pats.len(),
        forall|i: int| 0 <= i < pi ==> #[trigger] pattern_err(pats[i], files) is None,
        pattern_err(pats[pi], files) == Some(e),
    ensures
        compose_err(pats, files) == Some(e),
    decreases pi,
{
    if pi > 0 {
        assert(forall|i: int|
            0 <= i < pats.drop_first().len() ==> pats.drop_first()[i] == pats[i + 1]);
        lemma_compose_err_at(pats.drop_first(), files, pi - 1, e);
    }
}

/// Evaluate the pattern list against the path list and combine the results:
/// true exactly when some path is matched by a positive pattern and by no
/// negative pattern. The first malformed-pattern construct met (patterns in
/// order, each against the paths in order) aborts with its message.
pub fn compose(patterns: &[String], files: &[String]) -> (r: Result<bool, String>)
    ensures
        match r {
            Ok(b) => {
                &&& compose_err(strings_bytes(patterns@), strings_bytes(files@)) is None
                &&& b == compose_value(strings_bytes(patterns@), strings_bytes(files@))
            },
            Err(m) => compose_err(strings_bytes(patterns@), strings_bytes(files@))
                matches Some(e) && m@ == error_text(e),
        },
{
    let ghost pb: Seq<Seq<u8>> = strings_bytes(patterns@);
    let ghost fb: Seq<Seq<u8>> = strings_bytes(files@);

    let mut pos_hit: Vec<bool> = Vec::new();
    let mut neg_hit: Vec<bool> = Vec::new();
    let mut t: usize = 0;
    while t < files.len()
        invariant
            t <= files@.len(),
            pos_hit@.len() == t,
            neg_hit@.len() == t,
            forall|j: int| 0 <= j < t ==> pos_hit@[j] == false,
            forall|j: int| 0 <= j < t ==> neg_hit@[j] == false,
        decreases files@.len() - t,
    {
        pos_hit.push(false);
        neg_hit.push(false);
        t = t + 1;
    }

    let mut pi: usize = 0;
    while pi < patterns.len()
        invariant
            pi <= patterns@.len(),
            pb == strings_bytes(patterns@),
            fb == strings_bytes(files@),
            pos_hit@.len() == fb.len(),
            neg_hit@.len() == fb.len(),
            forall|i: int| 0 <= i < pi ==> #[trigger] pattern_err(pb[i], fb) is None,
            forall|j: int|
                0 <= j < fb.len() ==> pos_hit@[j] == pos_hit_upto(pb, #[trigger] fb[j], pi as int),
            forall|j: int|
                0 <= j < fb.len() ==> neg_hit@[j] == neg_hit_upto(pb, #[trigger] fb[j], pi as int),
        decreases patterns@.len() - pi,
    {
        let pat = patterns[pi].as_str().as_bytes();
        let neg = pat.len() > 0 && pat[0] == 0x21u8;
        let eff: &[u8] = if neg {
            slice_subrange(pat, 1, pat.len())
        } else {
            pat
        };
        proof {
            assert(pat@ == pb[pi as int]);
            assert(eff@ == effective(pb[pi as int]));
            assert(neg == is_negative(pb[pi as int]));
        }

        let mut row: Vec<bool> = Vec::new();
        let mut fi: usize = 0;
        while fi < files.len()
            invariant
                fi <= files@.len(),
                pi < patterns@.len(),
                pb == strings_bytes(patterns@),
                fb == strings_bytes(files@),
                eff@ == effective(pb[pi as int]),
                row@.len() == fi,
                forall|i: int| 0 <= i < pi ==> #[trigger] pattern_err(pb[i], fb) is None,
                forall|j: int|
                    0 <= j < fi ==> !(#[trigger] glob_outcome(effective(pb[pi as int]), fb[j])
                        is Error),
                forall|j: int|
                    0 <= j < fi ==> row@[j] == (#[trigger] glob_outcome(
                        effective(pb[pi as int]),
                        fb[j],
                    ) == Outcome::Matched),
            decreases files@.len() - fi,
        {
            let sb = files[fi].as_str().as_bytes();
            proof {
                assert(sb@ == fb[fi as int]);
            }
            match match_glob(eff, sb) {
                Ok(b) => {
                    row.push(b);
                },
                Err(e) => {
                    proof {
                        lemma_pattern_err_at(pb[pi as int], fb, fi as int, e);
                        lemma_compose_err_at(pb, fb, pi as int, e);
                    }
                    return Err(error_message(e));
                },
            }
            fi = fi + 1;
        }
        proof {
            lemma_pattern_err_none(pb[pi as int], fb);
        }

        let mut j: usize = 0;
        while j < files.len()
            invariant
                j <= files@.len(),
                pi < patterns@.len(),
                pb == strings_bytes(patterns@),
                fb == strings_bytes(files@),
                pos_hit@.len() == fb.len(),
                neg_hit@.len() == fb.len(),
                row@.len() == fb.len(),
                neg == is_negative(pb[pi as int]),
                forall|i: int| 0 <= i <= pi ==> #[trigger] pattern_err(pb[i], fb) is None,
                forall|jj: int|
                    0 <= jj < fb.len() ==> row@[jj] == (#[trigger] glob_outcome(
                        effective(pb[pi as int]),
                        fb[jj],
                    ) == Outcome::Matched),
                forall|jj: int|
                    0 <= jj < j ==> pos_hit@[jj] == pos_hit_upto(pb, #[trigger] fb[jj], pi + 1),
                forall|jj: int|
                    j <= jj < fb.len() ==> pos_hit@[jj] == pos_hit_upto(
                        pb,
                        #[trigger] fb[jj],
                        pi as int,
                    ),
                forall|jj: int|
                    0 <= jj < j ==> neg_hit@[jj] == neg_hit_upto(pb, #[trigger] fb[jj], pi + 1),
                forall|jj: int|
                    j <= jj < fb.len() ==> neg_hit@[jj] == neg_hit_upto(
                        pb,
                        #[trigger] fb[jj],
                        pi as int,
                    ),
            decreases files@.len() - j,
        {
            proof {
                lemma_hit_upto_step(pb, fb[j as int], pi as int);
            }
            if row[j] {
                if neg {
                    neg_hit[j] = true;
                } else {
                    pos_hit[j] = true;
                }
            }
            j = j + 1;
        }
        pi = pi + 1;
    }

    proof {
        lemma_compose_err_none(pb, fb);
    }
    let mut j: usize = 0;
    while j < files.len()
        invariant
            j <= files@.len(),
            pb == strings_bytes(patterns@),
            fb == strings_bytes(files@),
            pos_hit@.len() == fb.len(),
            neg_hit@.len() == fb.len(),
            forall|jj: int|
                0 <= jj < fb.len() ==> pos_hit@[jj] == pos_matches(pb, #[trigger] fb[jj]),
            forall|jj: int|
                0 <= jj < fb.len() ==> neg_hit@[jj] == neg_matches(pb, #[trigger] fb[jj]),
            forall|jj: int|
                0 <= jj < j ==> !(pos_matches(pb, #[trigger] fb[jj]) && !neg_matches(pb, fb[jj])),
            compose_err(pb, fb) is None,
        decreases files@.len() - j,
    {
        if pos_hit[j] && !neg_hit[j] {
            proof {
                assert(pos_matches(pb, fb[j as int]) && !neg_matches(pb, fb[j as int]));
                assert(compose_value(pb, fb));
            }
            return Ok(true);
        }
        j = j + 1;
    }
    Ok(false)
}

/// Extending the considered prefix of the pattern list by one pattern adds
/// exactly that pattern's verdict to the hit predicates.
pub proof fn lemma_hit_upto_step(pats: Seq<Seq<u8>>, f: Seq<u8>, k: int)
    requires
        0 <= k < pats.len(),
    ensures
        pos_hit_upto(pats, f, k + 1) == (pos_hit_upto(pats, f, k) || (!is_negative(pats[k])
            && glob_outcome(pats[k], f) == Outcome::Matched)),
        neg_hit_upto(pats, f, k + 1) == (neg_hit_upto(pats, f, k) || (is_negative(pats[k])
            && glob_outcome(effective(pats[k]), f) == Outcome::Matched)),
{
    if pos_hit_upto(pats, f, k + 1) {
        let i = choose|i: int|
            0 <= i < k + 1 && i < pats.len() && !is_negative(pats[i]) && #[trigger] glob_outcome(
                pats[i],
                f,
            ) == Outcome::Matched;
        if i < k {
            assert(pos_hit_upto(pats, f, k));
        }
    }
    if neg_hit_upto(pats, f, k + 1) {
        let i = choose|i: int|
            0 <= i < k + 1 && i < pats.len() && is_negative(#[trigger] pats[i]) && glob_outcome(
                effective(pats[i]),
                f,
            ) == Outcome::Matched;
        if i < k {
            assert(neg_hit_upto(pats, f, k));
        }
    }
}

/// The composition meets no error iff every pattern meets none.
pub proof fn lemma_compose_err_none(pats: Seq<Seq<u8>>, files: Seq<Seq<u8>>)
    ensures
        compose_err(pats, files) is None <==> forall|i: int|
            0 <= i < pats.len() ==> #[trigger] pattern_err(pats[i], files) is None,
    decreases pats.len(),
{
    if pats.len() > 0 {
        let rest = pats.drop_first();
        lemma_compose_err_none(rest, files);
        assert(forall|i: int| 0 <= i < rest.len() ==> rest[i] == pats[i + 1]);
        if compose_err(pats, files) is None {
            assert forall|i: int| 0 <= i < pats.len() implies #[trigger] pattern_err(
                pats[i],
                files,
            ) is None by {
                if i > 0 {
                    assert(rest[i - 1] == pats[i]);
                    assert(pattern_err(rest[i - 1], files) is None);
                }
            }
        }
        if forall|i: int| 0 <= i < pats.len() ==> #[trigger] pattern_err(pats[i], files) is None {
            assert forall|i: int| 0 <= i < rest.len() implies #[trigger] pattern_err(
                rest[i],
                files,
            ) is None by {
                assert(rest[i] == pats[i + 1]);
                assert(pattern_err(pats[i + 1], files) is None);
            }
        }
    }
}

/// The composed verdict is invariant under reordering of the pattern list,
/// and so is whether any malformed construct is met at all: the composition
/// is genuinely set-theoretic in its patterns.
pub proof fn lemma_compose_order_independent(
    pats1: Seq<Seq<u8>>,
    pats2: Seq<Seq<u8>>,
    files: Seq<Seq<u8>>,
)
    requires
        pats1.to_multiset() == pats2.to_multiset(),
    ensures
        (compose_err(pats1, files) is None) == (compose_err(pats2, files) is None),
        compose_value(pats1, files) == compose_value(pats2, files),
{
    pats1.to_multiset_ensures();
    pats2.to_multiset_ensures();
    assert(forall|x: Seq<u8>| pats1.contains(x) <==> pats1.to_multiset().count(x) > 0);
    assert(forall|x: Seq<u8>| pats2.contains(x) <==> pats2.to_multiset().count(x) > 0);
    lemma_compose_same_elements(pats1, pats2, files);
    lemma_compose_same_elements(pats2, pats1, files);
}

/// Two pattern lists with the same elements compose alike, one direction at
/// a time.
proof fn lemma_compose_same_elements(
    pats1: Seq<Seq<u8>>,
    pats2: Seq<Seq<u8>>,
    files: Seq<Seq<u8>>,
)
    requires
        forall|x: Seq<u8>| pats1.contains(x) ==> pats2.contains(x),
        forall|x: Seq<u8>| pats2.contains(x) ==> pats1.contains(x),
    ensures
        compose_err(pats1, files) is None ==> compose_err(pats2, files) is None,
        compose_value(pats1, files) ==> compose_value(pats2, files),
{
    lemma_compose_err_none(pats1, files);
    lemma_compose_err_none(pats2, files);
    if compose_err(pats1, files) is None {
        assert forall|i: int| 0 <= i < pats2.len() implies #[trigger] pattern_err(
            pats2[i],
            files,
        ) is None by {
            assert(pats2.contains(pats2[i]));
            let i1 = choose|i1: int| 0 <= i1 < pats1.len() && pats1[i1] == pats2[i];
            assert(pattern_err(pats1[i1], files) is None);
        }
    }
    if compose_value(pats1, files) {
        let j = choose|j: int|
            0 <= j < files.len() && pos_matches(pats1, #[trigger] files[j]) && !neg_matches(
                pats1,
                files[j],
            );
        lemma_matches_same_elements(pats1, pats2, files[j]);
        lemma_matches_same_elements(pats2, pats1, files[j]);
        assert(pos_matches(pats2, files[j]) && !neg_matches(pats2, files[j]));
        assert(compose_value(pats2, files));
    }
}

/// A positive or negative hit carries over to any list with the same
/// elements.
proof fn lemma_matches_same_elements(pats1: Seq<Seq<u8>>, pats2: Seq<Seq<u8>>, f: Seq<u8>)
    requires
        forall|x: Seq<u8>| pats1.contains(x) ==> pats2.contains(x),
    ensures
        pos_matches(pats1, f) ==> pos_matches(pats2, f),
        neg_matches(pats1, f) ==> neg_matches(pats2, f),
{
    if pos_matches(pats1, f) {
        let i = choose|i: int|
            0 <= i < pats1.len() && !is_negative(pats1[i]) && #[trigger] glob_outcome(
                pats1[i],
                f,
            ) == Outcome::Matched;
        assert(pats1.contains(pats1[i]));
        let i2 = choose|i2: int| 0 <= i2 < pats2.len() && pats2[i2] == pats1[i];
        assert(glob_outcome(pats2[i2], f) == Outcome::Matched);
        assert(pos_matches(pats2, f));
    }
    if neg_matches(pats1, f) {
        let i = choose|i: int|
            0 <= i < pats1.len() && is_negative(#[trigger] pats1[i]) && glob_outcome(
                effective(pats1[i]),
                f,
            ) == Outcome::Matched;
        assert(pats1.contains(pats1[i]));
        let i2 = choose|i2: int| 0 <= i2 < pats2.len() && pats2[i2] == pats1[i];
        assert(glob_outcome(effective(pats2[i2]), f) == Outcome::Matched);
        assert(neg_matches(pats2, f));
    }
}

/// Appending a pattern already present in the list changes neither the
/// composed verdict nor the first error met: duplicating a pattern is
/// idempotent.
pub proof fn lemma_compose_duplicate(pats: Seq<Seq<u8>>, i: int, files: Seq<Seq<u8>>)
    requires
        0 <= i < pats.len(),
    ensures
        compose_err(pats.push(pats[i]), files) == compose_err(pats, files),
        compose_value(pats.push(pats[i]), files) == compose_value(pats, files),
{
    lemma_compose_err_push(pats, pats[i], files);
    lemma_compose_err_none(pats, files);
    if compose_err(pats, files) is None {
        assert(pattern_err(pats[i], files) is None);
    }
    let pats2 = pats.push(pats[i]);
    assert forall|x: Seq<u8>| pats.contains(x) implies pats2.contains(x) by {
        let k = choose|k: int| 0 <= k < pats.len() && pats[k] == x;
        assert(pats2[k] == x);
    }
    assert forall|x: Seq<u8>| pats2.contains(x) implies pats.contains(x) by {
        let k = choose|k: int| 0 <= k < pats2.len() && pats2[k] == x;
        if k < pats.len() {
            assert(pats[k] == x);
        } else {
            assert(pats[i] == x);
        }
    }
    assert forall|j: int| 0 <= j < files.len() implies (pos_matches(pats2, #[trigger] files[j])
        == pos_matches(pats, files[j]) && neg_matches(pats2, files[j]) == neg_matches(
        pats,
        files[j],
    )) by {
        lemma_matches_same_elements(pats, pats2, files[j]);
        lemma_matches_same_elements(pats2, pats, files[j]);
    }
    assert(compose_value(pats2, files) == compose_value(pats, files)) by {
        if compose_value(pats2, files) {
            let j = choose|j: int|
                0 <= j < files.len() && pos_matches(pats2, #[trigger] files[j]) && !neg_matches(
                    pats2,
                    files[j],
                );
            assert(pos_matches(pats, files[j]) && !neg_matches(pats, files[j]));
        }
        if compose_value(pats, files) {
            let j = choose|j: int|
                0 <= j < files.len() && pos_matches(pats, #[trigger] files[j]) && !neg_matches(
                    pats,
                    files[j],
                );
            assert(pos_matches(pats2, files[j]) && !neg_matches(pats2, files[j]));
        }
    }
}

/// Appending one pattern evaluates it only after all the others.
proof fn lemma_compose_err_push(pats: Seq<Seq<u8>>, x: Seq<u8>, files: Seq<Seq<u8>>)
    ensures
        compose_err(pats.push(x), files) == (match compose_err(pats, files) {
            Some(e) => Some(e),
            None => pattern_err(x, files),
        }),
    decreases pats.len(),
{
    let pats2 = pats.push(x);
    if pats.len() == 0 {
        assert(pats2.len() == 1);
        assert(pats2[0] == x);
        assert(pats2.drop_first() =~= Seq::<Seq<u8>>::empty());
    } else {
        assert(pats2.len() == pats.len() + 1);
        assert(pats2[0] == pats[0]);
        assert(pats2.drop_first() =~= pats.drop_first().push(x));
        lemma_compose_err_push(pats.drop_first(), x, files);
        assert(compose_err(pats2, files) == (match pattern_err(pats2[0], files) {
            Some(e) => Some(e),
            None => compose_err(pats2.drop_first(), files),
        }));
        assert(compose_err(pats, files) == (match pattern_err(pats[0], files) {
            Some(e) => Some(e),
            None => compose_err(pats.drop_first(), files),
        }));
    }
}

} // verus!
