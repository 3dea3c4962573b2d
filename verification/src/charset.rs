//! Executable character classes: parsing `[...]` out of a pattern and
//! testing bytes against the parsed class.

use vstd::prelude::*;
use crate::semantics::CharSetItem;
use crate::semantics::ClassParse;
use crate::semantics::ClassSpec;
use crate::semantics::MatchErr;
use crate::semantics::class_accepts;
use crate::semantics::item_covers;
use crate::semantics::items_cover;
use crate::semantics::parse_class;
use crate::semantics::parse_items;

verus! {

/// A parsed character class: an ordered list of single bytes and inclusive
/// ranges, and a negation flag.
pub struct CharSet {
    /// The items, in the order they appeared in the class.
    pub items: Vec<CharSetItem>,
    /// Whether the class began with `!` or `^`.
    pub negated: bool,
}

impl CharSet {
    /// Does this class accept byte `b`?
    pub fn matches(&self, b: u8) -> (r: bool)
        ensures
            r == class_accepts(self.negated, self.items@, b),
    {
        let mut i: usize = 0;
        let mut contains = false;
        while i < self.items.len()
            invariant
                i <= self.items@.len(),
                contains == exists|j: int| 0 <= j < i && item_covers(self.items@[j], b),
            decreases self.items@.len() - i,
        {
            let covered = match self.items[i] {
                CharSetItem::Single(c) => c == b,
                CharSetItem::Range(lo, hi) => lo <= b && b <= hi,
            };
            if covered {
                contains = true;
            }
            i = i + 1;
        }
        assert(contains == items_cover(self.items@, b));
        if self.negated {
            !contains
        } else {
            contains
        }
    }
}

/// Parse the character class whose `[` stands at `start_idx`. On success the
/// returned index points just past the closing `]`.
pub(crate) fn extract_charset(pattern: &[u8], start_idx: usize) -> (r: Result<(CharSet, usize), MatchErr>)
    requires
        start_idx < pattern@.len(),
        pattern@[start_idx as int] == 0x5bu8,
    ensures
        match r {
            Ok((cs, next)) => parse_class(pattern@, start_idx as int) == (ClassSpec::Class {
                negated: cs.negated,
                items: cs.items@,
                next: next as int,
            }),
            Err(e) => parse_class(pattern@, start_idx as int) == ClassSpec::Bad(e),
        },
{
    let n = pattern.len();
    let mut idx: usize = start_idx + 1;
    let mut items: Vec<CharSetItem> = Vec::new();
    let mut negated = false;

    if idx < n && (pattern[idx] == 0x21u8 || pattern[idx] == 0x5eu8) {
        negated = true;
        idx = idx + 1;
    }
    let ghost start0: int = idx as int;

    while idx < pattern.len()
        invariant
            start0 <= idx as int,
            idx <= pattern@.len(),
            parse_items(pattern@, start0, Seq::empty()) == parse_items(
                pattern@,
                idx as int,
                items@,
            ),
            parse_class(pattern@, start_idx as int) == (match parse_items(
                pattern@,
                start0,
                Seq::empty(),
            ) {
                ClassParse::Parsed { items, next } => ClassSpec::Class { negated, items, next },
                ClassParse::Bad(e) => ClassSpec::Bad(e),
            }),
        decreases pattern@.len() - idx,
    {
        let c = pattern[idx];
        if c == 0x5cu8 {
            if idx + 1 >= pattern.len() {
                return Err(MatchErr::TrailingBackslash);
            }
            let escaped = pattern[idx + 1];
            items.push(CharSetItem::Single(escaped));
            idx = idx + 2;
        } else if c == 0x5du8 {
            if items.len() == 0 {
                return Err(MatchErr::EmptyCharset);
            }
            return Ok((CharSet { items, negated }, idx + 1));
        } else if pattern.len() - idx > 2 && pattern[idx + 1] == 0x2du8 {
            if pattern[idx + 2] == 0x5du8 {
                items.push(CharSetItem::Single(c));
                items.push(CharSetItem::Single(0x2du8));
                idx = idx + 2;
            } else if c > pattern[idx + 2] {
                return Err(MatchErr::InvalidRange);
            } else {
                items.push(CharSetItem::Range(c, pattern[idx + 2]));
                idx = idx + 3;
            }
        } else {
            items.push(CharSetItem::Single(c));
            idx = idx + 1;
        }
    }
    Err(MatchErr::UnclosedCharset)
}

} // verus!
