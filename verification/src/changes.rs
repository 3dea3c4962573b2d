//! Parsing the change-enumeration output: one path per line, surrounding
//! whitespace trimmed, blank lines dropped.

use vstd::prelude::*;
use vstd::string::StrSliceExecFns;

verus! {

/// The whitespace characters trimmed from path lines.
pub open spec fn is_space(c: char) -> bool {
    c == ' ' || c == '\t' || c == '\n' || c == '\r' || c == '\u{b}' || c == '\u{c}' || c
        == '\u{85}' || c == '\u{a0}' || c == '\u{1680}' || c == '\u{2000}' || c == '\u{2001}' || c
        == '\u{2002}' || c == '\u{2003}' || c == '\u{2004}' || c == '\u{2005}' || c == '\u{2006}'
        || c == '\u{2007}' || c == '\u{2008}' || c == '\u{2009}' || c == '\u{200a}' || c
        == '\u{2028}' || c == '\u{2029}' || c == '\u{202f}' || c == '\u{205f}' || c == '\u{3000}'
}

/// The index of the first line break, or the length when there is none.
pub open spec fn line_break(s: Seq<char>) -> int
    decreases s.len(),
{
    if s.len() == 0 {
        0
    } else if s[0] == '\n' {
        0
    } else {
        1 + line_break(s.drop_first())
    }
}

/// The first line break lies within the text, on a `\n` when there is one.
pub proof fn lemma_line_break_bounds(s: Seq<char>)
    ensures
        0 <= line_break(s) <= s.len(),
        line_break(s) < s.len() ==> s[line_break(s)] == '\n',
        forall|k: int| 0 <= k < line_break(s) ==> s[k] != '\n',
    decreases s.len(),
{
    if s.len() > 0 && s[0] != '\n' {
        lemma_line_break_bounds(s.drop_first());
        assert(forall|k: int| 0 <= k < s.drop_first().len() ==> s.drop_first()[k] == s[k + 1]);
        assert forall|k: int| 0 <= k < line_break(s) implies s[k] != '\n' by {
            if k > 0 {
                assert(s.drop_first()[k - 1] == s[k]);
            }
        }
    }
}

/// Leading whitespace removed.
pub open spec fn trim_left(s: Seq<char>) -> Seq<char>
    decreases s.len(),
{
    if s.len() > 0 && is_space(s[0]) {
        trim_left(s.drop_first())
    } else {
        s
    }
}

/// Trailing whitespace removed.
pub open spec fn trim_right(s: Seq<char>) -> Seq<char>
    decreases s.len(),
{
    if s.len() > 0 && is_space(s[s.len() - 1]) {
        trim_right(s.drop_last())
    } else {
        s
    }
}

/// Whitespace removed from both ends.
pub open spec fn trim_spec(s: Seq<char>) -> Seq<char> {
    trim_right(trim_left(s))
}

/// The parsed path list: the text split at `\n`, each piece trimmed, empty
/// pieces dropped.
pub open spec fn parsed_paths(s: Seq<char>) -> Seq<Seq<char>>
    decreases s.len(),
{
    if s.len() == 0 {
        Seq::empty()
    } else {
        let i = line_break(s);
        let t = trim_spec(s.subrange(0, i));
        let head: Seq<Seq<char>> = if t.len() == 0 {
            Seq::empty()
        } else {
            seq![t]
        };
        proof {
            lemma_line_break_bounds(s);
        }
        if 0 <= i < s.len() {
            head + parsed_paths(s.subrange(i + 1, s.len() as int))
        } else {
            head
        }
    }
}

/// Trimming is exactly cutting at the outermost non-whitespace characters.
proof fn lemma_trim_at(s: Seq<char>, a: int, b: int)
    requires
        0 <= a <= b <= s.len(),
        forall|k: int| 0 <= k < a ==> is_space(#[trigger] s[k]),
        forall|k: int| b <= k < s.len() ==> is_space(#[trigger] s[k]),
        a == b || (!is_space(s[a]) && !is_space(s[b - 1])),
    ensures
        trim_spec(s) == s.subrange(a, b),
    decreases s.len(),
{
    if a == b {
        assert(forall|k: int| 0 <= k < s.len() ==> is_space(#[trigger] s[k]));
        lemma_trim_all_space(s);
        assert(s.subrange(a, b) =~= Seq::<char>::empty());
    } else if a > 0 {
        assert(is_space(s[0]));
        let s1 = s.drop_first();
        assert(forall|k: int| 0 <= k < s1.len() ==> s1[k] == s[k + 1]);
        lemma_trim_at(s1, a - 1, b - 1);
        assert(s1.subrange(a - 1, b - 1) =~= s.subrange(a, b));
        assert(trim_left(s) == trim_left(s1));
    } else if b < s.len() {
        // a == 0 < b: the ends at `a` and `b - 1` are real characters.
        assert(!is_space(s[0]));
        assert(trim_left(s) == s);
        assert(is_space(s[s.len() - 1]));
        let s1 = s.drop_last();
        assert(forall|k: int| 0 <= k < s1.len() ==> s1[k] == s[k]);
        lemma_trim_at(s1, a, b);
        assert(s1.subrange(a, b) =~= s.subrange(a, b));
        assert(s1.len() > 0 && !is_space(s1[0]));
        assert(trim_left(s1) == s1);
        assert(trim_right(s) == trim_right(s1));
    } else {
        assert(!is_space(s[0]));
        assert(trim_left(s) == s);
        assert(!is_space(s[s.len() - 1]));
        assert(trim_right(s) == s);
        assert(s.subrange(a, b) =~= s);
    }
}

/// Trimming an all-whitespace text leaves nothing.
proof fn lemma_trim_all_space(s: Seq<char>)
    requires
        forall|k: int| 0 <= k < s.len() ==> is_space(#[trigger] s[k]),
    ensures
        trim_spec(s) == Seq::<char>::empty(),
    decreases s.len(),
{
    if s.len() > 0 {
        let s1 = s.drop_first();
        assert(forall|k: int| 0 <= k < s1.len() ==> s1[k] == s[k + 1]);
        lemma_trim_all_space(s1);
        assert(trim_left(s) == trim_left(s1));
        assert(trim_spec(s1) == Seq::<char>::empty());
        lemma_trim_left_all_space(s1);
    }
}

/// On all-whitespace text, already trimming the left leaves nothing.
proof fn lemma_trim_left_all_space(s: Seq<char>)
    requires
        forall|k: int| 0 <= k < s.len() ==> is_space(#[trigger] s[k]),
    ensures
        trim_left(s) == Seq::<char>::empty(),
    decreases s.len(),
{
    if s.len() > 0 {
        let s1 = s.drop_first();
        assert(forall|k: int| 0 <= k < s1.len() ==> s1[k] == s[k + 1]);
        lemma_trim_left_all_space(s1);
    } else {
        assert(s =~= Seq::<char>::empty());
    }
}

/// Is the character whitespace, for trimming?
fn is_space_char(c: char) -> (r: bool)
    ensures
        r == is_space(c),
{
    c == ' ' || c == '\t' || c == '\n' || c == '\r' || c == '\u{b}' || c == '\u{c}' || c
        == '\u{85}' || c == '\u{a0}' || c == '\u{1680}' || c == '\u{2000}' || c == '\u{2001}' || c
        == '\u{2002}' || c == '\u{2003}' || c == '\u{2004}' || c == '\u{2005}' || c == '\u{2006}'
        || c == '\u{2007}' || c == '\u{2008}' || c == '\u{2009}' || c == '\u{200a}' || c
        == '\u{2028}' || c == '\u{2029}' || c == '\u{202f}' || c == '\u{205f}' || c == '\u{3000}'
}

/// Parse the change-enumeration output into a list of paths: one per line,
/// trimmed of surrounding whitespace, with blank lines dropped.
pub fn parse_git_output(output: &str) -> (r: Result<Vec<String>, String>)
    ensures
        r matches Ok(v) && v.deep_view() == parsed_paths(output@),
{
    let n = output.unicode_len();
    let mut res: Vec<String> = Vec::new();
    let mut pos: usize = 0;
    proof {
        assert(res.deep_view() =~= Seq::<Seq<char>>::empty());
        assert(output@.subrange(0, n as int) =~= output@);
    }
    while pos < n
        invariant
            pos <= n,
            n == output@.len(),
            parsed_paths(output@) == res.deep_view() + parsed_paths(
                output@.subrange(pos as int, n as int),
            ),
        decreases n - pos,
    {
        let ghost suffix = output@.subrange(pos as int, n as int);
        // Find the end of the current line.
        let mut j = pos;
        while j < n && output.get_char(j) != '\n'
            invariant
                pos <= j <= n,
                n == output@.len(),
                forall|k: int| pos <= k < j ==> output@[k] != '\n',
            decreases n - j,
        {
            j = j + 1;
        }
        proof {
            assert(forall|k: int| 0 <= k < suffix.len() ==> suffix[k] == output@[pos + k]);
            lemma_line_break_at(suffix, j - pos);
        }
        // Trim the line.
        let mut a = pos;
        while a < j && is_space_char(output.get_char(a))
            invariant
                pos <= a <= j <= n,
                n == output@.len(),
                forall|k: int| pos <= k < a ==> is_space(#[trigger] output@[k]),
            decreases j - a,
        {
            a = a + 1;
        }
        let mut b = j;
        while b > a && is_space_char(output.get_char(b - 1))
            invariant
                a <= b <= j <= n,
                n == output@.len(),
                forall|k: int| b <= k < j ==> is_space(#[trigger] output@[k]),
            decreases b,
        {
            b = b - 1;
        }
        proof {
            let line = suffix.subrange(0, j - pos);
            assert(forall|k: int| 0 <= k < line.len() ==> line[k] == output@[pos + k]);
            lemma_trim_at(line, a - pos, b - pos);
            assert(line.subrange(a - pos, b - pos) =~= output@.subrange(a as int, b as int));
        }
        if a < b {
            let piece = output.substring_char(a, b);
            res.push(piece.to_owned());
        }
        proof {
            if j < n {
                assert(suffix.subrange(j - pos + 1, suffix.len() as int) =~= output@.subrange(
                    j + 1,
                    n as int,
                ));
            }
            assert(parsed_paths(suffix) == (if a < b {
                seq![output@.subrange(a as int, b as int)]
            } else {
                Seq::<Seq<char>>::empty()
            }) + (if j < n {
                parsed_paths(output@.subrange(j + 1, n as int))
            } else {
                Seq::<Seq<char>>::empty()
            }));
        }
        let ghost old_res = res.deep_view();
        pos = if j < n {
            j + 1
        } else {
            n
        };
        proof {
            if j >= n {
                assert(output@.subrange(pos as int, n as int) =~= Seq::<char>::empty());
            }
            assert(res.deep_view() + parsed_paths(output@.subrange(pos as int, n as int))
                =~= parsed_paths(output@));
        }
    }
    proof {
        assert(output@.subrange(pos as int, n as int) =~= Seq::<char>::empty());
        assert(res.deep_view() =~= parsed_paths(output@));
    }
    Ok(res)
}

/// The scanned break position is the first line break.
proof fn lemma_line_break_at(s: Seq<char>, i: int)
    requires
        0 <= i <= s.len(),
        forall|k: int| 0 <= k < i ==> s[k] != '\n',
        i < s.len() ==> s[i] == '\n',
    ensures
        line_break(s) == i,
    decreases i,
{
    if i > 0 {
        let s1 = s.drop_first();
        assert(forall|k: int| 0 <= k < s1.len() ==> s1[k] == s[k + 1]);
        lemma_line_break_at(s1, i - 1);
    }
}

} // verus!
