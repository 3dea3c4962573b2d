//! Command-line argument parsing: the flag grammar and its exact error
//! messages, specified by [`parse_step`].

use vstd::prelude::*;
use vstd::string::StringExecFns;
use vstd::string::StringSliceAdditionalSpecFns;
use vstd::string::StrSliceExecFns;
use vstd::utf8::encode_utf8_decode_utf8;

verus! {

/// Parsed command-line arguments.
#[derive(Debug, PartialEq)]
pub struct Args {
    /// The patterns given with `-p`/`--pattern`, in order.
    pub patterns: Vec<String>,
    /// The base reference given with `-b`/`--base-ref`, if any.
    pub base_ref: Option<String>,
    /// The output name given with `-g`/`--github-output`, if any.
    pub github_output: Option<String>,
}

/// The view of an optional string.
pub open spec fn opt_view(o: Option<String>) -> Option<Seq<char>> {
    match o {
        Some(s) => Some(s@),
        None => None,
    }
}

/// The meaning of the argument list from position `i` on, given what has
/// been collected so far: either the final triple (patterns, base
/// reference, output name) or the exact error message.
pub open spec fn parse_step(
    args: Seq<Seq<char>>,
    i: int,
    pats: Seq<Seq<char>>,
    base: Option<Seq<char>>,
    out: Option<Seq<char>>,
) -> Result<(Seq<Seq<char>>, Option<Seq<char>>, Option<Seq<char>>), Seq<char>>
    decreases args.len() - i,
{
    if i < 0 || i >= args.len() {
        if pats.len() == 0 {
            Err("at least one --pattern is required"@)
        } else {
            Ok((pats, base, out))
        }
    } else {
        let a = args[i];
        if a == "-p"@ || a == "--pattern"@ {
            if i + 1 >= args.len() {
                Err(a + " requires a value"@)
            } else {
                parse_step(args, i + 2, pats.push(args[i + 1]), base, out)
            }
        } else if a == "-b"@ || a == "--base-ref"@ {
            if base is Some {
                Err(a + " can only be specified once"@)
            } else if i + 1 >= args.len() {
                Err(a + " requires a value"@)
            } else {
                parse_step(args, i + 2, pats, Some(args[i + 1]), out)
            }
        } else if a == "-g"@ || a == "--github-output"@ {
            if out is Some {
                Err(a + " can only be specified once"@)
            } else if i + 1 >= args.len() {
                Err(a + " requires a value"@)
            } else {
                parse_step(args, i + 2, pats, base, Some(args[i + 1]))
            }
        } else if a.len() > 0 && a[0] == '-' {
            Err("Unknown flag: "@ + a)
        } else {
            Err("Unexpected argument: "@ + a)
        }
    }
}

/// Are two string slices the same sequence of characters?
fn str_eq(a: &str, b: &str) -> (r: bool)
    ensures
        r == (a@ == b@),
{
    let ab = a.as_bytes();
    let bb = b.as_bytes();
    if ab.len() != bb.len() {
        return false;
    }
    let mut i: usize = 0;
    while i < ab.len()
        invariant
            i <= ab@.len(),
            ab@.len() == bb@.len(),
            ab@ == a.spec_bytes(),
            bb@ == b.spec_bytes(),
            forall|j: int| 0 <= j < i ==> ab@[j] == bb@[j],
        decreases ab@.len() - i,
    {
        if ab[i] != bb[i] {
            proof {
                if a@ == b@ {
                    assert(a.spec_bytes() == b.spec_bytes());
                }
            }
            return false;
        }
        i = i + 1;
    }
    proof {
        assert(a.spec_bytes() =~= b.spec_bytes());
        encode_utf8_decode_utf8(a@);
        encode_utf8_decode_utf8(b@);
    }
    true
}

/// Build the message `<arg><suffix>`.
fn flag_message(arg: &String, suffix: &str) -> (r: String)
    ensures
        r@ == arg@ + suffix@,
{
    let mut m = arg.clone();
    m.append(suffix);
    m
}

/// Build the message `<prefix><arg>`.
fn arg_message(prefix: &str, arg: &String) -> (r: String)
    ensures
        r@ == prefix@ + arg@,
{
    let mut m = prefix.to_owned();
    m.append(arg.as_str());
    m
}

/// Parse an argument list: `-p`/`--pattern` collects a pattern (at least
/// one is required), `-b`/`--base-ref` and `-g`/`--github-output` each take
/// one value and may appear once. The result and every error message are
/// exactly what [`parse_step`] prescribes.
pub fn parse_args_from_vec(args: &[String]) -> (r: Result<Args, String>)
    ensures
        match r {
            Ok(a) => parse_step(args.deep_view(), 0, Seq::empty(), None, None) == Ok::<
                _,
                Seq<char>,
            >((a.patterns.deep_view(), opt_view(a.base_ref), opt_view(a.github_output))),
            Err(e) => parse_step(args.deep_view(), 0, Seq::empty(), None, None) == Err::<
                (Seq<Seq<char>>, Option<Seq<char>>, Option<Seq<char>>),
                _,
            >(e@),
        },
{
    let mut patterns: Vec<String> = Vec::new();
    let mut base_ref: Option<String> = None;
    let mut github_output: Option<String> = None;

    let mut i: usize = 0;
    proof {
        assert(patterns.deep_view() =~= Seq::<Seq<char>>::empty());
    }
    while i < args.len()
        invariant
            i <= args@.len(),
            parse_step(args.deep_view(), 0, Seq::empty(), None, None) == parse_step(
                args.deep_view(),
                i as int,
                patterns.deep_view(),
                opt_view(base_ref),
                opt_view(github_output),
            ),
        decreases args@.len() - i,
    {
        let arg = &args[i];
        proof {
            assert(arg@ == args.deep_view()[i as int]);
        }
        let is_p = str_eq(arg.as_str(), "-p") || str_eq(arg.as_str(), "--pattern");
        let is_b = str_eq(arg.as_str(), "-b") || str_eq(arg.as_str(), "--base-ref");
        let is_g = str_eq(arg.as_str(), "-g") || str_eq(arg.as_str(), "--github-output");
        if is_p {
            if i + 1 >= args.len() {
                return Err(flag_message(arg, " requires a value"));
            }
            let ghost old_pats = patterns.deep_view();
            patterns.push(args[i + 1].clone());
            proof {
                assert(patterns.deep_view() =~= old_pats.push(args.deep_view()[i + 1]));
            }
            i = i + 2;
        } else if is_b {
            if base_ref.is_some() {
                return Err(flag_message(arg, " can only be specified once"));
            }
            if i + 1 >= args.len() {
                return Err(flag_message(arg, " requires a value"));
            }
            base_ref = Some(args[i + 1].clone());
            i = i + 2;
        } else if is_g {
            if github_output.is_some() {
                return Err(flag_message(arg, " can only be specified once"));
            }
            if i + 1 >= args.len() {
                return Err(flag_message(arg, " requires a value"));
            }
            github_output = Some(args[i + 1].clone());
            i = i + 2;
        } else {
            let dash = !arg.as_str().is_empty() && arg.as_str().get_char(0) == '-';
            if dash {
                return Err(arg_message("Unknown flag: ", arg));
            } else {
                return Err(arg_message("Unexpected argument: ", arg));
            }
        }
    }
    if patterns.len() == 0 {
        return Err("at least one --pattern is required".to_owned());
    }
    Ok(Args { patterns, base_ref, github_output })
}

} // verus!
