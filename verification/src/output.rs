//! Rendering the composed verdict as a line of text.

use vstd::prelude::*;
use vstd::string::StringExecFns;

verus! {

/// The text a boolean verdict renders to.
pub open spec fn bool_text(has_match: bool) -> Seq<char> {
    if has_match {
        "true"@
    } else {
        "false"@
    }
}

/// The output line for a result — bare `true`/`false`, or `<name>=<bool>`
/// when an output name is given. The line carries no terminator.
pub fn format_output_line(has_match: bool, output_name: Option<&str>) -> (r: String)
    ensures
        match output_name {
            None => r@ == bool_text(has_match),
            Some(name) => r@ == name@ + "="@ + bool_text(has_match),
        },
{
    let text: &str = if has_match {
        "true"
    } else {
        "false"
    };
    match output_name {
        None => text.to_owned(),
        Some(name) => {
            let mut line = name.to_owned();
            line.append("=");
            line.append(text);
            line
        },
    }
}

} // verus!
