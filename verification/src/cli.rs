//! The command line of the dictionary builder.
use vstd::prelude::*;
use crate::text::{chars_of, owned};

verus! {

/// The paths named on a command line, read from position `i` on with the paths found so far:
/// `--input`, `--output` and `--gaddag` each take the next argument as their path; any other
/// argument, or a flag with nothing after it, makes the line unusable; at the end the input
/// and the output must both have been named.
pub open spec fn parse_spec(
    args: Seq<Seq<char>>,
    i: int,
    input: Option<Seq<char>>,
    output: Option<Seq<char>>,
    gaddag: Option<Seq<char>>,
) -> Option<(Seq<char>, Seq<char>, Option<Seq<char>>)>
    decreases args.len() - i,
{
    if i >= args.len() {
        match (input, output) {
            (Some(a), Some(b)) => Some((a, b, gaddag)),
            _ => None,
        }
    } else if i + 1 >= args.len() && (args[i] == "--input"@ || args[i] == "--output"@ || args[i]
        == "--gaddag"@) {
        None
    } else if args[i] == "--input"@ {
        parse_spec(args, i + 2, Some(args[i + 1]), output, gaddag)
    } else if args[i] == "--output"@ {
        parse_spec(args, i + 2, input, Some(args[i + 1]), gaddag)
    } else if args[i] == "--gaddag"@ {
        parse_spec(args, i + 2, input, output, Some(args[i + 1]))
    } else {
        None
    }
}

/// The views of a list of strings.
pub open spec fn string_views(args: Seq<String>) -> Seq<Seq<char>> {
    args.map_values(|s: String| s@)
}

/// Whether two strings hold the same characters.
fn same_text(a: &str, b: &str) -> (r: bool)
    ensures
        r == (a@ == b@),
{
    let x = chars_of(a);
    let y = chars_of(b);
    if x.len() != y.len() {
        return false;
    }
    let mut i: usize = 0;
    while i < x.len()
        invariant
            i <= x@.len() == y@.len(),
            x@ == a@,
            y@ == b@,
            x@.take(i as int) == y@.take(i as int),
        decreases x@.len() - i,
    {
        if x[i] != y[i] {
            assert(x@.take(i as int + 1)[i as int] != y@.take(i as int + 1)[i as int]);
            assert(x@ != y@);
            return false;
        }
        assert(x@.take(i as int + 1) =~= x@.take(i as int).push(x@[i as int]));
        assert(y@.take(i as int + 1) =~= y@.take(i as int).push(y@[i as int]));
        i = i + 1;
    }
    assert(x@ =~= x@.take(i as int));
    assert(y@ =~= y@.take(i as int));
    true
}

/// Reads `--input <wordlist>`, `--output <dict>` and an optional `--gaddag <gaddag>` from the
/// arguments after the program name.
pub fn parse_args(args: &[String]) -> (r: Option<(String, String, Option<String>)>)
    ensures
        match r {
            Some((a, b, g)) => parse_spec(string_views(args@), 1, None, None, None) == Some(
                (a@, b@, match g {
                    Some(x) => Some(x@),
                    None => None,
                }),
            ),
            None => parse_spec(string_views(args@), 1, None, None, None) is None,
        },
{
    let ghost views = string_views(args@);
    let mut input: Option<String> = None;
    let mut output: Option<String> = None;
    let mut gaddag: Option<String> = None;
    let mut i: usize = 1;
    while i < args.len()
        invariant
            views == string_views(args@),
            views.len() == args@.len(),
            1 <= i,
            parse_spec(views, i as int, opt_view(input), opt_view(output), opt_view(gaddag)) == parse_spec(
                views,
                1,
                None,
                None,
                None,
            ),
        decreases args@.len() - i,
    {
        let arg = args[i].as_str();
        let is_input = same_text(arg, "--input");
        let is_output = same_text(arg, "--output");
        let is_gaddag = same_text(arg, "--gaddag");
        assert(views[i as int] == args@[i as int]@);
        if is_input || is_output || is_gaddag {
            if i + 1 >= args.len() {
                return None;
            }
            let path = owned(args[i + 1].as_str());
            assert(views[i + 1] == args@[i + 1]@);
            if is_input {
                input = Some(path);
            } else if is_output {
                output = Some(path);
            } else {
                gaddag = Some(path);
            }
            i = i + 2;
        } else {
            return None;
        }
    }
    match (input, output) {
        (Some(a), Some(b)) => Some((a, b, gaddag)),
        _ => None,
    }
}

/// The view of an optional string.
pub open spec fn opt_view(s: Option<String>) -> Option<Seq<char>> {
    match s {
        Some(x) => Some(x@),
        None => None,
    }
}

} // verus!
