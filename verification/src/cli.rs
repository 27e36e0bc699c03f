//! The command line: options and their checks.

use vstd::prelude::*;

use crate::edges::EdgeMode;
use crate::text::{chars_of, string_views};

verus! {

/// What a run is asked to do.
pub struct Config {
    /// The folder whose subfolders become graph nodes.
    pub root: String,
    /// Where the `.dot` file is written.
    pub output_path: String,
    /// Report each edge found, and counts, on the error stream.
    pub verbose: bool,
    /// Apply a transitive reduction before rendering.
    pub reduce: bool,
    /// How many folder levels to break out.
    pub level: usize,
    /// How cross-folder edges are placed.
    pub edge_mode: EdgeMode,
}

/// A configuration as plain values.
pub struct ConfigView {
    pub root: Seq<char>,
    pub output_path: Seq<char>,
    pub verbose: bool,
    pub reduce: bool,
    pub level: usize,
    pub edge_mode: EdgeMode,
}

/// The plain values of `c`.
pub open spec fn config_view(c: Config) -> ConfigView {
    ConfigView {
        root: c.root@,
        output_path: c.output_path@,
        verbose: c.verbose,
        reduce: c.reduce,
        level: c.level,
        edge_mode: c.edge_mode,
    }
}

/// The first position at or after `i` of an argument equal to `f1` or `f2`.
pub open spec fn first_flag_from(args: Seq<Seq<char>>, f1: Seq<char>, f2: Seq<char>, i: int) -> Option<
    int,
>
    decreases args.len() - i,
{
    if i < 0 || i >= args.len() {
        None
    } else if args[i] == f1 || args[i] == f2 {
        Some(i)
    } else {
        first_flag_from(args, f1, f2, i + 1)
    }
}

/// The first position of an argument equal to `f1` or `f2`.
pub open spec fn first_flag(args: Seq<Seq<char>>, f1: Seq<char>, f2: Seq<char>) -> Option<int> {
    first_flag_from(args, f1, f2, 0)
}

/// Whether a switch spelled `f1` or `f2` is given, and the arguments
/// without its first occurrence.
pub open spec fn take_switch(args: Seq<Seq<char>>, f1: Seq<char>, f2: Seq<char>) -> (bool, Seq<Seq<char>>) {
    match first_flag(args, f1, f2) {
        Some(p) => (true, args.remove(p)),
        None => (false, args),
    }
}

/// The value of the decimal digits `d`.
pub open spec fn digits_value(d: Seq<char>) -> nat
    decreases d.len(),
{
    if d.len() == 0 {
        0
    } else {
        digits_value(d.drop_last()) * 10 + (d.last() as nat - '0' as nat) as nat
    }
}

/// Every character of `d` is an ASCII decimal digit.
pub open spec fn all_digits(d: Seq<char>) -> bool {
    forall|i: int| 0 <= i < d.len() ==> '0' <= #[trigger] d[i] && d[i] <= '9'
}

/// `s` read as an unsigned integer the way `str::parse::<usize>` reads it:
/// an optional `'+'`, then at least one decimal digit, and no overflow.
pub open spec fn parse_usize_spec(s: Seq<char>) -> Option<usize> {
    let d = if s.len() > 0 && s[0] == '+' {
        s.drop_first()
    } else {
        s
    };
    if d.len() == 0 || !all_digits(d) || digits_value(d) > usize::MAX {
        None
    } else {
        Some(digits_value(d) as usize)
    }
}

proof fn lemma_digits_value_grows(d: Seq<char>, i: int)
    requires
        all_digits(d),
        0 <= i <= d.len(),
    ensures
        digits_value(d.take(i)) <= digits_value(d),
    decreases d.len() - i,
{
    if i < d.len() {
        lemma_digits_value_grows(d, i + 1);
        assert(d.take(i + 1).drop_last() == d.take(i));
        assert('0' <= d[i] && d[i] <= '9');
    } else {
        assert(d.take(i) == d);
    }
}

/// Reads `s` as an unsigned integer, as `str::parse::<usize>` does.
pub fn parse_usize(s: &str) -> (r: Option<usize>)
    ensures
        r == parse_usize_spec(s@),
{
    let cs = chars_of(s);
    let n = cs.len();
    let start: usize = if n > 0 && cs[0] == '+' {
        1
    } else {
        0
    };
    let ghost d = if s@.len() > 0 && s@[0] == '+' {
        s@.drop_first()
    } else {
        s@
    };
    assert(d == s@.skip(start as int));
    assert(parse_usize_spec(s@) == (if d.len() == 0 || !all_digits(d) || digits_value(d) > usize::MAX {
        None
    } else {
        Some(digits_value(d) as usize)
    }));
    if start == n {
        return None;
    }
    let mut value: usize = 0;
    let mut i: usize = start;
    assert(d.take(0) == Seq::<char>::empty());
    while i < n
        invariant
            start <= i <= n == cs@.len(),
            cs@ == s@,
            d == s@.skip(start as int),
            value as nat == digits_value(d.take(i - start)),
            all_digits(d.take(i - start)),
            parse_usize_spec(s@) == (if d.len() == 0 || !all_digits(d) || digits_value(d)
                > usize::MAX {
                None
            } else {
                Some(digits_value(d) as usize)
            }),
        decreases n - i,
    {
        let c = cs[i];
        assert(d[i - start] == c);
        if !('0' <= c && c <= '9') {
            assert(!all_digits(d));
            assert(parse_usize_spec(s@) is None);
            return None;
        }
        let digit = (c as u32 - '0' as u32) as usize;
        let ghost t = d.take(i - start + 1);
        assert(t.drop_last() == d.take(i - start));
        assert(t.last() == c);
        assert(digits_value(t) == value * 10 + digit);
        assert forall|j: int| 0 <= j < t.len() implies '0' <= #[trigger] t[j] && t[j] <= '9' by {
            if j < t.len() - 1 {
                assert(t[j] == d.take(i - start)[j]);
            }
        }
        match value.checked_mul(10) {
            Some(v) => match v.checked_add(digit) {
                Some(w) => {
                    value = w;
                },
                None => {
                    proof {
                        if all_digits(d) {
                            lemma_digits_value_grows(d, i - start + 1);
                        }
                    }
                    return None;
                },
            },
            None => {
                proof {
                    if all_digits(d) {
                        lemma_digits_value_grows(d, i - start + 1);
                    }
                }
                return None;
            },
        }
        i = i + 1;
    }
    assert(d.take(n - start) == d);
    Some(value)
}


/// The message for a `--level` value that is not a positive integer.
pub open spec fn level_value_message(v: Seq<char>) -> Seq<char> {
    "Error: --level expects a positive integer, got '"@ + v + "'"@
}

/// The message for an unknown `--edge-mode` value.
pub open spec fn mode_value_message(v: Seq<char>) -> Seq<char> {
    "Error: --edge-mode expects 'flat' or 'hierarchical', got '"@ + v + "'"@
}

/// The level asked for by `--level N` (1 when absent), and the arguments
/// without the option and its value.
pub open spec fn level_part(args: Seq<Seq<char>>) -> Result<(usize, Seq<Seq<char>>), Seq<char>> {
    match first_flag(args, "--level"@, "--level"@) {
        None => Ok((1, args)),
        Some(p) => if p + 1 >= args.len() {
            Err("Error: --level requires a positive integer argument"@)
        } else {
            let value = args[p + 1];
            let rest = args.remove(p + 1).remove(p);
            match parse_usize_spec(value) {
                Some(n) => if n >= 1 {
                    Ok((n, rest))
                } else {
                    Err(level_value_message(value))
                },
                None => Err(level_value_message(value)),
            }
        },
    }
}

/// The edge mode asked for by `--edge-mode MODE` (`Flat` when absent), and
/// the arguments without the option and its value.
pub open spec fn mode_part(args: Seq<Seq<char>>) -> Result<(EdgeMode, Seq<Seq<char>>), Seq<char>> {
    match first_flag(args, "--edge-mode"@, "--edge-mode"@) {
        None => Ok((EdgeMode::Flat, args)),
        Some(p) => if p + 1 >= args.len() {
            Err("Error: --edge-mode requires 'flat' or 'hierarchical'"@)
        } else {
            let value = args[p + 1];
            let rest = args.remove(p + 1).remove(p);
            if value == "flat"@ {
                Ok((EdgeMode::Flat, rest))
            } else if value == "hierarchical"@ {
                Ok((EdgeMode::Hierarchical, rest))
            } else {
                Err(mode_value_message(value))
            }
        },
    }
}

/// The configuration that the arguments ask for, or the message that
/// refuses them. Switches are taken out first (`--verbose` or `-v`, then
/// `--reduce`), then `--level` with its value, then `--edge-mode` with its
/// value; what remains is the input folder and an optional output path.
pub open spec fn parse_args_spec(args: Seq<Seq<char>>) -> Result<ConfigView, Seq<char>> {
    let (verbose, a1) = take_switch(args, "--verbose"@, "-v"@);
    let (reduce, a2) = take_switch(a1, "--reduce"@, "--reduce"@);
    match level_part(a2) {
        Err(m) => Err(m),
        Ok((level, a3)) => match mode_part(a3) {
            Err(m) => Err(m),
            Ok((edge_mode, a4)) => if a4.len() == 0 {
                Err("Error: missing <input_folder> argument"@)
            } else {
                Ok(
                    ConfigView {
                        root: a4[0],
                        output_path: if a4.len() > 1 {
                            a4[1]
                        } else {
                            "graph.dot"@
                        },
                        verbose,
                        reduce,
                        level,
                        edge_mode,
                    },
                )
            },
        },
    }
}

/// The first position of an argument equal to `f1` or `f2`.
fn find_flag(args: &Vec<String>, f1: &str, f2: &str) -> (r: Option<usize>)
    ensures
        match r {
            Some(p) => p < args@.len() && first_flag(string_views(args@), f1@, f2@) == Some(p as int),
            None => first_flag(string_views(args@), f1@, f2@) is None,
        },
{
    let a = f1.to_owned();
    let b = f2.to_owned();
    let n = args.len();
    let mut i: usize = 0;
    while i < n
        invariant
            n == args@.len(),
            i <= n,
            a@ == f1@,
            b@ == f2@,
            first_flag(string_views(args@), f1@, f2@) == first_flag_from(
                string_views(args@),
                f1@,
                f2@,
                i as int,
            ),
        decreases n - i,
    {
        assert(string_views(args@)[i as int] == args@[i as int]@);
        if args[i] == a || args[i] == b {
            return Some(i);
        }
        i = i + 1;
    }
    None
}

/// Removes the argument at position `p`.
fn remove_arg(args: &mut Vec<String>, p: usize) -> (r: String)
    requires
        p < old(args)@.len(),
    ensures
        string_views(final(args)@) == string_views(old(args)@).remove(p as int),
        final(args)@.len() == old(args)@.len() - 1,
        r@ == string_views(old(args)@)[p as int],
{
    let ghost before = args@;
    let r = args.remove(p);
    assert(string_views(args@) =~= string_views(before).remove(p as int));
    r
}

/// `prefix`, then `value`, then a closing quote.
fn quoted_message(prefix: &str, value: &String) -> (r: String)
    ensures
        r@ == prefix@ + value@ + "'"@,
{
    let mut m = prefix.to_owned();
    m.append(value.as_str());
    m.append("'");
    m
}

/// Takes out the first occurrence of a switch spelled `f1` or `f2`, and
/// tells whether there was one.
fn take_switch_arg(args: &mut Vec<String>, f1: &str, f2: &str) -> (r: bool)
    ensures
        (r, string_views(final(args)@)) == take_switch(string_views(old(args)@), f1@, f2@),
{
    match find_flag(args, f1, f2) {
        Some(pos) => {
            remove_arg(args, pos);
            true
        },
        None => false,
    }
}

/// Takes out `--level N` and gives the level, 1 when the option is absent.
fn take_level(args: &mut Vec<String>) -> (r: Result<usize, String>)
    ensures
        match r {
            Ok(n) => level_part(string_views(old(args)@)) == Ok::<(usize, Seq<Seq<char>>), Seq<char>>(
                (n, string_views(final(args)@)),
            ),
            Err(m) => level_part(string_views(old(args)@)) == Err::<(usize, Seq<Seq<char>>), Seq<char>>(
                m@,
            ),
        },
{
    match find_flag(args, "--level", "--level") {
        Some(pos) => {
            let len = args.len();
            if pos + 1 >= len {
                return Err("Error: --level requires a positive integer argument".to_owned());
            }
            let value = remove_arg(args, pos + 1);
            remove_arg(args, pos);
            match parse_usize(value.as_str()) {
                Some(n) => {
                    if n >= 1 {
                        Ok(n)
                    } else {
                        Err(quoted_message("Error: --level expects a positive integer, got '", &value))
                    }
                },
                None => Err(
                    quoted_message("Error: --level expects a positive integer, got '", &value),
                ),
            }
        },
        None => Ok(1),
    }
}

/// Takes out `--edge-mode MODE` and gives the mode, `Flat` when the option
/// is absent.
fn take_edge_mode(args: &mut Vec<String>) -> (r: Result<EdgeMode, String>)
    ensures
        match r {
            Ok(m) => mode_part(string_views(old(args)@)) == Ok::<(EdgeMode, Seq<Seq<char>>), Seq<char>>(
                (m, string_views(final(args)@)),
            ),
            Err(m) => mode_part(string_views(old(args)@)) == Err::<(EdgeMode, Seq<Seq<char>>), Seq<char>>(
                m@,
            ),
        },
{
    match find_flag(args, "--edge-mode", "--edge-mode") {
        Some(pos) => {
            let len = args.len();
            if pos + 1 >= len {
                return Err("Error: --edge-mode requires 'flat' or 'hierarchical'".to_owned());
            }
            let value = remove_arg(args, pos + 1);
            remove_arg(args, pos);
            if value == "flat".to_owned() {
                Ok(EdgeMode::Flat)
            } else if value == "hierarchical".to_owned() {
                Ok(EdgeMode::Hierarchical)
            } else {
                Err(
                    quoted_message(
                        "Error: --edge-mode expects 'flat' or 'hierarchical', got '",
                        &value,
                    ),
                )
            }
        },
        None => Ok(EdgeMode::Flat),
    }
}

/// Parses the command-line arguments (the program name excluded) into a
/// configuration, or gives the message that refuses them.
pub fn parse_args(args: Vec<String>) -> (r: Result<Config, String>)
    ensures
        match r {
            Ok(c) => parse_args_spec(string_views(args@)) == Ok::<ConfigView, Seq<char>>(
                config_view(c),
            ),
            Err(m) => parse_args_spec(string_views(args@)) == Err::<ConfigView, Seq<char>>(m@),
        },
{
    let mut args = args;
    let verbose = take_switch_arg(&mut args, "--verbose", "-v");
    let reduce = take_switch_arg(&mut args, "--reduce", "--reduce");
    let level = match take_level(&mut args) {
        Ok(n) => n,
        Err(m) => {
            return Err(m);
        },
    };
    let edge_mode = match take_edge_mode(&mut args) {
        Ok(m) => m,
        Err(m) => {
            return Err(m);
        },
    };
    if args.len() == 0 {
        return Err("Error: missing <input_folder> argument".to_owned());
    }
    let output_path = if args.len() > 1 {
        remove_arg(&mut args, 1)
    } else {
        "graph.dot".to_owned()
    };
    let root = remove_arg(&mut args, 0);
    Ok(Config { root, output_path, verbose, reduce, level, edge_mode })
}

} // verus!
