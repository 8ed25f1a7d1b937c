//! Parsing one line of player input into a discrete command.
use vstd::prelude::*;
use crate::text::ci_eq;

verus! {

/// A parsed player command. The payload of `Go`, `Take` and `Use` is the
/// argument after the verb; `Unknown` carries the whole input line.
#[derive(Clone, Debug)]
pub enum Command {
    Help,
    Go(String),
    Look,
    Take(String),
    Use(String),
    Inventory,
    Save,
    Load,
    Quit,
    Unknown(String),
}

/// Whitespace as far as trimming is concerned.
pub open spec fn is_space(c: char) -> bool {
    c == ' ' || c == '\t' || c == '\n' || c == '\r'
}

/// `s` without leading whitespace.
pub open spec fn spec_trim_start(s: Seq<char>) -> Seq<char>
    decreases s.len(),
{
    if s.len() > 0 && is_space(s[0]) {
        spec_trim_start(s.drop_first())
    } else {
        s
    }
}

/// `s` without trailing whitespace.
pub open spec fn spec_trim_end(s: Seq<char>) -> Seq<char>
    decreases s.len(),
{
    if s.len() > 0 && is_space(s.last()) {
        spec_trim_end(s.drop_last())
    } else {
        s
    }
}

/// `s` without leading and trailing whitespace.
pub open spec fn spec_trim(s: Seq<char>) -> Seq<char> {
    spec_trim_end(spec_trim_start(s))
}

/// Index of the first plain space in `s`, or `-1`.
pub open spec fn spec_space_index(s: Seq<char>) -> int
    decreases s.len(),
{
    if s.len() == 0 {
        -1
    } else if s[0] == ' ' {
        0
    } else {
        let rest = spec_space_index(s.drop_first());
        if rest < 0 {
            -1
        } else {
            rest + 1
        }
    }
}

/// The verb of a trimmed input line: everything before the first space,
/// or the whole line if it has none.
pub open spec fn spec_verb(t: Seq<char>) -> Seq<char> {
    let i = spec_space_index(t);
    if i < 0 {
        t
    } else {
        t.take(i)
    }
}

/// The argument of a trimmed input line: everything after the first
/// space, trimmed again; empty if the line has no space.
pub open spec fn spec_arg(t: Seq<char>) -> Seq<char> {
    let i = spec_space_index(t);
    if i < 0 {
        Seq::empty()
    } else {
        spec_trim(t.skip(i + 1))
    }
}

/// Decides [`is_space`] at runtime.
fn is_space_char(c: char) -> (r: bool)
    ensures
        r == is_space(c),
{
    c == ' ' || c == '\t' || c == '\n' || c == '\r'
}

/// Strips leading whitespace, agreeing with [`spec_trim_start`].
fn trim_start<'a>(s: &'a str) -> (r: &'a str)
    ensures
        r@ == spec_trim_start(s@),
    decreases s@.len(),
{
    let n = s.unicode_len();
    if n > 0 && is_space_char(s.get_char(0)) {
        let rest = s.substring_char(1, n);
        proof {
            assert(rest@ =~= s@.drop_first());
        }
        trim_start(rest)
    } else {
        s
    }
}

/// Strips trailing whitespace, agreeing with [`spec_trim_end`].
fn trim_end<'a>(s: &'a str) -> (r: &'a str)
    ensures
        r@ == spec_trim_end(s@),
    decreases s@.len(),
{
    let n = s.unicode_len();
    if n > 0 && is_space_char(s.get_char(n - 1)) {
        let rest = s.substring_char(0, n - 1);
        proof {
            assert(rest@ =~= s@.drop_last());
        }
        trim_end(rest)
    } else {
        s
    }
}

/// First plain space of `s`, agreeing with [`spec_space_index`].
fn find_space(s: &str) -> (r: Option<usize>)
    ensures
        match r {
            Some(i) => i < s@.len() && i as int == spec_space_index(s@),
            None => spec_space_index(s@) < 0,
        },
    decreases s@.len(),
{
    let n = s.unicode_len();
    if n == 0 {
        None
    } else if s.get_char(0) == ' ' {
        Some(0)
    } else {
        let rest = s.substring_char(1, n);
        proof {
            assert(rest@ =~= s@.drop_first());
        }
        match find_space(rest) {
            Some(i) => Some(i + 1),
            None => None,
        }
    }
}

/// Parses one input line: the line is trimmed, its first word is the
/// verb (matched ignoring ASCII case, with the aliases `move` for `go`
/// and `inv` / `exit` for `inventory` / `quit`), and the rest is the
/// argument. A line with an unrecognised verb comes back whole inside
/// [`Command::Unknown`].
pub fn parse_command(input: &str) -> (r: Command)
    ensures
        ({
            let verb = spec_verb(spec_trim(input@));
            let arg = spec_arg(spec_trim(input@));
            if ci_eq(verb, "help"@) {
                r is Help
            } else if ci_eq(verb, "go"@) || ci_eq(verb, "move"@) {
                r matches Command::Go(a) && a@ == arg
            } else if ci_eq(verb, "look"@) {
                r is Look
            } else if ci_eq(verb, "take"@) {
                r matches Command::Take(a) && a@ == arg
            } else if ci_eq(verb, "use"@) {
                r matches Command::Use(a) && a@ == arg
            } else if ci_eq(verb, "inventory"@) || ci_eq(verb, "inv"@) {
                r is Inventory
            } else if ci_eq(verb, "save"@) {
                r is Save
            } else if ci_eq(verb, "load"@) {
                r is Load
            } else if ci_eq(verb, "quit"@) || ci_eq(verb, "exit"@) {
                r is Quit
            } else {
                r matches Command::Unknown(s) && s@ == input@
            }
        }),
{
    let trimmed = trim_end(trim_start(input));
    let n = trimmed.unicode_len();
    let (verb, arg): (&str, String) = match find_space(trimmed) {
        Some(i) => {
            let v = trimmed.substring_char(0, i);
            let rest = trimmed.substring_char(i + 1, n);
            proof {
                assert(v@ =~= spec_verb(trimmed@));
                assert(rest@ =~= trimmed@.skip(i + 1));
            }
            let a = trim_end(trim_start(rest));
            (v, a.to_owned())
        },
        None => (trimmed, String::new()),
    };
    if crate::text::str_ci_eq(verb, "help") {
        Command::Help
    } else if crate::text::str_ci_eq(verb, "go") || crate::text::str_ci_eq(verb, "move") {
        Command::Go(arg)
    } else if crate::text::str_ci_eq(verb, "look") {
        Command::Look
    } else if crate::text::str_ci_eq(verb, "take") {
        Command::Take(arg)
    } else if crate::text::str_ci_eq(verb, "use") {
        Command::Use(arg)
    } else if crate::text::str_ci_eq(verb, "inventory") || crate::text::str_ci_eq(verb, "inv") {
        Command::Inventory
    } else if crate::text::str_ci_eq(verb, "save") {
        Command::Save
    } else if crate::text::str_ci_eq(verb, "load") {
        Command::Load
    } else if crate::text::str_ci_eq(verb, "quit") || crate::text::str_ci_eq(verb, "exit") {
        Command::Quit
    } else {
        Command::Unknown(input.to_owned())
    }
}

} // verus!
