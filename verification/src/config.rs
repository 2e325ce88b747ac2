//! Service settings: the listening address and whether spoken lists are
//! formatted, with their defaults, and the `--config` / `-c` argument.
use vstd::prelude::*;

use crate::chars::{chars_of, same_chars, string_of};

verus! {

/// Where the service listens and whether step 6 (lists) runs.
#[derive(Debug)]
pub struct Config {
    pub host: String,
    pub port: u16,
    pub lists: bool,
}

pub open spec fn default_host_text() -> Seq<char> {
    seq!['1', '2', '7', '.', '0', '.', '0', '.', '1']
}

/// `127.0.0.1`.
pub fn default_host() -> (r: String)
    ensures
        r@ == default_host_text(),
{
    let v = vec!['1', '2', '7', '.', '0', '.', '0', '.', '1'];
    assert(v@ == default_host_text());
    string_of(&v)
}

/// 1180.
pub fn default_port() -> (r: u16)
    ensures
        r == 1180,
{
    1180
}

/// Lists are off unless asked for.
pub fn default_lists() -> (r: bool)
    ensures
        !r,
{
    false
}

impl Default for Config {
    fn default() -> (r: Self)
        ensures
            r.host@ == default_host_text(),
            r.port == 1180,
            !r.lists,
    {
        Config { host: default_host(), port: default_port(), lists: default_lists() }
    }
}

pub open spec fn is_config_flag(a: Seq<char>) -> bool {
    a == seq!['-', 'c'] || a == seq!['-', '-', 'c', 'o', 'n', 'f', 'i', 'g']
}

/// Index of the first `-c` / `--config` among `args[i..]`, or the length.
pub open spec fn first_config_flag(args: Seq<String>, i: int) -> int
    decreases args.len() - i,
{
    if i < 0 || i >= args.len() {
        args.len() as int
    } else if is_config_flag(args[i]@) {
        i
    } else {
        first_config_flag(args, i + 1)
    }
}

/// The argument right after the first `-c` / `--config`, if there is one.
pub open spec fn spec_config_path(args: Seq<String>) -> Option<Seq<char>> {
    let i = first_config_flag(args, 0);
    if i + 1 < args.len() {
        Some(args[i + 1]@)
    } else {
        None
    }
}

fn is_flag(a: &String) -> (b: bool)
    ensures
        b == is_config_flag(a@),
{
    let v = chars_of(a.as_str());
    let short = vec!['-', 'c'];
    let long = vec!['-', '-', 'c', 'o', 'n', 'f', 'i', 'g'];
    assert(short@ == seq!['-', 'c'] && long@ == seq!['-', '-', 'c', 'o', 'n', 'f', 'i', 'g']);
    same_chars(&v, &short) || same_chars(&v, &long)
}

/// The configuration file named on the command line (`--config <path>` or
/// `-c <path>`), if any.
pub fn config_path_from_args(args: &Vec<String>) -> (r: Option<String>)
    ensures
        r is None <==> spec_config_path(args@) is None,
        r matches Some(p) ==> spec_config_path(args@) == Some(p@),
{
    let mut i: usize = 0;
    while i < args.len()
        invariant
            i <= args.len(),
            first_config_flag(args@, 0) == first_config_flag(args@, i as int),
        decreases args.len() - i,
    {
        if is_flag(&args[i]) {
            if args.len() - i >= 2 {
                return Some(string_of(&chars_of(args[i + 1].as_str())));
            }
            return None;
        }
        i += 1;
    }
    None
}

} // verus!
