//! Command-line flags.

use vstd::prelude::*;

use crate::num::{
    natural_of, number_of, positive_of, read_number, read_positive, read_u64, Micros, Num,
};
use crate::report::DEFAULT_WINDOW_MIN;
use crate::text::chars_of;

verus! {

/// How often the line is rendered again unless the install says otherwise, in seconds.
pub const DEFAULT_REFRESH_SECS: u64 = 10;

/// The first argument from `from` on that is `name`; the length where none is.
pub open spec fn flag_at(args: Seq<String>, name: Seq<char>, from: nat) -> nat
    decreases args.len() - from,
{
    if from >= args.len() {
        args.len()
    } else if args[from as int]@ == name {
        from
    } else {
        flag_at(args, name, from + 1)
    }
}

/// The argument after the first that is `name`.
pub open spec fn flag_text(args: Seq<String>, name: Seq<char>) -> Option<Seq<char>> {
    let i = flag_at(args, name, 0);
    if i + 1 < args.len() {
        Some(args[(i + 1) as int]@)
    } else {
        None
    }
}

pub fn flag_value<'a>(args: &'a [String], name: &str) -> (r: Option<&'a str>)
    ensures
        match flag_text(args@, name@) {
            Some(t) => r matches Some(s) && s@ == t,
            None => r is None,
        },
{
    let wanted: String = name.to_owned();
    let mut i: usize = 0;
    while i < args.len() && args[i] != wanted
        invariant
            i <= args@.len(),
            wanted@ == name@,
            flag_at(args@, name@, 0) == flag_at(args@, name@, i as nat),
        decreases args@.len() - i,
    {
        i = i + 1;
    }
    if i < args.len() && args.len() - i > 1 {
        Some(args[i + 1].as_str())
    } else {
        None
    }
}

pub open spec fn flag_number(args: Seq<String>, name: Seq<char>) -> Option<Num> {
    match flag_text(args, name) {
        Some(t) => number_of(t),
        None => None,
    }
}

/// The number after a flag.
pub fn flag_f64(args: &[String], name: &str) -> (r: Option<Num>)
    ensures
        r == flag_number(args@, name@),
{
    match flag_value(args, name) {
        Some(s) => read_number(chars_of(s).as_slice()),
        None => None,
    }
}

pub open spec fn flag_natural(args: Seq<String>, name: Seq<char>) -> Option<u64> {
    match flag_text(args, name) {
        Some(t) => match natural_of(t) {
            Some(n) if n <= u64::MAX => Some(n as u64),
            _ => None,
        },
        None => None,
    }
}

/// The natural number after a flag.
pub fn flag_u64(args: &[String], name: &str) -> (r: Option<u64>)
    ensures
        r == flag_natural(args@, name@),
{
    match flag_value(args, name) {
        Some(s) => read_u64(chars_of(s).as_slice()),
        None => None,
    }
}

pub open spec fn flag_positive(args: Seq<String>, name: Seq<char>) -> Option<i64> {
    match flag_text(args, name) {
        Some(t) => positive_of(t),
        None => None,
    }
}

/// The report's window in minutes: a finite number above zero, else the default.
pub fn report_window(args: &[String]) -> (w: Micros)
    ensures
        w == match flag_positive(args@, "--window"@) {
            Some(v) => v,
            None => DEFAULT_WINDOW_MIN,
        },
        w > 0,
{
    match flag_value(args, "--window") {
        Some(s) => match read_positive(chars_of(s).as_slice()) {
            Some(v) => v,
            None => DEFAULT_WINDOW_MIN,
        },
        None => DEFAULT_WINDOW_MIN,
    }
}

/// The refresh interval that an install wires in, in seconds.
pub fn refresh_secs(args: &[String]) -> (n: u64)
    ensures
        n == match flag_natural(args@, "--refresh"@) {
            Some(v) => v,
            None => DEFAULT_REFRESH_SECS,
        },
{
    match flag_u64(args, "--refresh") {
        Some(v) => v,
        None => DEFAULT_REFRESH_SECS,
    }
}

/// A flag's value is the argument behind its first mention. Without a mention, or without an argument
/// behind the first, it has none.
pub proof fn a_flag_takes_what_follows_its_first_mention(args: Seq<String>, name: Seq<char>, i: int)
    requires
        0 <= i <= args.len(),
        forall|j: int| 0 <= j < i ==> (#[trigger] args[j])@ != name,
        i < args.len() ==> args[i]@ == name,
    ensures
        i + 1 < args.len() ==> flag_text(args, name) == Some(args[i + 1]@),
        i + 1 >= args.len() ==> flag_text(args, name) is None,
{
    lemma_first_mention(args, name, 0, i);
}

proof fn lemma_first_mention(args: Seq<String>, name: Seq<char>, from: nat, i: int)
    requires
        from <= i <= args.len(),
        forall|j: int| from <= j < i ==> (#[trigger] args[j])@ != name,
        i < args.len() ==> args[i]@ == name,
    ensures
        flag_at(args, name, from) == i,
    decreases i - from,
{
    if from < i {
        assert(args[from as int]@ != name);
        lemma_first_mention(args, name, from + 1, i);
    }
}

} // verus!
