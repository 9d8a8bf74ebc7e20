//! Merging (or removing) the `statusLine` block in `settings.json` without disturbing any
//! other keys. A settings file that is not a JSON object is never overwritten.

use vstd::prelude::*;
use vstd::string::*;

use crate::decimals::a_whole_number_reads_as_written;
use crate::json::{
    child, lookup, number_under, open_value, parse_value, parsed_tree, value_tree, Node, Tree,
};
use crate::num::{decimal_of, is_digit, unsigned, Num};
use crate::text::{blank, chars_of, dec, is_white, is_whitespace, lemma_not_blank, trim_chars};

verus! {

// ---------------------------------------------------------------------------------------
// The command
// ---------------------------------------------------------------------------------------

pub open spec fn has_white(s: Seq<char>) -> bool {
    exists|i: int| 0 <= i < s.len() && is_white(#[trigger] s[i])
}

pub open spec fn quoted(path: Seq<char>) -> Seq<char> {
    if has_white(path) {
        "\""@ + path + "\""@
    } else {
        path
    }
}

/// Quote the command path for the shell that runs it (only if it has whitespace).
pub fn quote_cmd(path: &str) -> (s: String)
    ensures
        s@ == quoted(path@),
{
    let all = chars_of(path);
    let mut i: usize = 0;
    while i < all.len()
        invariant
            i <= all@.len(),
            all@ == path@,
            forall|j: int| 0 <= j < i ==> !is_white(#[trigger] all@[j]),
        decreases all@.len() - i,
    {
        if is_whitespace(all[i]) {
            assert(is_white(path@[i as int]));
            let mut s = "\"".to_owned();
            s.append(path);
            s.append("\"");
            return s;
        }
        i = i + 1;
    }
    path.to_owned()
}

// ---------------------------------------------------------------------------------------
// Editing an object
// ---------------------------------------------------------------------------------------

/// An object's entries with `key` set to `value`: in its place if the key is there, else last.
pub open spec fn with_entry(entries: Seq<(Seq<char>, Tree)>, key: Seq<char>, value: Tree) -> Seq<
    (Seq<char>, Tree),
>
    decreases entries.len(),
{
    if entries.len() == 0 {
        seq![(key, value)]
    } else if entries[0].0 == key {
        seq![(key, value)] + entries.drop_first()
    } else {
        seq![entries[0]] + with_entry(entries.drop_first(), key, value)
    }
}

/// An object's entries but for `key`, in their order.
pub open spec fn without_entry(entries: Seq<(Seq<char>, Tree)>, key: Seq<char>) -> Seq<
    (Seq<char>, Tree),
>
    decreases entries.len(),
{
    if entries.len() == 0 {
        Seq::empty()
    } else if entries[0].0 == key {
        without_entry(entries.drop_first(), key)
    } else {
        seq![entries[0]] + without_entry(entries.drop_first(), key)
    }
}

/// `serde_json::Map::insert` on the object in a `Value`. A key that is there keeps its place
/// and takes the new value; a new one goes last.
#[verifier::external_body]
fn put_entry(v: &mut serde_json::Value, key: &str, value: serde_json::Value)
    requires
        value_tree(*old(v)) is Obj,
    ensures
        value_tree(*final(v)) == Tree::Obj(
            with_entry(value_tree(*old(v))->Obj_0, key@, value_tree(value)),
        ),
{
    v.as_object_mut().unwrap().insert(key.to_owned(), value);
}

/// `serde_json::Map::shift_remove` on the object in a `Value`: whether the key was there. The
/// other entries keep their order.
#[verifier::external_body]
fn take_entry(v: &mut serde_json::Value, key: &str) -> (found: bool)
    requires
        value_tree(*old(v)) is Obj,
    ensures
        value_tree(*final(v)) == Tree::Obj(without_entry(value_tree(*old(v))->Obj_0, key@)),
        found == (lookup(value_tree(*old(v))->Obj_0, key@) is Some),
{
    v.as_object_mut().unwrap().shift_remove(key).is_some()
}

/// An object without entries: `serde_json::Map::new` in a `Value`.
#[verifier::external_body]
fn empty_object() -> (v: serde_json::Value)
    ensures
        value_tree(v) == Tree::Obj(Seq::empty()),
{
    serde_json::Value::Object(serde_json::Map::new())
}

/// A text in a `serde_json::Value`.
#[verifier::external_body]
fn string_value(s: String) -> (v: serde_json::Value)
    ensures
        value_tree(v) == Tree::Str(s@),
{
    serde_json::Value::String(s)
}

/// `serde_json::Number::from` a natural number, in a `Value`: its decimal notation.
#[verifier::external_body]
fn number_value(n: u64) -> (v: serde_json::Value)
    ensures
        value_tree(v) == Tree::Num(dec(n as nat)),
{
    serde_json::Value::Number(serde_json::Number::from(n))
}

/// What `serde_json::to_string_pretty` writes for a value.
pub uninterp spec fn pretty_text(t: Tree) -> Seq<char>;

/// How deeply a text may nest for `serde_json` to read it.
pub const MAX_DEPTH: usize = 127;

/// Whether `serde_json` reads a number back from its notation unchanged: a whole number, or a
/// decimal number of at most fifteen digits whose power of ten is at most the twenty-second. Of
/// a longer fraction the last digit may come back as another.
pub open spec fn number_reads_back(s: Seq<char>) -> bool {
    ||| forall|i: int| 0 <= i < s.len() ==> #[trigger] s[i] == '-' || is_digit(s[i])
    ||| decimal_of(unsigned(s).1) matches Some((ds, p)) && ds.len() <= 15 && -22 <= p - ds.len()
        <= 22
}

/// Whether a value nests at most `depth` levels deep and its numbers all read back.
pub open spec fn reads_back(t: Tree, depth: nat) -> bool
    decreases t,
{
    match t {
        Tree::Num(s) => number_reads_back(s),
        Tree::Arr(a) => depth > 0 && forall|i: int|
            0 <= i < a.len() ==> reads_back(#[trigger] a[i], (depth - 1) as nat),
        Tree::Obj(m) => depth > 0 && forall|i: int|
            0 <= i < m.len() ==> reads_back((#[trigger] m[i]).1, (depth - 1) as nat),
        _ => true,
    }
}

/// `serde_json::to_string_pretty` at the type `Value`, which succeeds: its keys are strings and
/// its numbers finite. The text is decided by what the value holds. The notation of an object
/// opens with a brace, and `serde_json::from_str` reads the same value from it, with a line end
/// behind it, where the value is not too deep and its numbers read back.
#[verifier::external_body]
fn pretty(v: &serde_json::Value) -> (r: Result<String, serde_json::Error>)
    ensures
        r is Ok,
        r->Ok_0@ == pretty_text(value_tree(*v)),
        value_tree(*v) is Obj ==> r->Ok_0@.len() > 0 && r->Ok_0@[0] == '{',
        reads_back(value_tree(*v), MAX_DEPTH as nat) ==> parsed_tree(r->Ok_0@ + "\n"@) == Some(
            value_tree(*v),
        ),
{
    serde_json::to_string_pretty(v)
}

// ---------------------------------------------------------------------------------------
// The settings file
// ---------------------------------------------------------------------------------------

/// Why a settings file is refused.
#[derive(Clone, Copy, PartialEq, Eq, Debug, Structural)]
pub enum SettingsError {
    NotJson,
    NotObject,
}

impl SettingsError {
    pub open spec fn reason(self) -> Seq<char> {
        match self {
            SettingsError::NotJson =>
                " is not valid JSON — refusing to overwrite (fix or move it, then re-run)"@,
            SettingsError::NotObject => " is not a JSON object — refusing to overwrite"@,
        }
    }

    /// The message for the settings file at `path`.
    pub fn message(self, path: &str) -> (s: String)
        ensures
            s@ == path@ + self.reason(),
    {
        let mut s = path.to_owned();
        match self {
            SettingsError::NotJson => {
                s.append(
                    " is not valid JSON — refusing to overwrite (fix or move it, then re-run)",
                );
            },
            SettingsError::NotObject => {
                s.append(" is not a JSON object — refusing to overwrite");
            },
        }
        s
    }
}

/// The settings that a file holds: none where it is missing or blank.
pub open spec fn settings_in(text: Option<Seq<char>>) -> Result<
    Seq<(Seq<char>, Tree)>,
    SettingsError,
> {
    match text {
        None => Ok(Seq::empty()),
        Some(t) => if blank(t) {
            Ok(Seq::empty())
        } else {
            match parsed_tree(t) {
                None => Err(SettingsError::NotJson),
                Some(Tree::Obj(m)) => Ok(m),
                Some(_) => Err(SettingsError::NotObject),
            }
        },
    }
}

pub open spec fn str_opt(s: Option<&str>) -> Option<Seq<char>> {
    match s {
        Some(x) => Some(x@),
        None => None,
    }
}

fn is_object(v: &serde_json::Value) -> (r: bool)
    ensures
        r == (value_tree(*v) is Obj),
{
    match open_value(v) {
        Node::Obj(_) => true,
        _ => false,
    }
}

/// Load settings as a JSON object. Missing/empty → empty object.
fn load_object(text: Option<&str>) -> (r: Result<serde_json::Value, SettingsError>)
    ensures
        match settings_in(str_opt(text)) {
            Ok(m) => r matches Ok(v) && value_tree(v) == Tree::Obj(m),
            Err(e) => r matches Err(x) && x == e,
        },
{
    let t = match text {
        None => {
            return Ok(empty_object());
        },
        Some(t) => t,
    };
    if trim_chars(t).len() == 0 {
        return Ok(empty_object());
    }
    match parse_value(t) {
        Err(_) => Err(SettingsError::NotJson),
        Ok(v) => if is_object(&v) {
            Ok(v)
        } else {
            Err(SettingsError::NotObject)
        },
    }
}

/// The file that holds a value: its pretty notation and a line end.
pub open spec fn file_text(t: Tree) -> Seq<char> {
    pretty_text(t) + "\n"@
}

/// Whether a file written from settings holds just those settings, as far as their notation
/// keeps them.
pub open spec fn written_back(m: Seq<(Seq<char>, Tree)>, text: Seq<char>) -> bool {
    reads_back(Tree::Obj(m), MAX_DEPTH as nat) ==> settings_in(Some(text)) == Ok::<
        Seq<(Seq<char>, Tree)>,
        SettingsError,
    >(m)
}

fn written(v: &serde_json::Value) -> (s: String)
    ensures
        s@ == file_text(value_tree(*v)),
        value_tree(*v) matches Tree::Obj(m) ==> written_back(m, s@),
{
    let mut s = match pretty(v) {
        Ok(s) => s,
        Err(_) => String::new(),
    };
    let ghost notation = s@;
    s.append("\n");
    proof {
        if notation.len() > 0 && notation[0] == '{' {
            assert(s@[0] == '{');
            lemma_not_blank(s@);
        }
    }
    s
}

/// The `statusLine` block: run `command`, and render again every `refresh` seconds.
pub open spec fn status_block(command: Seq<char>, refresh: nat) -> Tree {
    Tree::Obj(
        seq![
            ("type"@, Tree::Str("command"@)),
            ("command"@, Tree::Str(command)),
            ("refreshInterval"@, Tree::Num(dec(refresh))),
        ],
    )
}

fn block(command: &str, refresh: u64) -> (v: serde_json::Value)
    ensures
        value_tree(v) == status_block(command@, refresh as nat),
{
    let mut v = empty_object();
    put_entry(&mut v, "type", string_value("command".to_owned()));
    put_entry(&mut v, "command", string_value(command.to_owned()));
    put_entry(&mut v, "refreshInterval", number_value(refresh));
    proof {
        reveal_strlit("type");
        reveal_strlit("command");
        reveal_strlit("refreshInterval");
        reveal_with_fuel(with_entry, 4);
        let none = Seq::<(Seq<char>, Tree)>::empty();
        let kind = ("type"@, Tree::Str("command"@));
        let run = ("command"@, Tree::Str(command@));
        let every = ("refreshInterval"@, Tree::Num(dec(refresh as nat)));
        assert(kind.0.len() == 4 && run.0.len() == 7 && every.0.len() == 15);
        assert(with_entry(none, kind.0, kind.1) =~= seq![kind]);
        assert(seq![kind].drop_first() =~= none);
        assert(with_entry(seq![kind], run.0, run.1) =~= seq![kind, run]);
        assert(seq![kind, run].drop_first() =~= seq![run]);
        assert(seq![run].drop_first() =~= none);
        assert(with_entry(seq![run], every.0, every.1) =~= seq![run, every]);
        assert(with_entry(seq![kind, run], every.0, every.1) =~= seq![kind, run, every]);
    }
    v
}

/// What an install writes, and the command it wires in.
pub struct Installed {
    pub text: String,
    pub command: String,
}

/// The settings file with the `statusLine` block merged in, from the file as it is (`None`
/// where there is none yet) and the path of the program to run.
pub fn install(text: Option<&str>, exe: &str, refresh: u64) -> (r: Result<Installed, SettingsError>)
    ensures
        match settings_in(str_opt(text)) {
            Err(e) => r matches Err(x) && x == e,
            Ok(m) => {
                let merged = with_entry(
                    m,
                    "statusLine"@,
                    status_block(quoted(exe@), refresh as nat),
                );
                r matches Ok(done) && done.command@ == quoted(exe@) && done.text@ == file_text(
                    Tree::Obj(merged),
                ) && written_back(merged, done.text@)
            },
        },
{
    let mut root = match load_object(text) {
        Ok(v) => v,
        Err(e) => {
            return Err(e);
        },
    };
    let command = quote_cmd(exe);
    put_entry(&mut root, "statusLine", block(command.as_str(), refresh));
    Ok(Installed { text: written(&root), command })
}

/// What an uninstall writes, and whether there was a block to remove.
pub struct Uninstalled {
    pub text: String,
    pub removed: bool,
}

/// The settings file without the `statusLine` block.
pub fn uninstall(text: &str) -> (r: Result<Uninstalled, SettingsError>)
    ensures
        match settings_in(Some(text@)) {
            Err(e) => r matches Err(x) && x == e,
            Ok(m) => r matches Ok(done) && done.removed == (lookup(m, "statusLine"@) is Some)
                && done.text@ == file_text(Tree::Obj(without_entry(m, "statusLine"@)))
                && written_back(without_entry(m, "statusLine"@), done.text@),
        },
{
    let mut root = match load_object(Some(text)) {
        Ok(v) => v,
        Err(e) => {
            return Err(e);
        },
    };
    let removed = take_entry(&mut root, "statusLine");
    Ok(Uninstalled { text: written(&root), removed })
}

// ---------------------------------------------------------------------------------------
// Laws of the merge
// ---------------------------------------------------------------------------------------

/// Merging an entry sets it, and changes neither the value nor the order of any other.
pub proof fn merging_preserves_the_other_keys(
    m: Seq<(Seq<char>, Tree)>,
    key: Seq<char>,
    value: Tree,
)
    ensures
        lookup(with_entry(m, key, value), key) == Some(value),
        forall|k: Seq<char>| k != key ==> #[trigger] lookup(with_entry(m, key, value), k) == lookup(
            m,
            k,
        ),
        without_entry(with_entry(m, key, value), key) == without_entry(m, key),
    decreases m.len(),
{
    let r = with_entry(m, key, value);
    if m.len() == 0 {
        assert(r.drop_first() =~= m);
    } else if m[0].0 == key {
        assert(r.drop_first() =~= m.drop_first());
    } else {
        merging_preserves_the_other_keys(m.drop_first(), key, value);
        assert(r.drop_first() =~= with_entry(m.drop_first(), key, value));
        assert forall|k: Seq<char>| k != key implies #[trigger] lookup(r, k) == lookup(m, k) by {
            assert(r[0] == m[0]);
            assert(lookup(with_entry(m.drop_first(), key, value), k) == lookup(m.drop_first(), k));
        }
    }
}

/// Removing an entry leaves none under its key and changes no other.
pub proof fn removing_preserves_the_other_keys(m: Seq<(Seq<char>, Tree)>, key: Seq<char>)
    ensures
        lookup(without_entry(m, key), key) is None,
        forall|k: Seq<char>| k != key ==> #[trigger] lookup(without_entry(m, key), k) == lookup(
            m,
            k,
        ),
    decreases m.len(),
{
    if m.len() > 0 {
        let rest = m.drop_first();
        removing_preserves_the_other_keys(rest, key);
        let r = without_entry(m, key);
        if m[0].0 == key {
            assert forall|k: Seq<char>| k != key implies #[trigger] lookup(r, k) == lookup(m, k) by {
                assert(lookup(without_entry(rest, key), k) == lookup(rest, k));
            }
        } else {
            assert(r.drop_first() =~= without_entry(rest, key));
            assert forall|k: Seq<char>| k != key implies #[trigger] lookup(r, k) == lookup(m, k) by {
                assert(r[0] == m[0]);
                assert(lookup(without_entry(rest, key), k) == lookup(rest, k));
            }
        }
    }
}

/// Settings that had no such entry are, after a merge and a removal, what they were.
pub proof fn uninstalling_undoes_installing(
    m: Seq<(Seq<char>, Tree)>,
    key: Seq<char>,
    value: Tree,
)
    requires
        lookup(m, key) is None,
    ensures
        without_entry(with_entry(m, key, value), key) == m,
{
    merging_preserves_the_other_keys(m, key, value);
    lemma_nothing_to_remove(m, key);
}

proof fn lemma_nothing_to_remove(m: Seq<(Seq<char>, Tree)>, key: Seq<char>)
    requires
        lookup(m, key) is None,
    ensures
        without_entry(m, key) == m,
    decreases m.len(),
{
    if m.len() > 0 {
        lemma_nothing_to_remove(m.drop_first(), key);
        assert(m =~= seq![m[0]] + m.drop_first());
    } else {
        assert(without_entry(m, key) =~= m);
    }
}

proof fn lemma_dec_is_digits(n: nat)
    ensures
        forall|i: int| 0 <= i < dec(n).len() ==> '0' <= #[trigger] dec(n)[i] <= '9',
    decreases n,
{
    let s = dec(n);
    if n >= 10 {
        lemma_dec_is_digits(n / 10);
        let t = dec(n / 10);
        assert forall|i: int| 0 <= i < s.len() implies '0' <= #[trigger] s[i] <= '9' by {
            if i < t.len() {
                assert(s[i] == t[i]);
            }
        }
    }
}

proof fn lemma_merged_reads_back(m: Seq<(Seq<char>, Tree)>, key: Seq<char>, value: Tree, depth: nat)
    requires
        forall|i: int| 0 <= i < m.len() ==> reads_back((#[trigger] m[i]).1, depth),
        reads_back(value, depth),
    ensures
        forall|i: int|
            0 <= i < with_entry(m, key, value).len() ==> reads_back(
                (#[trigger] with_entry(m, key, value)[i]).1,
                depth,
            ),
    decreases m.len(),
{
    let r = with_entry(m, key, value);
    if m.len() > 0 {
        let rest = m.drop_first();
        assert forall|i: int| 0 <= i < rest.len() implies reads_back(
            (#[trigger] rest[i]).1,
            depth,
        ) by {
            assert(rest[i] == m[i + 1]);
        }
        lemma_merged_reads_back(rest, key, value, depth);
        assert forall|i: int| 0 <= i < r.len() implies reads_back((#[trigger] r[i]).1, depth) by {
            if i > 0 {
                if m[0].0 == key {
                    assert(r[i] == rest[i - 1]);
                } else {
                    assert(r[i] == with_entry(rest, key, value)[i - 1]);
                }
            }
        }
    }
}

/// A file that an install writes reads as the settings that it was made from, with the block
/// in them, where each number of those settings is one that a rewrite keeps. `text` is the file.
pub proof fn an_installed_file_reads_as_written(
    m: Seq<(Seq<char>, Tree)>,
    command: Seq<char>,
    refresh: nat,
    text: Seq<char>,
)
    requires
        reads_back(Tree::Obj(m), MAX_DEPTH as nat),
        written_back(with_entry(m, "statusLine"@, status_block(command, refresh)), text),
    ensures
        settings_in(Some(text)) == Ok::<Seq<(Seq<char>, Tree)>, SettingsError>(
            with_entry(m, "statusLine"@, status_block(command, refresh)),
        ),
{
    let key = "statusLine"@;
    let block = status_block(command, refresh);
    let depth = MAX_DEPTH as nat;
    let below = (depth - 1) as nat;
    let whole = Tree::Obj(m);
    assert(reads_back(whole, depth) && whole->Obj_0 == m);
    assert forall|i: int| 0 <= i < m.len() implies reads_back((#[trigger] m[i]).1, below) by {}
    lemma_dec_is_digits(refresh);
    assert(reads_back(Tree::Num(dec(refresh)), (below - 1) as nat));
    let entries = block->Obj_0;
    assert forall|i: int| 0 <= i < entries.len() implies reads_back(
        (#[trigger] entries[i]).1,
        (below - 1) as nat,
    ) by {}
    assert(reads_back(block, below));
    lemma_merged_reads_back(m, key, block, below);
    assert(reads_back(Tree::Obj(with_entry(m, key, block)), depth));
}

/// Whatever the settings hold, a file that reads as they do with the installed block in them
/// holds the block, and uninstalling it brings back the settings as they were, if they had no
/// `statusLine` block. `text` is the file.
pub proof fn an_installed_file_uninstalls_to_what_it_was(
    m: Seq<(Seq<char>, Tree)>,
    command: Seq<char>,
    refresh: nat,
    text: Seq<char>,
)
    requires
        lookup(m, "statusLine"@) is None,
        settings_in(Some(text)) == Ok::<Seq<(Seq<char>, Tree)>, SettingsError>(
            with_entry(m, "statusLine"@, status_block(command, refresh)),
        ),
    ensures
        settings_in(Some(text)) matches Ok(now) && lookup(now, "statusLine"@) == Some(
            status_block(command, refresh),
        ) && without_entry(now, "statusLine"@) == m,
{
    let key = "statusLine"@;
    let block = status_block(command, refresh);
    merging_preserves_the_other_keys(m, key, block);
    uninstalling_undoes_installing(m, key, block);
}

/// Merging twice is merging the second value: an install over an install moves no key.
pub proof fn merging_again_replaces_in_place(
    m: Seq<(Seq<char>, Tree)>,
    key: Seq<char>,
    a: Tree,
    b: Tree,
)
    ensures
        with_entry(with_entry(m, key, a), key, b) == with_entry(m, key, b),
    decreases m.len(),
{
    let r = with_entry(m, key, a);
    if m.len() == 0 {
        assert(r.drop_first() =~= m);
        assert(seq![(key, b)] + m =~= seq![(key, b)]);
    } else if m[0].0 == key {
        assert(r.drop_first() =~= m.drop_first());
    } else {
        merging_again_replaces_in_place(m.drop_first(), key, a, b);
        assert(r.drop_first() =~= with_entry(m.drop_first(), key, a));
        assert(r[0] == m[0]);
    }
}

/// A settings file that is not a JSON object is refused: nothing is written in its place.
pub proof fn a_file_that_is_no_object_is_refused(text: Seq<char>)
    requires
        !blank(text),
        parsed_tree(text) matches Some(t) ==> !(t is Obj),
    ensures
        settings_in(Some(text)) is Err,
{
}

/// A path that holds whitespace anywhere is put in quotes, and any other is left as it is.
pub proof fn a_path_with_whitespace_is_quoted(path: Seq<char>, i: int)
    requires
        0 <= i < path.len(),
    ensures
        is_white(path[i]) ==> quoted(path) == "\""@ + path + "\""@,
        (forall|j: int| 0 <= j < path.len() ==> !is_white(#[trigger] path[j])) ==> quoted(path)
            == path,
{
}

/// The installed block runs the command, and again after as many seconds as asked for.
pub proof fn the_block_runs_the_command(command: Seq<char>, refresh: nat)
    requires
        refresh <= 9_000_000_000_000,
    ensures
        child(status_block(command, refresh), "type"@) == Some(Tree::Str("command"@)),
        child(status_block(command, refresh), "command"@) == Some(Tree::Str(command)),
        number_under(status_block(command, refresh), "refreshInterval"@) == Some(
            Num::Finite((refresh * 1_000_000) as i64),
        ),
{
    reveal_strlit("type");
    reveal_strlit("command");
    reveal_strlit("refreshInterval");
    a_whole_number_reads_as_written(refresh);
    let entries = status_block(command, refresh)->Obj_0;
    assert("type"@.len() != "command"@.len());
    assert("type"@.len() != "refreshInterval"@.len());
    assert("command"@.len() != "refreshInterval"@.len());
    reveal_with_fuel(lookup, 4);
    assert(entries.drop_first()[0] == entries[1]);
    assert(entries.drop_first().drop_first()[0] == entries[2]);
}

} // verus!
