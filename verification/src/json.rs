//! Loose accessors over the stdin payload: a missing key or an unexpected type degrades to
//! `None` rather than ever breaking a render.

use vstd::prelude::*;

use crate::num::{
    a_positive_number_reads_as_finite, amount_of, integer_of, is_positive, number_of, read_amount,
    read_i64, read_number, writes_positive, Num,
};
use crate::text::{blank, chars_of, trim_chars, trimmed};

verus! {

/// A JSON value, as a mathematical tree. A number is the text it is written as.
#[verifier::ext_equal]
pub enum Tree {
    Null,
    Bool(bool),
    Num(Seq<char>),
    Str(Seq<char>),
    Arr(Seq<Tree>),
    Obj(Seq<(Seq<char>, Tree)>),
}

/// A JSON value. An object keeps its entries in the order they were written.
pub enum Json {
    Null,
    Bool(bool),
    Num(String),
    Str(String),
    Arr(Vec<Json>),
    Obj(Vec<(String, Json)>),
}

impl Json {
    pub open spec fn view(&self) -> Tree
        decreases self,
    {
        match self {
            Json::Null => Tree::Null,
            Json::Bool(b) => Tree::Bool(*b),
            Json::Num(t) => Tree::Num(t@),
            Json::Str(t) => Tree::Str(t@),
            Json::Arr(v) => Tree::Arr(
                Seq::new(
                    v@.len(),
                    |i: int|
                        if 0 <= i < v@.len() {
                            v@[i].view()
                        } else {
                            Tree::Null
                        },
                ),
            ),
            Json::Obj(v) => Tree::Obj(
                Seq::new(
                    v@.len(),
                    |i: int|
                        if 0 <= i < v@.len() {
                            (v@[i].0@, v@[i].1.view())
                        } else {
                            (Seq::empty(), Tree::Null)
                        },
                ),
            ),
        }
    }
}

// ---------------------------------------------------------------------------------------
// The parser
// ---------------------------------------------------------------------------------------

/// A JSON value as `serde_json` holds it.
#[verifier::external_type_specification]
#[verifier::external_body]
pub struct ExValue(serde_json::Value);

/// Why `serde_json` rejected a text.
#[verifier::external_type_specification]
#[verifier::external_body]
pub struct ExError(serde_json::Error);

/// What a `serde_json::Value` holds.
pub uninterp spec fn value_tree(v: serde_json::Value) -> Tree;

/// What `serde_json::from_str` reads from a text: `None` where the text is not JSON.
pub uninterp spec fn parsed_tree(text: Seq<char>) -> Option<Tree>;

/// `serde_json::from_str` at the type `Value`. The outcome is decided by the text alone.
#[verifier::external_body]
pub(crate) fn parse_value(text: &str) -> (r: Result<serde_json::Value, serde_json::Error>)
    ensures
        match r {
            Ok(v) => parsed_tree(text@) == Some(value_tree(v)),
            Err(_) => parsed_tree(text@) is None,
        },
{
    serde_json::from_str::<serde_json::Value>(text)
}

/// One level of a `serde_json::Value`, its children still as they were.
pub(crate) enum Node<'a> {
    Null,
    Bool(bool),
    Num(String),
    Str(String),
    Arr(&'a Vec<serde_json::Value>),
    Obj(Vec<(&'a String, &'a serde_json::Value)>),
}

/// The variants of `serde_json::Value`, one by one. A number comes out as its `Display` text,
/// and the entries of an object in the order its `Map` iterates them.
#[verifier::external_body]
pub(crate) fn open_value<'a>(v: &'a serde_json::Value) -> (n: Node<'a>)
    ensures
        match n {
            Node::Null => value_tree(*v) == Tree::Null,
            Node::Bool(b) => value_tree(*v) == Tree::Bool(b),
            Node::Num(t) => value_tree(*v) == Tree::Num(t@),
            Node::Str(t) => value_tree(*v) == Tree::Str(t@),
            Node::Arr(a) => value_tree(*v) == Tree::Arr(
                Seq::new(a@.len(), |i: int| value_tree(a@[i])),
            ),
            Node::Obj(m) => value_tree(*v) == Tree::Obj(
                Seq::new(m@.len(), |i: int| (m@[i].0@, value_tree(*m@[i].1))),
            ),
        },
{
    match v {
        serde_json::Value::Null => Node::Null,
        serde_json::Value::Bool(b) => Node::Bool(*b),
        serde_json::Value::Number(n) => Node::Num(n.to_string()),
        serde_json::Value::String(s) => Node::Str(s.clone()),
        serde_json::Value::Array(a) => Node::Arr(a),
        serde_json::Value::Object(m) => Node::Obj(m.iter().collect()),
    }
}

fn to_json(v: &serde_json::Value) -> (j: Json)
    ensures
        j@ == value_tree(*v),
    decreases value_tree(*v),
{
    match open_value(v) {
        Node::Null => Json::Null,
        Node::Bool(b) => Json::Bool(b),
        Node::Num(t) => Json::Num(t),
        Node::Str(t) => Json::Str(t),
        Node::Arr(a) => {
            let mut out: Vec<Json> = Vec::new();
            let mut i: usize = 0;
            let ghost children = Seq::new(a@.len(), |i: int| value_tree(a@[i]));
            while i < a.len()
                invariant
                    i <= a@.len(),
                    out@.len() == i,
                    children == Seq::new(a@.len(), |i: int| value_tree(a@[i])),
                    value_tree(*v) == Tree::Arr(children),
                    forall|k: int| 0 <= k < i ==> (#[trigger] out@[k])@ == value_tree(a@[k]),
                decreases a@.len() - i,
            {
                assert(children[i as int] == value_tree(a@[i as int]));
                assert(decreases_to!(value_tree(*v) => value_tree(*v)->Arr_0[i as int]));
                out.push(to_json(&a[i]));
                i = i + 1;
            }
            let j = Json::Arr(out);
            assert(j@->Arr_0 =~= children);
            j
        },
        Node::Obj(m) => {
            let mut out: Vec<(String, Json)> = Vec::new();
            let mut i: usize = 0;
            let ghost children = Seq::new(m@.len(), |i: int| (m@[i].0@, value_tree(*m@[i].1)));
            while i < m.len()
                invariant
                    i <= m@.len(),
                    out@.len() == i,
                    children == Seq::new(m@.len(), |i: int| (m@[i].0@, value_tree(*m@[i].1))),
                    value_tree(*v) == Tree::Obj(children),
                    forall|k: int|
                        0 <= k < i ==> (#[trigger] out@[k]).0@ == m@[k].0@ && out@[k].1@
                            == value_tree(*m@[k].1),
                decreases m@.len() - i,
            {
                assert(children[i as int].1 == value_tree(*m@[i as int].1));
                assert(decreases_to!(value_tree(*v) => value_tree(*v)->Obj_0[i as int].1));
                let (key, value) = m[i];
                out.push((key.clone(), to_json(value)));
                i = i + 1;
            }
            let j = Json::Obj(out);
            assert(j@->Obj_0 =~= children);
            j
        },
    }
}

/// What a payload text stands for: nothing at all when it is blank or not JSON.
pub open spec fn payload_tree(raw: Seq<char>) -> Tree {
    if blank(raw) {
        Tree::Null
    } else {
        match parsed_tree(raw) {
            Some(t) => t,
            None => Tree::Null,
        }
    }
}

/// Reads the payload the status line is handed.
pub fn read_payload(raw: &str) -> (j: Json)
    ensures
        j@ == payload_tree(raw@),
{
    if trim_chars(raw).len() == 0 {
        return Json::Null;
    }
    match parse_value(raw) {
        Ok(v) => to_json(&v),
        Err(_) => Json::Null,
    }
}

// ---------------------------------------------------------------------------------------
// Accessors
// ---------------------------------------------------------------------------------------

/// The value of the first entry under `key`.
pub open spec fn lookup(entries: Seq<(Seq<char>, Tree)>, key: Seq<char>) -> Option<Tree>
    decreases entries.len(),
{
    if entries.len() == 0 {
        None
    } else if entries[0].0 == key {
        Some(entries[0].1)
    } else {
        lookup(entries.drop_first(), key)
    }
}

/// The value under `key`, if `t` is an object that has one.
pub open spec fn child(t: Tree, key: Seq<char>) -> Option<Tree> {
    match t {
        Tree::Obj(entries) => lookup(entries, key),
        _ => None,
    }
}

/// The value at the end of a key path, unless a step is missing or the value is null.
pub open spec fn nested_tree(t: Tree, path: Seq<Seq<char>>) -> Option<Tree>
    decreases path.len(),
{
    if path.len() == 0 {
        if t == Tree::Null {
            None
        } else {
            Some(t)
        }
    } else {
        match child(t, path[0]) {
            None => None,
            Some(x) => nested_tree(x, path.drop_first()),
        }
    }
}

/// The keys of a path, as character sequences.
pub open spec fn keys_of(path: Seq<&str>) -> Seq<Seq<char>> {
    Seq::new(path.len(), |i: int| path[i]@)
}

/// The value under `key`, if `v` is an object that has one.
pub fn get<'a>(v: &'a Json, key: &str) -> (r: Option<&'a Json>)
    ensures
        match child(v@, key@) {
            Some(t) => r matches Some(x) && x@ == t,
            None => r is None,
        },
{
    match v {
        Json::Obj(entries) => {
            let ghost all = v@->Obj_0;
            let wanted: String = key.to_owned();
            let mut i: usize = 0;
            assert(all.skip(0) =~= all);
            while i < entries.len()
                invariant
                    wanted@ == key@,
                    i <= entries@.len(),
                    all.len() == entries@.len(),
                    v@ == Tree::Obj(all),
                    forall|k: int|
                        0 <= k < entries@.len() ==> #[trigger] all[k] == (
                            entries@[k].0@,
                            entries@[k].1@,
                        ),
                    lookup(all.skip(i as int), key@) == lookup(all, key@),
                decreases entries@.len() - i,
            {
                assert(all.skip(i as int)[0] == all[i as int]);
                if entries[i].0 == wanted {
                    return Some(&entries[i].1);
                }
                assert(all.skip(i as int).drop_first() =~= all.skip(i + 1));
                i = i + 1;
            }
            None
        },
        _ => None,
    }
}

/// Walks a key path, yielding the value only if every step exists and the leaf is non-null.
pub fn nested<'a>(v: &'a Json, path: &[&str]) -> (r: Option<&'a Json>)
    ensures
        match nested_tree(v@, keys_of(path@)) {
            Some(t) => r matches Some(x) && x@ == t,
            None => r is None,
        },
{
    let mut cur: &'a Json = v;
    let mut i: usize = 0;
    let ghost keys = keys_of(path@);
    assert(keys.skip(0) =~= keys);
    while i < path.len()
        invariant
            i <= path@.len(),
            keys == keys_of(path@),
            nested_tree(cur@, keys.skip(i as int)) == nested_tree(v@, keys),
        decreases path@.len() - i,
    {
        assert(keys.skip(i as int)[0] == path@[i as int]@);
        assert(keys.skip(i as int).drop_first() =~= keys.skip(i + 1));
        match get(cur, path[i]) {
            None => {
                return None;
            },
            Some(x) => {
                cur = x;
            },
        }
        i = i + 1;
    }
    match cur {
        Json::Null => None,
        _ => Some(cur),
    }
}

/// The text that a number is read from: a JSON number's own, or a string's without the whitespace
/// around it.
pub open spec fn number_text(t: Tree) -> Option<Seq<char>> {
    match t {
        Tree::Num(s) => Some(s),
        Tree::Str(s) => Some(trimmed(s)),
        _ => None,
    }
}

/// A JSON number, or a numeric string, cut to whole millionths.
pub open spec fn loose_number(t: Tree) -> Option<Num> {
    match number_text(t) {
        Some(s) => number_of(s),
        None => None,
    }
}

/// A JSON number, or a numeric/epoch string — `None` for anything else.
pub fn as_f64_loose(v: &Json) -> (r: Option<Num>)
    ensures
        r == loose_number(v@),
{
    match v {
        Json::Num(s) => read_number(chars_of(s.as_str()).as_slice()),
        Json::Str(s) => read_number(trim_chars(s.as_str()).as_slice()),
        _ => None,
    }
}

/// A JSON number, or a numeric string, to the nearest millionth.
pub open spec fn loose_amount(t: Tree) -> Option<Num> {
    match number_text(t) {
        Some(s) => amount_of(s),
        None => None,
    }
}

fn as_amount(v: &Json) -> (r: Option<Num>)
    ensures
        r == loose_amount(v@),
{
    match v {
        Json::Num(s) => read_amount(chars_of(s.as_str()).as_slice()),
        Json::Str(s) => read_amount(trim_chars(s.as_str()).as_slice()),
        _ => None,
    }
}

/// Whether a value is a finite number above zero, however small.
fn is_positive_number(v: &Json) -> (r: bool)
    ensures
        r == (number_text(v@) matches Some(s) && writes_positive(s)),
{
    match v {
        Json::Num(s) => is_positive(chars_of(s.as_str()).as_slice()),
        Json::Str(s) => is_positive(trim_chars(s.as_str()).as_slice()),
        _ => false,
    }
}

pub open spec fn text_at(t: Tree, path: Seq<Seq<char>>) -> Option<Seq<char>> {
    match nested_tree(t, path) {
        Some(Tree::Str(s)) => Some(s),
        _ => None,
    }
}

/// String at a key path.
pub fn str_at<'a>(v: &'a Json, path: &[&str]) -> (r: Option<&'a str>)
    ensures
        match text_at(v@, keys_of(path@)) {
            Some(t) => r matches Some(x) && x@ == t,
            None => r is None,
        },
{
    match nested(v, path) {
        Some(Json::Str(s)) => Some(s.as_str()),
        _ => None,
    }
}

pub open spec fn number_at(t: Tree, path: Seq<Seq<char>>) -> Option<Num> {
    match nested_tree(t, path) {
        Some(x) => loose_number(x),
        None => None,
    }
}

/// Number at a key path (loose).
pub fn f64_at(v: &Json, path: &[&str]) -> (r: Option<Num>)
    ensures
        r == number_at(v@, keys_of(path@)),
{
    match nested(v, path) {
        Some(x) => as_f64_loose(x),
        None => None,
    }
}

pub open spec fn integer_at(t: Tree, path: Seq<Seq<char>>) -> Option<i64> {
    match nested_tree(t, path) {
        Some(Tree::Num(s)) => match integer_of(s) {
            Some(v) if i64::MIN <= v <= i64::MAX => Some(v as i64),
            _ => None,
        },
        _ => None,
    }
}

/// Whole number at a key path: a JSON number written without point or exponent that fits
/// 64 bits.
pub fn i64_at(v: &Json, path: &[&str]) -> (r: Option<i64>)
    ensures
        r == integer_at(v@, keys_of(path@)),
{
    match nested(v, path) {
        Some(Json::Num(s)) => read_i64(chars_of(s.as_str()).as_slice()),
        _ => None,
    }
}

/// Which billing signal the stdin payload carries.
///
/// The assistant sends `rate_limits` for Pro/Max subscription accounts and omits the key
/// entirely for API-key billing — where `cost.total_cost_usd` is instead the session's
/// actual pay-as-you-go cost. There is no explicit auth-type field, so classification
/// leans on presence, conservatively:
///
/// - a non-empty `rate_limits` object → `Subscription`;
/// - `rate_limits` present but empty (`{}`) or wrongly typed → `Unknown` — a
///   subscription-side transient, so a sub session's shadow cost can't be mistaken for
///   real spend. An explicit `rate_limits: null` reads as absent (a serialised missing
///   object), not as a subscription signal;
/// - key absent (or null) and real cost accrued (finite, > 0) → `ApiKey`. Requiring
///   positive cost keeps the pre-first-response window (both billing types) on the
///   `Unknown`/"limits n/a" path, mirroring the subscription behaviour.
#[derive(Clone, Copy, PartialEq, Eq, Debug, Structural)]
pub enum Mode {
    Subscription,
    ApiKey,
    Unknown,
}

/// The session's cost, as the payload states it, to the nearest millionth of a dollar.
pub open spec fn stated_cost(t: Tree) -> Option<Num> {
    match nested_tree(t, seq!["cost"@, "total_cost_usd"@]) {
        Some(x) => loose_amount(x),
        None => None,
    }
}

/// Whether real cost has accrued: a `cost` object with a finite amount above zero, however small.
pub open spec fn real_cost(t: Tree) -> bool {
    &&& nested_tree(t, seq!["cost"@]) matches Some(Tree::Obj(_))
    &&& nested_tree(t, seq!["cost"@, "total_cost_usd"@]) matches Some(x)
    &&& number_text(x) matches Some(s)
    &&& writes_positive(s)
}

pub open spec fn mode_of(t: Tree) -> Mode {
    match child(t, "rate_limits"@) {
        Some(Tree::Obj(m)) if m.len() > 0 => Mode::Subscription,
        Some(Tree::Null) | None => if real_cost(t) {
            Mode::ApiKey
        } else {
            Mode::Unknown
        },
        Some(_) => Mode::Unknown,
    }
}

/// The session's cost, as the payload states it.
pub fn cost_of(input: &Json) -> (r: Option<Num>)
    ensures
        r == stated_cost(input@),
{
    let path: [&str; 2] = ["cost", "total_cost_usd"];
    assert(keys_of(path@) =~= seq!["cost"@, "total_cost_usd"@]);
    match nested(input, &path) {
        Some(x) => as_amount(x),
        None => None,
    }
}

pub fn payload_mode(input: &Json) -> (m: Mode)
    ensures
        m == mode_of(input@),
{
    match get(input, "rate_limits") {
        Some(Json::Obj(m)) => {
            if m.len() > 0 {
                return Mode::Subscription;
            }
            return Mode::Unknown;
        },
        Some(Json::Null) | None => {},
        Some(_) => {
            return Mode::Unknown;
        },
    }
    let path: [&str; 1] = ["cost"];
    assert(keys_of(path@) =~= seq!["cost"@]);
    let is_object = match nested(input, &path) {
        Some(Json::Obj(_)) => true,
        _ => false,
    };
    let amount: [&str; 2] = ["cost", "total_cost_usd"];
    assert(keys_of(amount@) =~= seq!["cost"@, "total_cost_usd"@]);
    let positive = match nested(input, &amount) {
        Some(x) => is_positive_number(x),
        None => false,
    };
    if is_object && positive {
        Mode::ApiKey
    } else {
        Mode::Unknown
    }
}

/// The first of the three keys that holds a number decides.
pub open spec fn first_number(w: Tree, a: Seq<char>, b: Seq<char>, c: Seq<char>) -> Option<Num> {
    if number_under(w, a) is Some {
        number_under(w, a)
    } else if number_under(w, b) is Some {
        number_under(w, b)
    } else {
        number_under(w, c)
    }
}

pub open spec fn number_under(w: Tree, key: Seq<char>) -> Option<Num> {
    match child(w, key) {
        Some(x) => loose_number(x),
        None => None,
    }
}

fn number_in(window: &Json, key: &str) -> (r: Option<Num>)
    ensures
        r == number_under(window@, key@),
{
    match get(window, key) {
        Some(x) => as_f64_loose(x),
        None => None,
    }
}

pub open spec fn window_pct(w: Tree) -> Option<Num> {
    first_number(w, "used_percentage"@, "utilization"@, "percent"@)
}

/// Usage percentage from a rate-limit (or context) window object.
pub fn get_pct(window: &Json) -> (r: Option<Num>)
    ensures
        r == window_pct(window@),
{
    match number_in(window, "used_percentage") {
        Some(f) => Some(f),
        None => match number_in(window, "utilization") {
            Some(f) => Some(f),
            None => number_in(window, "percent"),
        },
    }
}

pub open spec fn window_reset(w: Tree) -> Option<Num> {
    first_number(w, "resets_at"@, "reset_at"@, "resets"@)
}

/// Reset epoch (Unix seconds) from a rate-limit window object.
pub fn get_reset(window: &Json) -> (r: Option<Num>)
    ensures
        r == window_reset(window@),
{
    match number_in(window, "resets_at") {
        Some(f) => Some(f),
        None => match number_in(window, "reset_at") {
            Some(f) => Some(f),
            None => number_in(window, "resets"),
        },
    }
}

/// A payload that carries any `rate_limits` value but null is never taken for API-key
/// billing, whatever cost it states.
pub proof fn rate_limits_never_read_as_api_key(t: Tree, limits: Tree)
    requires
        child(t, "rate_limits"@) == Some(limits),
        limits != Tree::Null,
    ensures
        mode_of(t) != Mode::ApiKey,
{
}

/// Accrued cost is a finite amount, and not a negative one.
pub proof fn real_cost_is_finite(t: Tree)
    requires
        real_cost(t),
    ensures
        stated_cost(t) matches Some(Num::Finite(v)) && v >= 0,
{
    let x = nested_tree(t, seq!["cost"@, "total_cost_usd"@])->0;
    a_positive_number_reads_as_finite(number_text(x)->0);
}

/// A payload without `rate_limits` is taken for API-key billing exactly if real cost accrued.
pub proof fn real_cost_without_limits_is_api_key(t: Tree)
    requires
        child(t, "rate_limits"@) is None || child(t, "rate_limits"@) == Some(Tree::Null),
    ensures
        mode_of(t) == Mode::ApiKey <==> real_cost(t),
        mode_of(t) == Mode::Unknown <==> !real_cost(t),
{
}

/// Without accrued cost a payload is never taken for API-key billing.
pub proof fn api_key_needs_real_cost(t: Tree)
    ensures
        mode_of(t) == Mode::ApiKey ==> real_cost(t),
{
}

/// A window's percentage and reset are read under any of the names that a payload may use for them,
/// the first that holds a number.
pub proof fn a_window_is_read_under_any_of_its_names(w: Tree, n: Num)
    ensures
        number_under(w, "used_percentage"@) == Some(n) ==> window_pct(w) == Some(n),
        number_under(w, "used_percentage"@) is None && number_under(w, "utilization"@) == Some(n)
            ==> window_pct(w) == Some(n),
        number_under(w, "used_percentage"@) is None && number_under(w, "utilization"@) is None
            && number_under(w, "percent"@) == Some(n) ==> window_pct(w) == Some(n),
        number_under(w, "resets_at"@) == Some(n) ==> window_reset(w) == Some(n),
        number_under(w, "resets_at"@) is None && number_under(w, "reset_at"@) == Some(n)
            ==> window_reset(w) == Some(n),
        number_under(w, "resets_at"@) is None && number_under(w, "reset_at"@) is None
            && number_under(w, "resets"@) == Some(n) ==> window_reset(w) == Some(n),
        number_under(w, "used_percentage"@) is None && number_under(w, "utilization"@) is None
            && number_under(w, "percent"@) is None ==> window_pct(w) is None,
        number_under(w, "resets_at"@) is None && number_under(w, "reset_at"@) is None
            && number_under(w, "resets"@) is None ==> window_reset(w) is None,
{
}

/// A number reads the same with and without quotes, and whatever whitespace the quotes hold around
/// it. What is neither a number nor a text is no number.
pub proof fn a_quoted_number_reads_as_the_number(s: Seq<char>)
    ensures
        loose_number(Tree::Str(s)) == loose_number(Tree::Num(trimmed(s))),
        loose_amount(Tree::Str(s)) == loose_amount(Tree::Num(trimmed(s))),
        loose_number(Tree::Null) is None,
        forall|b: bool| (#[trigger] loose_number(Tree::Bool(b))) is None,
        forall|v: Seq<Tree>| (#[trigger] loose_number(Tree::Arr(v))) is None,
        forall|v: Seq<(Seq<char>, Tree)>| (#[trigger] loose_number(Tree::Obj(v))) is None,
{
}

/// A payload is a subscription's exactly if it carries limits with anything in them. Limits that are
/// empty, or that are no object, tell nothing, whatever the payload costs.
pub proof fn limits_with_anything_in_them_are_a_subscription(t: Tree)
    ensures
        mode_of(t) == Mode::Subscription <==> (child(t, "rate_limits"@) matches Some(Tree::Obj(m))
            && m.len() > 0),
        child(t, "rate_limits"@) is Some && child(t, "rate_limits"@) != Some(Tree::Null) && mode_of(
            t,
        ) != Mode::Subscription ==> mode_of(t) == Mode::Unknown,
{
}

} // verus!
