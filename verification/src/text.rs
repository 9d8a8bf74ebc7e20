//! Characters, whitespace and decimal digits: the small vocabulary every piece of rendered
//! text is built from.

use vstd::prelude::*;
use vstd::string::*;

verus! {

/// `String::push` of the standard library: the character goes on the end of the text.
pub assume_specification[ String::push ](s: &mut String, c: char)
    ensures
        final(s)@ == old(s)@.push(c),
;

/// The characters of `s`, in order.
pub fn chars_of(s: &str) -> (v: Vec<char>)
    ensures
        v@ == s@,
{
    let mut v: Vec<char> = Vec::new();
    for c in it: s.chars()
        invariant
            v@ == it.seq().take(it.index()),
            it.seq() == s@,
    {
        v.push(c);
    }
    v
}

/// The text made of the given characters.
pub fn text_of(v: &[char]) -> (s: String)
    ensures
        s@ == v@,
{
    let mut s = String::new();
    let mut i: usize = 0;
    while i < v.len()
        invariant
            i <= v@.len(),
            s@ == v@.take(i as int),
        decreases v@.len() - i,
    {
        s.push(v[i]);
        i = i + 1;
        assert(v@.take(i as int) =~= v@.take(i - 1).push(v@[i - 1]));
    }
    assert(v@.take(i as int) =~= v@);
    s
}

/// A character with the Unicode `White_Space` property.
pub open spec fn is_white(c: char) -> bool {
    ||| '\u{9}' <= c && c <= '\u{d}'
    ||| c == ' '
    ||| c == '\u{85}'
    ||| c == '\u{a0}'
    ||| c == '\u{1680}'
    ||| '\u{2000}' <= c && c <= '\u{200a}'
    ||| c == '\u{2028}'
    ||| c == '\u{2029}'
    ||| c == '\u{202f}'
    ||| c == '\u{205f}'
    ||| c == '\u{3000}'
}

pub fn is_whitespace(c: char) -> (r: bool)
    ensures
        r == is_white(c),
{
    ('\u{9}' <= c && c <= '\u{d}') || c == ' ' || c == '\u{85}' || c == '\u{a0}' || c
        == '\u{1680}' || ('\u{2000}' <= c && c <= '\u{200a}') || c == '\u{2028}' || c
        == '\u{2029}' || c == '\u{202f}' || c == '\u{205f}' || c == '\u{3000}'
}

pub open spec fn trim_start(s: Seq<char>) -> Seq<char>
    decreases s.len(),
{
    if s.len() > 0 && is_white(s[0]) {
        trim_start(s.drop_first())
    } else {
        s
    }
}

pub open spec fn trim_end(s: Seq<char>) -> Seq<char>
    decreases s.len(),
{
    if s.len() > 0 && is_white(s.last()) {
        trim_end(s.drop_last())
    } else {
        s
    }
}

/// `s` without the whitespace at either end.
pub open spec fn trimmed(s: Seq<char>) -> Seq<char> {
    trim_end(trim_start(s))
}

/// The characters of `s` without the whitespace at either end.
pub fn trim_chars(s: &str) -> (v: Vec<char>)
    ensures
        v@ == trimmed(s@),
{
    let all = chars_of(s);
    let mut from: usize = 0;
    assert(all@.skip(0) =~= all@);
    while from < all.len() && is_whitespace(all[from])
        invariant
            from <= all@.len(),
            trim_start(all@.skip(from as int)) == trim_start(all@),
        decreases all@.len() - from,
    {
        assert(all@.skip(from as int).drop_first() =~= all@.skip(from + 1));
        from = from + 1;
    }
    let ghost body = all@.skip(from as int);
    assert(trim_start(body) == body);
    let mut to: usize = all.len();
    assert(all@.subrange(from as int, to as int) =~= body);
    while from < to && is_whitespace(all[to - 1])
        invariant
            from <= to <= all@.len(),
            trim_end(all@.subrange(from as int, to as int)) == trim_end(body),
        decreases to - from,
    {
        assert(all@.subrange(from as int, to as int).drop_last() =~= all@.subrange(
            from as int,
            to - 1,
        ));
        to = to - 1;
    }
    let ghost rest = all@.subrange(from as int, to as int);
    assert(trim_end(rest) == rest);
    let mut v: Vec<char> = Vec::new();
    let mut i: usize = from;
    while i < to
        invariant
            from <= i <= to <= all@.len(),
            v@ == all@.subrange(from as int, i as int),
        decreases to - i,
    {
        v.push(all[i]);
        i = i + 1;
        assert(all@.subrange(from as int, i as int) =~= all@.subrange(from as int, i - 1).push(
            all@[i - 1],
        ));
    }
    v
}

/// Whether `s` is nothing but whitespace.
pub open spec fn blank(s: Seq<char>) -> bool {
    trimmed(s).len() == 0
}

/// A text that opens with a character of substance is not blank.
pub proof fn lemma_not_blank(s: Seq<char>)
    requires
        s.len() > 0,
        !is_white(s[0]),
    ensures
        !blank(s),
    decreases s.len(),
{
    if s.len() > 1 && is_white(s.last()) {
        lemma_not_blank(s.drop_last());
    }
}

/// The character of a decimal digit below ten.
pub open spec fn digit_char(d: nat) -> char {
    (48 + d) as char
}

/// Decimal notation of a natural number.
pub open spec fn dec(n: nat) -> Seq<char>
    decreases n,
{
    if n < 10 {
        seq![digit_char(n)]
    } else {
        dec(n / 10).push(digit_char(n % 10))
    }
}

/// Decimal notation of an integer, with a leading `-` below zero.
pub open spec fn dec_int(v: int) -> Seq<char> {
    if v < 0 {
        seq!['-'] + dec((-v) as nat)
    } else {
        dec(v as nat)
    }
}

/// An integer padded with a zero to two characters.
pub open spec fn dec_pad2(v: int) -> Seq<char> {
    if 0 <= v < 10 {
        seq!['0'] + dec_int(v)
    } else {
        dec_int(v)
    }
}

/// The last `width` decimal digits of `n`, zeros included.
pub open spec fn dec_places(n: nat, width: nat) -> Seq<char>
    decreases width,
{
    if width == 0 {
        Seq::empty()
    } else {
        dec_places(n / 10, (width - 1) as nat).push(digit_char(n % 10))
    }
}

/// `c`, `n` times over.
pub open spec fn repeated(c: char, n: nat) -> Seq<char> {
    Seq::new(n, |i: int| c)
}

fn push_digit(s: &mut String, d: u8)
    requires
        d < 10,
    ensures
        final(s)@ == old(s)@.push(digit_char(d as nat)),
{
    s.push((48u8 + d) as char);
}

/// Appends the decimal notation of `n`.
pub fn push_dec(s: &mut String, n: u128)
    ensures
        final(s)@ == old(s)@ + dec(n as nat),
    decreases n,
{
    if n < 10 {
        push_digit(s, n as u8);
        assert(s@ =~= old(s)@ + dec(n as nat));
    } else {
        push_dec(s, n / 10);
        push_digit(s, (n % 10) as u8);
        assert(s@ =~= old(s)@ + dec(n as nat));
    }
}

/// Appends the decimal notation of `v`.
pub fn push_int(s: &mut String, v: i128)
    requires
        v > i128::MIN,
    ensures
        final(s)@ == old(s)@ + dec_int(v as int),
{
    if v < 0 {
        s.push('-');
        push_dec(s, (-v) as u128);
        assert(s@ =~= old(s)@ + dec_int(v as int));
    } else {
        push_dec(s, v as u128);
    }
}

/// Appends `v`, padded with a zero to two characters.
pub fn push_pad2(s: &mut String, v: i128)
    requires
        v > i128::MIN,
    ensures
        final(s)@ == old(s)@ + dec_pad2(v as int),
{
    if 0 <= v && v < 10 {
        s.push('0');
    }
    push_int(s, v);
    assert(s@ =~= old(s)@ + dec_pad2(v as int));
}

/// Appends the last `width` decimal digits of `n`.
pub fn push_places(s: &mut String, n: u128, width: u8)
    ensures
        final(s)@ == old(s)@ + dec_places(n as nat, width as nat),
    decreases width,
{
    if width > 0 {
        push_places(s, n / 10, width - 1);
        push_digit(s, (n % 10) as u8);
    }
    assert(s@ =~= old(s)@ + dec_places(n as nat, width as nat));
}

/// Appends `c`, `n` times over.
pub fn push_repeated(s: &mut String, c: char, n: usize)
    ensures
        final(s)@ == old(s)@ + repeated(c, n as nat),
{
    let mut i: usize = 0;
    let ghost before = s@;
    assert(s@ =~= before + repeated(c, 0));
    while i < n
        invariant
            i <= n,
            s@ == before + repeated(c, i as nat),
        decreases n - i,
    {
        s.push(c);
        i = i + 1;
        assert(s@ =~= before + repeated(c, i as nat));
    }
}

/// Dictionary order by code point: whether `a` comes before `b`.
pub open spec fn comes_before(a: Seq<char>, b: Seq<char>) -> bool
    decreases b.len(),
{
    if b.len() == 0 {
        false
    } else if a.len() == 0 {
        true
    } else if a[0] != b[0] {
        a[0] < b[0]
    } else {
        comes_before(a.drop_first(), b.drop_first())
    }
}

/// Dictionary order is total: of two texts one comes first, unless they are the same.
pub proof fn lemma_dictionary_order_is_total(a: Seq<char>, b: Seq<char>)
    ensures
        comes_before(a, b) ==> !comes_before(b, a),
        comes_before(a, b) || comes_before(b, a) || a == b,
    decreases a.len(),
{
    if a.len() > 0 && b.len() > 0 && a[0] == b[0] {
        lemma_dictionary_order_is_total(a.drop_first(), b.drop_first());
        if a.drop_first() == b.drop_first() {
            assert(a =~= seq![a[0]] + a.drop_first());
            assert(b =~= seq![b[0]] + b.drop_first());
        }
    } else if a.len() == 0 && b.len() == 0 {
        assert(a =~= b);
    }
}

pub proof fn lemma_dictionary_order_is_transitive(a: Seq<char>, b: Seq<char>, c: Seq<char>)
    requires
        comes_before(a, b),
        comes_before(b, c),
    ensures
        comes_before(a, c),
    decreases a.len(),
{
    if a.len() > 0 && a[0] == b[0] && b[0] == c[0] {
        lemma_dictionary_order_is_transitive(a.drop_first(), b.drop_first(), c.drop_first());
    }
}

/// Whether `a` comes before `b` in dictionary order.
pub fn is_before(a: &str, b: &str) -> (r: bool)
    ensures
        r == comes_before(a@, b@),
{
    let x = chars_of(a);
    let y = chars_of(b);
    let mut i: usize = 0;
    assert(x@.skip(0) =~= x@ && y@.skip(0) =~= y@);
    while i < x.len() && i < y.len()
        invariant
            i <= x@.len(),
            i <= y@.len(),
            x@ == a@,
            y@ == b@,
            comes_before(x@.skip(i as int), y@.skip(i as int)) == comes_before(x@, y@),
        decreases x@.len() - i,
    {
        if x[i] != y[i] {
            return x[i] < y[i];
        }
        assert(x@.skip(i as int).drop_first() =~= x@.skip(i + 1));
        assert(y@.skip(i as int).drop_first() =~= y@.skip(i + 1));
        i = i + 1;
    }
    i < y.len()
}

/// The texts of strings, as character sequences.
pub open spec fn texts(v: Seq<String>) -> Seq<Seq<char>> {
    Seq::new(v.len(), |i: int| v[i]@)
}

/// Texts one after the other, with `sep` between them.
pub open spec fn joined(parts: Seq<Seq<char>>, sep: Seq<char>) -> Seq<char>
    decreases parts.len(),
{
    if parts.len() == 0 {
        Seq::empty()
    } else if parts.len() == 1 {
        parts[0]
    } else {
        joined(parts.drop_last(), sep) + sep + parts.last()
    }
}

pub fn join(parts: &Vec<String>, sep: &str) -> (s: String)
    ensures
        s@ == joined(texts(parts@), sep@),
{
    let mut s = String::new();
    let mut i: usize = 0;
    let ghost all = texts(parts@);
    assert(all.take(0) =~= Seq::<Seq<char>>::empty());
    while i < parts.len()
        invariant
            i <= parts@.len(),
            all == texts(parts@),
            s@ == joined(all.take(i as int), sep@),
        decreases parts@.len() - i,
    {
        assert(all.take(i + 1).drop_last() =~= all.take(i as int));
        assert(all.take(i + 1).last() == parts@[i as int]@);
        let ghost before = s@;
        if i > 0 {
            s.append(sep);
        }
        s.append(parts[i].as_str());
        assert(s@ =~= joined(all.take(i + 1), sep@));
        i = i + 1;
    }
    assert(all.take(i as int) =~= all);
    s
}

/// Whether a text is nothing but whitespace, character by character.
pub open spec fn all_white(s: Seq<char>) -> bool {
    forall|i: int| 0 <= i < s.len() ==> is_white(#[trigger] s[i])
}

proof fn lemma_trim_start(a: Seq<char>, s: Seq<char>)
    requires
        all_white(a),
        s.len() > 0 ==> !is_white(s[0]),
    ensures
        trim_start(a + s) == s,
    decreases a.len(),
{
    if a.len() > 0 {
        let rest = a.drop_first();
        assert((a + s)[0] == a[0]);
        assert((a + s).drop_first() =~= rest + s);
        assert forall|i: int| 0 <= i < rest.len() implies is_white(#[trigger] rest[i]) by {
            assert(rest[i] == a[i + 1]);
        }
        lemma_trim_start(rest, s);
    } else {
        assert(a + s =~= s);
    }
}

proof fn lemma_trim_end(s: Seq<char>, b: Seq<char>)
    requires
        all_white(b),
        s.len() > 0 ==> !is_white(s.last()),
    ensures
        trim_end(s + b) == s,
    decreases b.len(),
{
    if b.len() > 0 {
        let rest = b.drop_last();
        assert((s + b).last() == b[b.len() - 1]);
        assert((s + b).drop_last() =~= s + rest);
        assert forall|i: int| 0 <= i < rest.len() implies is_white(#[trigger] rest[i]) by {
            assert(rest[i] == b[i]);
        }
        lemma_trim_end(s, rest);
    } else {
        assert(s + b =~= s);
    }
}

/// Trimming takes the whitespace off both ends, however much there is, and nothing else. Spaces, tabs
/// and line ends are whitespace; letters and digits are not.
pub proof fn trimming_takes_whitespace_off_both_ends(a: Seq<char>, s: Seq<char>, b: Seq<char>)
    requires
        all_white(a),
        all_white(b),
        s.len() > 0,
        !is_white(s[0]),
        !is_white(s.last()),
    ensures
        trimmed(a + s + b) == s,
        is_white(' ') && is_white('\t') && is_white('\n') && is_white('\r'),
        forall|c: char| '!' <= c <= '~' ==> !#[trigger] is_white(c),
{
    assert(a + s + b =~= a + (s + b));
    assert((s + b)[0] == s[0]);
    lemma_trim_start(a, s + b);
    lemma_trim_end(s, b);
}

} // verus!
