//! Text: joining, trimming, and writing numbers down.

use vstd::prelude::*;
use vstd::string::*;
use crate::single::Single;

verus! {

/// `std::string::String::push`: the text gets one more character at its end.
pub assume_specification[ String::push ](s: &mut String, c: char)
    ensures
        final(s)@ == old(s)@.push(c),
;

// ----- Joining ----------------------------------------------------------------

/// The parts, one after the other.
pub open spec fn joined<T>(parts: Seq<Seq<T>>) -> Seq<T>
    decreases parts.len(),
{
    if parts.len() == 0 {
        seq![]
    } else {
        joined(parts.drop_last()) + parts.last()
    }
}

/// One more part comes after all the others.
pub proof fn lemma_joined_push<T>(parts: Seq<Seq<T>>, part: Seq<T>)
    ensures
        joined(parts.push(part)) == joined(parts) + part,
{
    assert(parts.push(part).drop_last() =~= parts);
}

// ----- Trimming ---------------------------------------------------------------

/// Whether a character is white space.
pub open spec fn white_space(c: char) -> bool {
    ||| '\u{9}' <= c <= '\u{d}'
    ||| c == ' '
    ||| c == '\u{85}'
    ||| c == '\u{a0}'
    ||| c == '\u{1680}'
    ||| '\u{2000}' <= c <= '\u{200a}'
    ||| c == '\u{2028}'
    ||| c == '\u{2029}'
    ||| c == '\u{202f}'
    ||| c == '\u{205f}'
    ||| c == '\u{3000}'
}

/// Whether a character is white space.
pub fn is_white_space(c: char) -> (r: bool)
    ensures
        r == white_space(c),
{
    ('\u{9}' <= c && c <= '\u{d}') || c == ' ' || c == '\u{85}' || c == '\u{a0}' || c == '\u{1680}' || (
    '\u{2000}' <= c && c <= '\u{200a}') || c == '\u{2028}' || c == '\u{2029}' || c == '\u{202f}' || c
        == '\u{205f}' || c == '\u{3000}'
}

/// The text without white space at its end.
pub open spec fn trimmed_end(s: Seq<char>) -> Seq<char>
    decreases s.len(),
{
    if s.len() > 0 && white_space(s.last()) {
        trimmed_end(s.drop_last())
    } else {
        s
    }
}

/// The text without white space at its beginning.
pub open spec fn trimmed_start(s: Seq<char>) -> Seq<char>
    decreases s.len(),
{
    if s.len() > 0 && white_space(s[0]) {
        trimmed_start(s.drop_first())
    } else {
        s
    }
}

/// The text without white space at either end.
pub open spec fn trimmed(s: Seq<char>) -> Seq<char> {
    trimmed_end(trimmed_start(s))
}

/// The characters of a text.
pub fn characters(s: &str) -> (v: Vec<char>)
    ensures
        v@ == s@,
{
    let mut v: Vec<char> = Vec::new();
    for c in it: s.chars()
        invariant
            v@ == s@.take(it.index()),
            it.seq() == s@,
            0 <= it.index() <= s@.len(),
    {
        v.push(c);
        assert(s@.take(it.index() + 1) =~= s@.take(it.index()).push(c));
    }
    assert(s@.take(s@.len() as int) =~= s@);
    v
}

/// The text made of these characters.
pub fn text_of(chars: &Vec<char>, from: usize, to: usize) -> (s: String)
    requires
        from <= to <= chars@.len(),
    ensures
        s@ == chars@.subrange(from as int, to as int),
{
    let mut s = String::new();
    assert(s@ =~= chars@.subrange(from as int, from as int)) by {
        reveal_strlit("");
    }
    for i in from..to
        invariant
            from <= to <= chars@.len(),
            s@ == chars@.subrange(from as int, i as int),
    {
        s.push(chars[i]);
        assert(chars@.subrange(from as int, i + 1) =~= chars@.subrange(from as int, i as int).push(
            chars@[i as int],
        ));
    }
    s
}

/// The text without white space at either end.
pub fn trim(s: &str) -> (r: String)
    ensures
        r@ == trimmed(s@),
{
    let chars = characters(s);
    let n: usize = chars.len();
    let mut from: usize = 0;
    assert(chars@.subrange(0, n as int) =~= chars@);
    while from < n && is_white_space(chars[from])
        invariant
            from <= n,
            n == chars@.len(),
            trimmed_start(chars@) == trimmed_start(chars@.subrange(from as int, n as int)),
        decreases n - from,
    {
        assert(chars@.subrange(from as int, n as int).drop_first() =~= chars@.subrange(
            from + 1,
            n as int,
        ));
        from = from + 1;
    }
    let ghost rest = chars@.subrange(from as int, n as int);
    assert(trimmed_start(chars@) == rest);
    let mut to: usize = n;
    while to > from && is_white_space(chars[to - 1])
        invariant
            from <= to <= n,
            n == chars@.len(),
            trimmed_end(rest) == trimmed_end(chars@.subrange(from as int, to as int)),
        decreases to,
    {
        assert(chars@.subrange(from as int, to as int).drop_last() =~= chars@.subrange(
            from as int,
            to - 1,
        ));
        to = to - 1;
    }
    text_of(&chars, from, to)
}

/// What is left after trimming neither begins nor ends with white space.
pub proof fn lemma_trimmed(s: Seq<char>)
    ensures
        trimmed(s).len() > 0 ==> !white_space(trimmed(s)[0]) && !white_space(trimmed(s).last()),
        forall|c: char| trimmed(s).contains(c) ==> #[trigger] s.contains(c),
{
    lemma_trimmed_start(s);
    lemma_trimmed_end(trimmed_start(s));
}

proof fn lemma_trimmed_start(s: Seq<char>)
    ensures
        trimmed_start(s).len() > 0 ==> !white_space(trimmed_start(s)[0]),
        forall|c: char| trimmed_start(s).contains(c) ==> #[trigger] s.contains(c),
    decreases s.len(),
{
    if s.len() > 0 && white_space(s[0]) {
        lemma_trimmed_start(s.drop_first());
        assert forall|c: char| trimmed_start(s).contains(c) implies #[trigger] s.contains(c) by {
            assert(s.drop_first().contains(c));
            let k = choose|k: int| 0 <= k < s.len() - 1 && s.drop_first()[k] == c;
            assert(s[k + 1] == c);
        }
    }
}

proof fn lemma_trimmed_end(s: Seq<char>)
    ensures
        trimmed_end(s).len() > 0 ==> !white_space(trimmed_end(s).last()) && trimmed_end(s)[0] == s[0],
        forall|c: char| trimmed_end(s).contains(c) ==> #[trigger] s.contains(c),
    decreases s.len(),
{
    if s.len() > 0 && white_space(s.last()) {
        lemma_trimmed_end(s.drop_last());
        assert forall|c: char| trimmed_end(s).contains(c) implies #[trigger] s.contains(c) by {
            assert(s.drop_last().contains(c));
            let k = choose|k: int| 0 <= k < s.len() - 1 && s.drop_last()[k] == c;
            assert(s[k] == c);
        }
    }
}

// ----- Numbers ----------------------------------------------------------------

/// The character of a digit.
pub open spec fn digit(d: nat) -> char {
    seq!['0', '1', '2', '3', '4', '5', '6', '7', '8', '9'][d as int]
}

/// The character of a digit.
pub fn digit_char(d: u64) -> (c: char)
    requires
        d < 10,
    ensures
        c == digit(d as nat),
{
    match d {
        0 => '0',
        1 => '1',
        2 => '2',
        3 => '3',
        4 => '4',
        5 => '5',
        6 => '6',
        7 => '7',
        8 => '8',
        _ => '9',
    }
}

/// A number in decimal digits, without leading zeros.
pub open spec fn decimal(n: nat) -> Seq<char>
    decreases n,
{
    if n < 10 {
        seq![digit(n)]
    } else {
        decimal(n / 10).push(digit(n % 10))
    }
}

/// Writes a number in decimal digits at the end of `out`.
pub fn push_decimal(out: &mut String, n: u64)
    ensures
        final(out)@ == old(out)@ + decimal(n as nat),
    decreases n,
{
    if n >= 10 {
        push_decimal(out, n / 10);
    }
    out.push(digit_char(n % 10));
    assert(out@ =~= old(out)@ + decimal(n as nat));
}

/// How numbers with a fraction are written down and read. The library asks for
/// texts and values and relies on nothing about them.
pub trait NumberText {
    /// `v` with `places` digits behind the point.
    fn fixed(v: Single, places: usize) -> String;

    /// The number that `text` stands for.
    fn parse(text: &str) -> Option<Single>;
}

/// `t` is how `v` is written with `places` digits behind the point.
pub open spec fn fixed_of<N: NumberText>(v: Single, places: usize, t: Seq<char>) -> bool {
    exists|s: String| #[trigger] call_ensures(N::fixed, (v, places), s) && s@ == t
}

/// `v` is what `text` is read as.
pub open spec fn parse_of<N: NumberText>(text: Seq<char>, v: Option<Single>) -> bool {
    exists|s: &str| #[trigger] call_ensures(N::parse, (s,), v) && s@ == text
}

} // verus!
