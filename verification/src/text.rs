//! Texts as sequences of characters.

use vstd::prelude::*;

verus! {

/// Trusted: `String::push` puts the character behind the text.
pub assume_specification[ String::push ](text: &mut String, c: char)
    ensures
        final(text)@ == old(text)@.push(c),
;

/// Trusted: `String::push_str` puts the second text behind the first.
pub assume_specification[ String::push_str ](text: &mut String, more: &str)
    ensures
        final(text)@ == old(text)@ + more@,
;

pub open spec fn is_ascii_char(c: char) -> bool {
    (c as int) < 128
}

pub open spec fn is_ascii_alphanumeric(c: char) -> bool {
    ('0' <= c && c <= '9') || ('A' <= c && c <= 'Z') || ('a' <= c && c <= 'z')
}

/// A letter from A to Z in its small form; every other character as it is.
pub open spec fn ascii_lower(c: char) -> char {
    if 'A' <= c && c <= 'Z' {
        (c as int + 32) as char
    } else {
        c
    }
}

pub open spec fn ascii_lower_text(s: Seq<char>) -> Seq<char> {
    Seq::new(s.len(), |i: int| ascii_lower(s[i]))
}

/// Whether Unicode calls a character alphabetic or numeric.
pub uninterp spec fn unicode_alphanumeric(c: char) -> bool;

/// A text in the small letters of Unicode.
pub uninterp spec fn unicode_lowercase(s: Seq<char>) -> Seq<char>;

/// Trusted: `char::is_alphanumeric` goes by the Unicode properties of the character alone.
/// Among the ASCII characters those are the digits and the letters.
pub assume_specification[ char::is_alphanumeric ](c: char) -> (b: bool)
    ensures
        b == unicode_alphanumeric(c),
        is_ascii_char(c) ==> b == is_ascii_alphanumeric(c),
;

/// Trusted: `str::to_lowercase` goes by the Unicode properties of the characters alone. A
/// text of ASCII characters keeps its length, and its letters from A to Z become small.
#[verifier::external_body]
pub(crate) fn lowercase(s: &str) -> (r: String)
    ensures
        r@ == unicode_lowercase(s@),
        (forall|i: int| 0 <= i < s@.len() ==> is_ascii_char(#[trigger] s@[i])) ==> r@
            == ascii_lower_text(s@),
{
    s.to_lowercase()
}

/// Whether a text is `other`.
pub fn is_text(s: &String, other: &str) -> (b: bool)
    ensures
        b == (s@ == other@),
{
    *s == other.to_owned()
}

/// The characters of a text.
pub fn chars_of(s: &str) -> (chars: Vec<char>)
    ensures
        chars@ == s@,
{
    let mut chars: Vec<char> = Vec::new();
    for c in walk: s.chars()
        invariant
            walk.seq() == s@,
            chars@ == s@.take(walk.index() as int),
    {
        chars.push(c);
        assert(chars@ =~= s@.take(walk.index() + 1));
    }
    assert(s@.take(s@.len() as int) =~= s@);
    chars
}

/// The text of these characters.
pub fn text_of(chars: &Vec<char>) -> (s: String)
    ensures
        s@ == chars@,
{
    let mut s = String::new();
    let mut i: usize = 0;
    while i < chars.len()
        invariant
            i <= chars@.len(),
            s@ == chars@.take(i as int),
        decreases chars@.len() - i,
    {
        s.push(chars[i]);
        assert(s@ =~= chars@.take(i + 1));
        i = i + 1;
    }
    assert(chars@.take(chars@.len() as int) =~= chars@);
    s
}

/// A letter from A to Z in its small form; every other character as it is.
pub fn to_ascii_lower(c: char) -> (r: char)
    ensures
        r == ascii_lower(c),
{
    if 'A' <= c && c <= 'Z' {
        (c as u8 + 32) as char
    } else {
        c
    }
}

/// The decimal digits of `n`.
pub open spec fn decimal(n: nat) -> Seq<char>
    decreases n,
{
    if n < 10 {
        seq![('0' as int + n) as char]
    } else {
        decimal(n / 10).push(('0' as int + n % 10) as char)
    }
}

/// The decimal digits of `n`.
pub fn decimal_text(n: usize) -> (s: String)
    ensures
        s@ == decimal(n as nat),
    decreases n,
{
    if n < 10 {
        let mut s = String::new();
        s.push((48 + n as u8) as char);
        assert(s@ =~= decimal(n as nat));
        s
    } else {
        let mut s = decimal_text(n / 10);
        s.push((48 + (n % 10) as u8) as char);
        s
    }
}

/// The letters from A to Z become those 32 places behind them, and nothing else changes.
pub proof fn lemma_small_letters(c: char)
    ensures
        65 <= c as int && c as int <= 90 ==> ascii_lower(c) as int == c as int + 32,
        (c as int) < 65 || 90 < c as int ==> ascii_lower(c) == c,
        ascii_lower(ascii_lower(c)) == ascii_lower(c),
        is_ascii_char(c) <==> (c as int) < 128,
        is_ascii_alphanumeric(c) <==> (48 <= c as int && c as int <= 57) || (65 <= c as int && c as int
            <= 90) || (97 <= c as int && c as int <= 122),
{
}

/// Each character of a text becomes small by itself.
pub proof fn lemma_small_texts(s: Seq<char>, i: int)
    requires
        0 <= i < s.len(),
    ensures
        ascii_lower_text(s).len() == s.len(),
        ascii_lower_text(s)[i] == ascii_lower(s[i]),
{
}

/// What digits stand for, to the base ten.
pub open spec fn number_of(digits: Seq<char>) -> int
    decreases digits.len(),
{
    if digits.len() == 0 {
        0
    } else {
        10 * number_of(digits.drop_last()) + (digits.last() as int - 48)
    }
}

/// The digits of a number stand for it: each is one of ten, and none but that of zero
/// itself starts with a zero.
pub proof fn lemma_digits_stand_for_the_number(n: nat)
    ensures
        number_of(decimal(n)) == n,
        decimal(n).len() > 0,
        forall|i: int|
            0 <= i < decimal(n).len() ==> 48 <= (#[trigger] decimal(n)[i]) as int && decimal(n)[i] as int
                <= 57,
        n > 0 ==> decimal(n)[0] as int > 48,
    decreases n,
{
    if n < 10 {
        let d = decimal(n);
        assert(d.drop_last() =~= Seq::empty());
        assert(number_of(d.drop_last()) == 0);
    } else {
        lemma_digits_stand_for_the_number(n / 10);
        assert(decimal(n).drop_last() =~= decimal(n / 10));
    }
}

} // verus!
