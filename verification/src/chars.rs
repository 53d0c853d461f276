//! Character helpers: ASCII case folding, the class shorthands `\w`, `\d`, `\s`,
//! Unicode numeric test, decimal numerals, and conversions between `&str`,
//! `Vec<char>` and `String`.
use vstd::prelude::*;

verus! {

/// Whether `c` has a Unicode general category for numbers (Nd, Nl or No).
pub uninterp spec fn unicode_numeric(c: char) -> bool;

/// Whether `c` is numeric: among the ASCII characters exactly the digits `0`
/// to `9`, beyond ASCII the Unicode number categories.
pub open spec fn numeric_char(c: char) -> bool {
    if c <= '\u{7f}' {
        '0' <= c <= '9'
    } else {
        unicode_numeric(c)
    }
}

/// Wraps std's `char::is_numeric`, which tests the Unicode general categories
/// for numbers. Trusted: the result equals `unicode_numeric(c)`, and among
/// the ASCII characters exactly the digits `0` to `9` are numeric; nothing
/// else is claimed about which characters those categories hold.
#[verifier::external_body]
pub(crate) fn char_is_numeric(c: char) -> (r: bool)
    ensures
        r == unicode_numeric(c),
        r == numeric_char(c),
{
    c.is_numeric()
}

/// Std's `String::push` appends one character.
pub assume_specification[ String::push ](s: &mut String, ch: char)
    ensures
        final(s)@ == old(s)@.push(ch),
;

/// ASCII lower-casing of one character, as `char::to_ascii_lowercase` does it.
pub open spec fn lower(c: char) -> char {
    if 'A' <= c && c <= 'Z' {
        ((c as u32) + 32) as char
    } else {
        c
    }
}

pub fn to_lower(c: char) -> (r: char)
    ensures
        r == lower(c),
{
    if 'A' <= c && c <= 'Z' {
        ((c as u8) + 32) as char
    } else {
        c
    }
}

/// The characters of a string slice, in order.
pub fn chars_of(s: &str) -> (v: Vec<char>)
    ensures
        v@ == s@,
{
    let mut v: Vec<char> = Vec::new();
    for c in it: s.chars()
        invariant
            v@ == it.seq().take(it.index() as int),
            it.seq() == s@,
    {
        v.push(c);
    }
    v
}

/// A `String` holding the given characters.
pub fn string_of(v: &Vec<char>) -> (s: String)
    ensures
        s@ == v@,
{
    let mut s = String::new();
    let mut i: usize = 0;
    while i < v.len()
        invariant
            i <= v.len(),
            s@ == v@.take(i as int),
        decreases v.len() - i,
    {
        s.push(v[i]);
        i = i + 1;
        assert(v@.take(i as int) == v@.take(i - 1).push(v@[i - 1]));
    }
    assert(v@.take(v.len() as int) == v@);
    s
}

} // verus!

verus! {

/// The characters of `\w`: ASCII letters, digits and `_`.
pub open spec fn word_chars() -> Seq<char> {
    seq!['a', 'b', 'c', 'd', 'e', 'f', 'g', 'h', 'i', 'j', 'k', 'l', 'm', 'n', 'o', 'p', 'q', 'r', 's', 't', 'u', 'v', 'w', 'x', 'y', 'z', 'A', 'B', 'C', 'D', 'E', 'F', 'G', 'H', 'I', 'J', 'K', 'L', 'M', 'N', 'O', 'P', 'Q', 'R', 'S', 'T', 'U', 'V', 'W', 'X', 'Y', 'Z', '0', '1', '2', '3', '4', '5', '6', '7', '8', '9', '_']
}

pub fn word_chars_vec() -> (v: Vec<char>)
    ensures
        v@ == word_chars(),
{
    vec!['a', 'b', 'c', 'd', 'e', 'f', 'g', 'h', 'i', 'j', 'k', 'l', 'm', 'n', 'o', 'p', 'q', 'r', 's', 't', 'u', 'v', 'w', 'x', 'y', 'z', 'A', 'B', 'C', 'D', 'E', 'F', 'G', 'H', 'I', 'J', 'K', 'L', 'M', 'N', 'O', 'P', 'Q', 'R', 'S', 'T', 'U', 'V', 'W', 'X', 'Y', 'Z', '0', '1', '2', '3', '4', '5', '6', '7', '8', '9', '_']
}

/// The characters of `\d`, in ascending order.
pub open spec fn digit_chars() -> Seq<char> {
    seq!['0', '1', '2', '3', '4', '5', '6', '7', '8', '9']
}

pub fn digit_chars_vec() -> (v: Vec<char>)
    ensures
        v@ == digit_chars(),
{
    vec!['0', '1', '2', '3', '4', '5', '6', '7', '8', '9']
}

/// The characters of `\s`: space, tab and newline.
pub open spec fn space_chars() -> Seq<char> {
    seq![' ', '\t', '\n']
}

pub fn space_chars_vec() -> (v: Vec<char>)
    ensures
        v@ == space_chars(),
{
    vec![' ', '\t', '\n']
}

/// Lower-case ASCII letters in order.
pub open spec fn lower_alpha_chars() -> Seq<char> {
    seq!['a', 'b', 'c', 'd', 'e', 'f', 'g', 'h', 'i', 'j', 'k', 'l', 'm', 'n', 'o', 'p', 'q', 'r', 's', 't', 'u', 'v', 'w', 'x', 'y', 'z']
}

pub fn lower_alpha_chars_vec() -> (v: Vec<char>)
    ensures
        v@ == lower_alpha_chars(),
{
    vec!['a', 'b', 'c', 'd', 'e', 'f', 'g', 'h', 'i', 'j', 'k', 'l', 'm', 'n', 'o', 'p', 'q', 'r', 's', 't', 'u', 'v', 'w', 'x', 'y', 'z']
}

/// Upper-case ASCII letters in order.
pub open spec fn upper_alpha_chars() -> Seq<char> {
    seq!['A', 'B', 'C', 'D', 'E', 'F', 'G', 'H', 'I', 'J', 'K', 'L', 'M', 'N', 'O', 'P', 'Q', 'R', 'S', 'T', 'U', 'V', 'W', 'X', 'Y', 'Z']
}

pub fn upper_alpha_chars_vec() -> (v: Vec<char>)
    ensures
        v@ == upper_alpha_chars(),
{
    vec!['A', 'B', 'C', 'D', 'E', 'F', 'G', 'H', 'I', 'J', 'K', 'L', 'M', 'N', 'O', 'P', 'Q', 'R', 'S', 'T', 'U', 'V', 'W', 'X', 'Y', 'Z']
}

/// Upper-case then lower-case ASCII letters, in order.
pub open spec fn mixed_alpha_chars() -> Seq<char> {
    seq!['A', 'B', 'C', 'D', 'E', 'F', 'G', 'H', 'I', 'J', 'K', 'L', 'M', 'N', 'O', 'P', 'Q', 'R', 'S', 'T', 'U', 'V', 'W', 'X', 'Y', 'Z', 'a', 'b', 'c', 'd', 'e', 'f', 'g', 'h', 'i', 'j', 'k', 'l', 'm', 'n', 'o', 'p', 'q', 'r', 's', 't', 'u', 'v', 'w', 'x', 'y', 'z']
}

pub fn mixed_alpha_chars_vec() -> (v: Vec<char>)
    ensures
        v@ == mixed_alpha_chars(),
{
    vec!['A', 'B', 'C', 'D', 'E', 'F', 'G', 'H', 'I', 'J', 'K', 'L', 'M', 'N', 'O', 'P', 'Q', 'R', 'S', 'T', 'U', 'V', 'W', 'X', 'Y', 'Z', 'a', 'b', 'c', 'd', 'e', 'f', 'g', 'h', 'i', 'j', 'k', 'l', 'm', 'n', 'o', 'p', 'q', 'r', 's', 't', 'u', 'v', 'w', 'x', 'y', 'z']
}

} // verus!

verus! {

/// The characters a shorthand class accepts, keyed by its lower-case letter.
pub open spec fn class_chars(key: char) -> Seq<char> {
    if key == 'w' {
        word_chars()
    } else if key == 'd' {
        digit_chars()
    } else {
        space_chars()
    }
}

pub fn class_chars_vec(key: char) -> (v: Vec<char>)
    ensures
        v@ == class_chars(key),
{
    if key == 'w' {
        word_chars_vec()
    } else if key == 'd' {
        digit_chars_vec()
    } else {
        space_chars_vec()
    }
}

/// Position of the first `c` in `s` at or after `i`.
pub open spec fn index_of_from(s: Seq<char>, c: char, i: nat) -> Option<int>
    decreases s.len() - i,
{
    if i >= s.len() {
        None
    } else if s[i as int] == c {
        Some(i as int)
    } else {
        index_of_from(s, c, i + 1)
    }
}

pub open spec fn index_of(s: Seq<char>, c: char) -> Option<int> {
    index_of_from(s, c, 0)
}

pub proof fn lemma_index_of_from(s: Seq<char>, c: char, i: nat)
    ensures
        index_of_from(s, c, i) matches Some(k) ==> i <= k < s.len() && s[k] == c
            && forall|j: int| i <= j < k ==> s[j] != c,
        index_of_from(s, c, i) is None ==> forall|j: int| i <= j < s.len() ==> s[j] != c,
    decreases s.len() - i,
{
    if i < s.len() && s[i as int] != c {
        lemma_index_of_from(s, c, i + 1);
    }
}

pub fn find_char(s: &Vec<char>, c: char) -> (r: Option<usize>)
    ensures
        match index_of(s@, c) {
            None => r is None,
            Some(k) => r == Some(k as usize),
        },
{
    let mut i: usize = 0;
    while i < s.len()
        invariant
            i <= s.len(),
            index_of(s@, c) == index_of_from(s@, c, i as nat),
        decreases s.len() - i,
    {
        if s[i] == c {
            return Some(i);
        }
        i = i + 1;
    }
    None
}

/// Decimal value of a run of ASCII digits.
pub open spec fn digits_value(s: Seq<char>) -> int
    decreases s.len(),
{
    if s.len() == 0 {
        0
    } else {
        digits_value(s.drop_last()) * 10 + (s.last() as int - '0' as int)
    }
}

pub open spec fn all_digits(s: Seq<char>) -> bool {
    forall|i: int| 0 <= i < s.len() ==> '0' <= #[trigger] s[i] <= '9'
}

/// Reading of a `usize` numeral as `str::parse::<usize>` does it: an optional
/// `+`, then at least one ASCII digit, with a value that fits in `usize`.
pub open spec fn numeral_value(s: Seq<char>) -> Option<usize> {
    let d = if s.len() > 0 && s[0] == '+' { s.drop_first() } else { s };
    if d.len() > 0 && all_digits(d) && digits_value(d) <= usize::MAX {
        Some(digits_value(d) as usize)
    } else {
        None
    }
}

pub proof fn lemma_digits_value_grows(s: Seq<char>, k: int)
    requires
        0 <= k <= s.len(),
        all_digits(s),
    ensures
        0 <= digits_value(s.take(k)) <= digits_value(s),
    decreases s.len() - k,
{
    if k < s.len() {
        lemma_digits_value_grows(s, k + 1);
        assert(s.take(k + 1).drop_last() == s.take(k));
        assert('0' <= s[k] <= '9');
    } else {
        assert(s.take(k) == s);
    }
    lemma_digits_value_nonneg(s.take(k));
}

proof fn lemma_digits_value_nonneg(s: Seq<char>)
    requires
        all_digits(s),
    ensures
        digits_value(s) >= 0,
    decreases s.len(),
{
    if s.len() > 0 {
        assert(all_digits(s.drop_last()));
        lemma_digits_value_nonneg(s.drop_last());
        assert('0' <= s[s.len() - 1] <= '9');
    }
}

pub fn parse_numeral(s: &Vec<char>) -> (r: Option<usize>)
    ensures
        r == numeral_value(s@),
{
    let start: usize = if s.len() > 0 && s[0] == '+' { 1 } else { 0 };
    let ghost d = if s@.len() > 0 && s@[0] == '+' { s@.drop_first() } else { s@ };
    assert(d == s@.skip(start as int));
    if start >= s.len() {
        return None;
    }
    let mut v: usize = 0;
    let mut i: usize = start;
    while i < s.len()
        invariant
            start <= i <= s.len(),
            d == s@.skip(start as int),
            d == (if s@.len() > 0 && s@[0] == '+' { s@.drop_first() } else { s@ }),
            all_digits(d.take(i - start)),
            v as int == digits_value(d.take(i - start)),
        decreases s.len() - i,
    {
        let c = s[i];
        assert(d[i - start] == c);
        if !('0' <= c && c <= '9') {
            assert(!all_digits(d));
            return None;
        }
        let ghost t = d.take(i - start + 1);
        assert(t.drop_last() == d.take(i - start));
        assert(all_digits(t));
        let digit = (c as u32 - '0' as u32) as usize;
        assert(digits_value(t) == v * 10 + digit);
        match v.checked_mul(10) {
            None => {
                proof {
                    if all_digits(d) {
                        lemma_digits_value_grows(d, i - start + 1);
                    }
                }
                return None;
            },
            Some(m) => match m.checked_add(digit) {
                None => {
                    proof {
                        if all_digits(d) {
                            lemma_digits_value_grows(d, i - start + 1);
                        }
                    }
                    return None;
                },
                Some(n) => {
                    v = n;
                },
            },
        }
        i = i + 1;
    }
    assert(d.take(i - start) == d);
    Some(v)
}

} // verus!

verus! {

/// Position `i` of the lower-case alphabet holds the letter `'a' + i`.
pub proof fn lemma_lower_alpha_at(i: int)
    requires
        0 <= i < 26,
    ensures
        lower_alpha_chars().len() == 26,
        lower_alpha_chars()[i] as int == 97 + i,
{
    let s = lower_alpha_chars();
    assert(s[0] == 'a');
    assert(s[1] == 'b');
    assert(s[2] == 'c');
    assert(s[3] == 'd');
    assert(s[4] == 'e');
    assert(s[5] == 'f');
    assert(s[6] == 'g');
    assert(s[7] == 'h');
    assert(s[8] == 'i');
    assert(s[9] == 'j');
    assert(s[10] == 'k');
    assert(s[11] == 'l');
    assert(s[12] == 'm');
    assert(s[13] == 'n');
    assert(s[14] == 'o');
    assert(s[15] == 'p');
    assert(s[16] == 'q');
    assert(s[17] == 'r');
    assert(s[18] == 's');
    assert(s[19] == 't');
    assert(s[20] == 'u');
    assert(s[21] == 'v');
    assert(s[22] == 'w');
    assert(s[23] == 'x');
    assert(s[24] == 'y');
    assert(s[25] == 'z');
    assert(s.len() == 26);
}

/// Position `i` of the digits holds the digit `'0' + i`.
pub proof fn lemma_digit_at(i: int)
    requires
        0 <= i < 10,
    ensures
        digit_chars().len() == 10,
        digit_chars()[i] as int == 48 + i,
{
    let d = digit_chars();
    assert(d[0] == '0');
    assert(d[1] == '1');
    assert(d[2] == '2');
    assert(d[3] == '3');
    assert(d[4] == '4');
    assert(d[5] == '5');
    assert(d[6] == '6');
    assert(d[7] == '7');
    assert(d[8] == '8');
    assert(d[9] == '9');
    assert(d.len() == 10);
}

} // verus!
