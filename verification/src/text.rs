//! Text: what the standard library does to strings, the decimal notation, and
//! the two encodings in which superblocks hold their labels.

use vstd::prelude::*;
use vstd::utf8::*;

verus! {

/// `String::push` appends one character to the end of the string.
pub assume_specification[ String::push ](s: &mut String, c: char)
    ensures
        final(s)@ == old(s)@.push(c),
;

/// `String::pop` removes the last character and returns it; an empty string
/// stays empty and gives `None`.
pub assume_specification[ String::pop ](s: &mut String) -> (r: Option<char>)
    ensures
        old(s)@.len() == 0 ==> r is None && final(s)@ == old(s)@,
        old(s)@.len() > 0 ==> r == Some(old(s)@.last()) && final(s)@ == old(s)@.drop_last(),
;

/// `char::from_u32` gives the character of a Unicode scalar value, and `None`
/// for every other number.
pub assume_specification[ char::from_u32 ](i: u32) -> (r: Option<char>)
    ensures
        is_scalar(i) ==> r == Some(i as char),
        !is_scalar(i) ==> r is None,
;

/// `std::str::from_utf8` accepts exactly the well-formed UTF-8 sequences, and
/// the text it gives is the one whose encoding was handed in.
#[verifier::external_body]
fn decoded_text(bytes: &[u8]) -> (r: Option<&str>)
    ensures
        r is Some <==> valid_utf8(bytes@),
        r matches Some(s) ==> s@ == decode_utf8(bytes@),
{
    std::str::from_utf8(bytes).ok()
}

/// What `String::from_utf8_lossy` makes of a byte sequence: the text, with the
/// replacement character where the bytes are not UTF-8.
pub uninterp spec fn utf8_lossy(bytes: Seq<u8>) -> Seq<char>;

/// `String::from_utf8_lossy` depends on the bytes alone, and replaces nothing
/// in a well-formed sequence.
#[verifier::external_body]
pub(crate) fn lossy_text(bytes: &[u8]) -> (r: String)
    ensures
        r@ == utf8_lossy(bytes@),
        valid_utf8(bytes@) ==> r@ == decode_utf8(bytes@),
{
    String::from_utf8_lossy(bytes).into_owned()
}

/// The text that a byte sequence encodes, if it is well-formed UTF-8.
pub open spec fn utf8_text(bytes: Seq<u8>) -> Option<Seq<char>> {
    if valid_utf8(bytes) {
        Some(decode_utf8(bytes))
    } else {
        None
    }
}

/// The view of an optional string.
pub open spec fn opt_text(s: Option<String>) -> Option<Seq<char>> {
    match s {
        Some(t) => Some(t@),
        None => None,
    }
}

/// Decodes UTF-8.
pub fn text_from_utf8(bytes: &[u8]) -> (r: Option<String>)
    ensures
        opt_text(r) == utf8_text(bytes@),
{
    match decoded_text(bytes) {
        Some(s) => Some(s.to_owned()),
        None => None,
    }
}

/// The characters of a string.
pub fn chars_of(s: &str) -> (r: Vec<char>)
    ensures
        r@ == s@,
{
    let mut v: Vec<char> = Vec::new();
    for c in it: s.chars()
        invariant
            v@ == it.seq().take(it.index() as int),
            it.seq() == s@,
    {
        v.push(c);
    }
    v
}

/// The string that consists of the given characters.
pub fn text_of(chars: &[char]) -> (r: String)
    ensures
        r@ == chars@,
{
    let mut s = String::new();
    let mut i: usize = 0;
    while i < chars.len()
        invariant
            i <= chars@.len(),
            s@ == chars@.take(i as int),
        decreases chars@.len() - i,
    {
        s.push(chars[i]);
        i = i + 1;
        assert(chars@.take(i as int) == chars@.take(i - 1).push(chars@[i - 1]));
    }
    assert(chars@.take(i as int) == chars@);
    s
}

/// Whether two byte strings are equal.
pub fn same_bytes(a: &[u8], b: &[u8]) -> (r: bool)
    ensures
        r == (a@ == b@),
{
    if a.len() != b.len() {
        return false;
    }
    let mut i: usize = 0;
    while i < a.len()
        invariant
            i <= a@.len(),
            a@.len() == b@.len(),
            forall|k: int| 0 <= k < i ==> a@[k] == b@[k],
        decreases a@.len() - i,
    {
        if a[i] != b[i] {
            return false;
        }
        i = i + 1;
    }
    assert(a@ == b@);
    true
}

/// Whether two strings are equal.
pub fn same_text(a: &str, b: &str) -> (r: bool)
    ensures
        r == (a@ == b@),
{
    let r = same_bytes(a.as_bytes(), b.as_bytes());
    proof {
        encode_utf8_decode_utf8(a@);
        encode_utf8_decode_utf8(b@);
    }
    r
}

/// Copies a byte string.
pub fn copy_bytes(b: &[u8]) -> (r: Vec<u8>)
    ensures
        r@ == b@,
{
    let mut v: Vec<u8> = Vec::new();
    push_bytes(&mut v, b);
    assert(v@ == b@);
    v
}

/// Appends a byte string.
pub fn push_bytes(out: &mut Vec<u8>, b: &[u8])
    ensures
        final(out)@ == old(out)@ + b@,
{
    let mut i: usize = 0;
    assert(b@.take(0) == Seq::<u8>::empty());
    while i < b.len()
        invariant
            i <= b@.len(),
            out@ == old(out)@ + b@.take(i as int),
        decreases b@.len() - i,
    {
        out.push(b[i]);
        i = i + 1;
        assert(b@.take(i as int) == b@.take(i - 1).push(b@[i - 1]));
    }
    assert(b@.take(i as int) == b@);
}

// --- Decimal notation ---

/// The decimal digit of a number below ten.
pub open spec fn digit(n: nat) -> char {
    ((48 + n) as u8) as char
}

/// A number in decimal notation, without leading zeros.
pub open spec fn decimal(n: nat) -> Seq<char>
    decreases n,
{
    if n < 10 {
        seq![digit(n)]
    } else {
        decimal(n / 10).push(digit(n % 10))
    }
}

/// Appends a number in decimal notation.
pub fn push_decimal(out: &mut String, n: u64)
    ensures
        final(out)@ == old(out)@ + decimal(n as nat),
    decreases n,
{
    if n >= 10 {
        push_decimal(out, n / 10);
    }
    let d: u8 = (n % 10) as u8;
    out.push((48 + d) as char);
    assert(out@ =~= old(out)@ + decimal(n as nat));
}

/// Whether a character is an ASCII decimal digit.
pub open spec fn is_digit(c: char) -> bool {
    '0' <= c && c <= '9'
}

/// The number that a sequence of decimal digits denotes.
pub open spec fn digits_value(s: Seq<char>) -> Option<nat>
    decreases s.len(),
{
    if s.len() == 0 {
        Some(0)
    } else if !is_digit(s.last()) {
        None
    } else {
        match digits_value(s.drop_last()) {
            Some(v) => Some((v * 10 + (s.last() as nat - 48)) as nat),
            None => None,
        }
    }
}

/// The unsigned number that a text denotes: one or more decimal digits, with an
/// optional plus sign before them.
pub open spec fn number(s: Seq<char>) -> Option<nat> {
    let digits = if s.len() > 0 && s[0] == '+' {
        s.drop_first()
    } else {
        s
    };
    if digits.len() == 0 {
        None
    } else {
        digits_value(digits)
    }
}

/// The number that a text denotes, if it is at most `max`.
pub open spec fn bounded_number(s: Seq<char>, max: nat) -> Option<nat> {
    match number(s) {
        Some(n) if n <= max => Some(n),
        _ => None,
    }
}

proof fn lemma_digits_value_prefix(s: Seq<char>, k: int)
    requires
        0 <= k <= s.len(),
        digits_value(s) is Some,
    ensures
        digits_value(s.take(k)) is Some,
    decreases s.len() - k,
{
    if k == s.len() {
        assert(s.take(k) == s);
    } else {
        lemma_digits_value_prefix(s, k + 1);
        assert(s.take(k + 1).drop_last() == s.take(k));
    }
}

/// Reads an unsigned number of at most `max`.
pub fn parse_number(s: &str, max: u64) -> (r: Option<u64>)
    ensures
        r matches Some(n) ==> bounded_number(s@, max as nat) == Some(n as nat),
        r is None ==> bounded_number(s@, max as nat) is None,
{
    let chars = chars_of(s);
    let start: usize = if chars.len() > 0 && chars[0] == '+' { 1 } else { 0 };
    let ghost digits = s@.skip(start as int);
    assert(start == 1 ==> digits == s@.drop_first());
    assert(start == 0 ==> digits == s@);
    if start == chars.len() {
        return None;
    }
    let mut i: usize = start;
    let mut v: u64 = 0;
    let mut over: bool = false;
    assert(digits.take(0) == Seq::<char>::empty());
    while i < chars.len()
        invariant
            start <= i <= chars@.len(),
            chars@ == s@,
            digits == s@.skip(start as int),
            number(s@) == digits_value(digits),
            digits_value(digits.take(i - start)) is Some,
            over == (digits_value(digits.take(i - start))->0 > max),
            !over ==> v == digits_value(digits.take(i - start))->0,
        decreases chars@.len() - i,
    {
        let c = chars[i];
        assert(digits.take(i + 1 - start).drop_last() == digits.take(i - start));
        assert(digits.take(i + 1 - start).last() == c);
        if c < '0' || c > '9' {
            proof {
                if digits_value(digits) is Some {
                    lemma_digits_value_prefix(digits, i + 1 - start);
                }
            }
            return None;
        }
        if !over {
            let d: u32 = c as u32 - 48;
            let next: u128 = v as u128 * 10 + d as u128;
            if next > max as u128 {
                over = true;
            } else {
                v = next as u64;
            }
        }
        i = i + 1;
    }
    assert(digits.take(i - start) == digits);
    if over {
        None
    } else {
        Some(v)
    }
}

// --- White space ---

/// The characters with the Unicode property `White_Space`.
pub open spec fn is_white_space(c: char) -> bool {
    ||| '\u{0009}' <= c && c <= '\u{000D}'
    ||| c == '\u{0020}'
    ||| c == '\u{0085}'
    ||| c == '\u{00A0}'
    ||| c == '\u{1680}'
    ||| '\u{2000}' <= c && c <= '\u{200A}'
    ||| c == '\u{2028}'
    ||| c == '\u{2029}'
    ||| c == '\u{202F}'
    ||| c == '\u{205F}'
    ||| c == '\u{3000}'
}

/// A text without its leading white space.
pub open spec fn trim_start(s: Seq<char>) -> Seq<char>
    decreases s.len(),
{
    if s.len() > 0 && is_white_space(s[0]) {
        trim_start(s.drop_first())
    } else {
        s
    }
}

/// A text without its trailing white space.
pub open spec fn trim_end(s: Seq<char>) -> Seq<char>
    decreases s.len(),
{
    if s.len() > 0 && is_white_space(s.last()) {
        trim_end(s.drop_last())
    } else {
        s
    }
}

/// A text without white space at either end.
pub open spec fn trimmed(s: Seq<char>) -> Seq<char> {
    trim_end(trim_start(s))
}

fn white_space(c: char) -> (r: bool)
    ensures
        r == is_white_space(c),
{
    ('\u{0009}' <= c && c <= '\u{000D}') || c == '\u{0020}' || c == '\u{0085}' || c == '\u{00A0}'
        || c == '\u{1680}' || ('\u{2000}' <= c && c <= '\u{200A}') || c == '\u{2028}'
        || c == '\u{2029}' || c == '\u{202F}' || c == '\u{205F}' || c == '\u{3000}'
}

/// Removes white space at both ends.
#[verifier::rlimit(40)]
pub fn trim_chars(chars: &[char]) -> (r: Vec<char>)
    ensures
        r@ == trimmed(chars@),
{
    let mut i: usize = 0;
    assert(chars@.skip(0) == chars@);
    while i < chars.len() && white_space(chars[i])
        invariant
            i <= chars@.len(),
            trim_start(chars@.skip(i as int)) == trim_start(chars@),
        decreases chars@.len() - i,
    {
        assert(chars@.skip(i as int).drop_first() == chars@.skip(i + 1));
        i = i + 1;
    }
    let ghost front = trim_start(chars@);
    assert(front == chars@.skip(i as int));
    let mut j: usize = chars.len();
    assert(chars@.subrange(i as int, j as int) == front);
    while i < j && white_space(chars[j - 1])
        invariant
            i <= j <= chars@.len(),
            trim_end(chars@.subrange(i as int, j as int)) == trim_end(front),
        decreases j,
    {
        assert(chars@.subrange(i as int, j as int).drop_last() == chars@.subrange(
            i as int,
            j - 1,
        ));
        j = j - 1;
    }
    let mut v: Vec<char> = Vec::new();
    let mut k: usize = i;
    while k < j
        invariant
            i <= k <= j <= chars@.len(),
            v@ == chars@.subrange(i as int, k as int),
        decreases j - k,
    {
        v.push(chars[k]);
        k = k + 1;
    }
    v
}

/// Removes white space at both ends.
pub fn trim_text(s: &str) -> (r: String)
    ensures
        r@ == trimmed(s@),
{
    let chars = chars_of(s);
    let kept = trim_chars(chars.as_slice());
    text_of(kept.as_slice())
}

// --- UTF-16 ---

/// The text that a sequence of UTF-16 code units encodes, if it is well formed:
/// a unit outside the surrogate range stands for itself, and a high surrogate
/// followed by a low one for a character beyond the first plane.
pub open spec fn utf16_text(units: Seq<u16>) -> Option<Seq<char>>
    decreases units.len(),
{
    if units.len() == 0 {
        Some(Seq::empty())
    } else if units[0] < 0xD800 || units[0] > 0xDFFF {
        match utf16_text(units.drop_first()) {
            Some(rest) => Some(seq![units[0] as char] + rest),
            None => None,
        }
    } else if units[0] <= 0xDBFF && units.len() > 1 && 0xDC00 <= units[1] <= 0xDFFF {
        match utf16_text(units.skip(2)) {
            Some(rest) => Some(seq![surrogate_pair(units[0], units[1]) as char] + rest),
            None => None,
        }
    } else {
        None
    }
}

/// The scalar value of a pair of surrogates.
pub open spec fn surrogate_pair(high: u16, low: u16) -> u32 {
    (0x10000 + (high - 0xD800) * 0x400 + (low - 0xDC00)) as u32
}

/// What is left of a decoding once `done` has been read and `rest` remains.
spec fn resumed(done: Seq<char>, rest: Option<Seq<char>>) -> Option<Seq<char>> {
    match rest {
        Some(t) => Some(done + t),
        None => None,
    }
}

/// Decodes UTF-16.
pub fn text_from_utf16(units: &[u16]) -> (r: Option<String>)
    ensures
        opt_text(r) == utf16_text(units@),
{
    let mut s = String::new();
    let mut i: usize = 0;
    assert(units@.skip(0) == units@);
    proof {
        if let Some(t) = utf16_text(units@) {
            assert(Seq::<char>::empty() + t == t);
        }
    }
    while i < units.len()
        invariant
            i <= units@.len(),
            utf16_text(units@) == resumed(s@, utf16_text(units@.skip(i as int))),
        decreases units@.len() - i,
    {
        let ghost rest = units@.skip(i as int);
        let ghost before = s@;
        let u: u16 = units[i];
        assert(rest.drop_first() == units@.skip(i + 1));
        if u < 0xD800 || u > 0xDFFF {
            match char::from_u32(u as u32) {
                Some(c) => {
                    s.push(c);
                    proof {
                        if let Some(t) = utf16_text(rest.drop_first()) {
                            assert(before + (seq![c] + t) == before.push(c) + t);
                        }
                    }
                },
                None => {
                    return None;
                },
            }
            i = i + 1;
        } else if u <= 0xDBFF && units.len() - i > 1 && 0xDC00 <= units[i + 1] && units[i + 1]
            <= 0xDFFF {
            let low: u16 = units[i + 1];
            let scalar: u32 = 0x10000 + (u as u32 - 0xD800) * 0x400 + (low as u32 - 0xDC00);
            assert(rest[1] == low);
            assert(rest.skip(2) == units@.skip(i + 2));
            match char::from_u32(scalar) {
                Some(c) => {
                    s.push(c);
                    proof {
                        if let Some(t) = utf16_text(rest.skip(2)) {
                            assert(before + (seq![c] + t) == before.push(c) + t);
                        }
                    }
                },
                None => {
                    return None;
                },
            }
            i = i + 2;
        } else {
            return None;
        }
    }
    assert(s@ + Seq::<char>::empty() == s@);
    Some(s)
}

// --- Laws ---

proof fn lemma_digit(n: nat)
    requires
        n < 10,
    ensures
        is_digit(digit(n)),
        digit(n) as nat - 48 == n,
{
    assert(digit(n) as u32 == 48 + n);
}

proof fn lemma_decimal(n: nat)
    ensures
        digits_value(decimal(n)) == Some(n),
        decimal(n).len() > 0,
        forall|i: int| 0 <= i < decimal(n).len() ==> is_digit(#[trigger] decimal(n)[i]),
    decreases n,
{
    if n < 10 {
        lemma_digit(n);
        assert(seq![digit(n)].drop_last() =~= Seq::empty());
        reveal_with_fuel(digits_value, 2);
    } else {
        lemma_digit(n % 10);
        lemma_decimal(n / 10);
        let init = decimal(n / 10);
        assert(decimal(n).drop_last() =~= init);
        assert(digits_value(decimal(n)) == Some((n / 10) * 10 + n % 10));
    }
}

/// A number that was written in decimal is read back, with a plus sign in front of
/// it or without.
pub proof fn decimal_is_read_back(n: nat)
    ensures
        number(decimal(n)) == Some(n),
        number(seq!['+'] + decimal(n)) == Some(n),
        forall|i: int| 0 <= i < decimal(n).len() ==> is_digit(#[trigger] decimal(n)[i]),
        decimal(n).len() > 0,
{
    lemma_decimal(n);
    assert(is_digit(decimal(n)[0]));
    assert((seq!['+'] + decimal(n)).drop_first() =~= decimal(n));
}

/// Only digits, at least one of them, with or without a plus sign in front, are read
/// as a number; another digit behind them makes it ten times as large and adds its
/// own value.
pub proof fn numbers_are_digits(s: Seq<char>, c: char)
    ensures
        number(s) is Some <==> (s.len() > 0 && forall|i: int|
            0 <= i < s.len() ==> is_digit(#[trigger] s[i])) || (s.len() > 1 && s[0] == '+'
            && forall|i: int| 1 <= i < s.len() ==> is_digit(#[trigger] s[i])),
        '0' <= c && c <= '9' ==> number(seq![c]) == Some((c as nat - 48) as nat),
        '0' <= c && c <= '9' ==> (number(s) matches Some(n) ==> number(s.push(c)) == Some(
            (10 * n + (c as nat - 48)) as nat,
        )),
{
    lemma_digits(s);
    lemma_digits(s.drop_first());
    if s.len() > 0 && s[0] == '+' {
        assert(!is_digit(s[0]));
        assert forall|i: int| 1 <= i < s.len() implies is_digit(#[trigger] s[i]) == is_digit(
            s.drop_first()[i - 1],
        ) by {}
        if number(s) is Some {
            assert forall|i: int| 1 <= i < s.len() implies is_digit(#[trigger] s[i]) by {
                assert(is_digit(s.drop_first()[i - 1]));
            }
        }
        assert(s.push(c).drop_first() =~= s.drop_first().push(c));
        assert(s.drop_first().push(c).drop_last() =~= s.drop_first());
    }
    assert(s.push(c).drop_last() =~= s);
    assert(seq![c].drop_last() =~= Seq::empty());
    reveal_with_fuel(digits_value, 2);
}

proof fn lemma_digits(s: Seq<char>)
    ensures
        digits_value(s) is Some <==> forall|i: int|
            0 <= i < s.len() ==> is_digit(#[trigger] s[i]),
    decreases s.len(),
{
    if s.len() > 0 {
        let init = s.drop_last();
        lemma_digits(init);
        assert(s[s.len() - 1] == s.last());
        assert(forall|i: int| 0 <= i < init.len() ==> #[trigger] init[i] == s[i]);
        if digits_value(s) is Some {
            assert forall|i: int| 0 <= i < s.len() implies is_digit(#[trigger] s[i]) by {
                if i < init.len() {
                    assert(is_digit(init[i]));
                }
            }
        }
    }
}

proof fn lemma_trim_start(w: Seq<char>, s: Seq<char>)
    requires
        forall|i: int| 0 <= i < w.len() ==> is_white_space(#[trigger] w[i]),
    ensures
        trim_start(w + s) == trim_start(s),
    decreases w.len(),
{
    if w.len() > 0 {
        assert((w + s)[0] == w[0]);
        assert((w + s).drop_first() =~= w.drop_first() + s);
        lemma_trim_start(w.drop_first(), s);
    } else {
        assert(w + s =~= s);
    }
}

proof fn lemma_trim_end(s: Seq<char>, w: Seq<char>)
    requires
        forall|i: int| 0 <= i < w.len() ==> is_white_space(#[trigger] w[i]),
    ensures
        trim_end(s + w) == trim_end(s),
    decreases w.len(),
{
    if w.len() > 0 {
        assert((s + w).last() == w[w.len() - 1]);
        assert((s + w).drop_last() =~= s + w.drop_last());
        lemma_trim_end(s, w.drop_last());
    } else {
        assert(s + w =~= s);
    }
}

/// Trimming drops the white space around a text and nothing of the text.
pub proof fn trimming_drops_outer_space(before: Seq<char>, s: Seq<char>, after: Seq<char>)
    requires
        forall|i: int| 0 <= i < before.len() ==> is_white_space(#[trigger] before[i]),
        forall|i: int| 0 <= i < after.len() ==> is_white_space(#[trigger] after[i]),
    ensures
        s.len() > 0 && !is_white_space(s[0]) && !is_white_space(s.last()) ==> trimmed(
            before + s + after,
        ) == s,
        trimmed(before + after) == Seq::<char>::empty(),
{
    assert(before + s + after =~= before + (s + after));
    lemma_trim_start(before, s + after);
    lemma_trim_start(before, after);
    lemma_trim_start(after, Seq::empty());
    assert(after + Seq::<char>::empty() =~= after);
    if s.len() > 0 && !is_white_space(s[0]) && !is_white_space(s.last()) {
        assert((s + after)[0] == s[0]);
        lemma_trim_end(s, after);
    }
}

/// What is left after trimming neither starts nor ends with white space.
pub proof fn trimmed_has_no_outer_space(s: Seq<char>)
    ensures
        trimmed(s).len() > 0 ==> !is_white_space(trimmed(s)[0]) && !is_white_space(
            trimmed(s).last(),
        ),
{
    lemma_start_is_trimmed(s);
    lemma_end_is_trimmed(trim_start(s));
}

proof fn lemma_start_is_trimmed(s: Seq<char>)
    ensures
        trim_start(s).len() > 0 ==> !is_white_space(trim_start(s)[0]),
    decreases s.len(),
{
    if s.len() > 0 && is_white_space(s[0]) {
        lemma_start_is_trimmed(s.drop_first());
    }
}

proof fn lemma_end_is_trimmed(s: Seq<char>)
    ensures
        trim_end(s).len() > 0 ==> !is_white_space(trim_end(s).last()) && trim_end(s)[0] == s[0],
    decreases s.len(),
{
    if s.len() > 0 && is_white_space(s.last()) {
        lemma_end_is_trimmed(s.drop_last());
    }
}

/// A text in 16-bit units is read character by character: one unit for most, a pair
/// of surrogates for the others; a surrogate without its partner spoils the text.
pub proof fn wide_text_is_read_by_characters(c: char, rest: Seq<u16>)
    ensures
        (c as u32) < 0x10000 ==> utf16_text(seq![c as u16] + rest) == (match utf16_text(rest) {
            Some(t) => Some(seq![c] + t),
            None => None,
        }),
        (c as u32) >= 0x10000 ==> utf16_text(
            seq![
                (0xD800 + (c as u32 - 0x10000) / 0x400) as u16,
                (0xDC00 + (c as u32 - 0x10000) % 0x400) as u16,
            ] + rest,
        ) == (match utf16_text(rest) {
            Some(t) => Some(seq![c] + t),
            None => None,
        }),
        utf16_text(Seq::empty()) == Some(Seq::<char>::empty()),
{
    if (c as u32) < 0x10000 {
        let s = seq![c as u16] + rest;
        assert(s.drop_first() =~= rest);
        assert(s[0] as char == c);
    } else {
        let v = c as u32 - 0x10000;
        let high = (0xD800 + v / 0x400) as u16;
        let low = (0xDC00 + v % 0x400) as u16;
        let s = seq![high, low] + rest;
        assert(s.skip(2) =~= rest);
        assert(0 <= v < 0x10_0000);
        assert(0xD800 <= high <= 0xDBFF && 0xDC00 <= low <= 0xDFFF);
        assert((high - 0xD800) * 0x400 + (low - 0xDC00) == v);
        assert(surrogate_pair(high, low) == c as u32);
        assert(surrogate_pair(high, low) as char == c);
    }
}

/// White space is what Unicode says it is, and nothing else.
pub proof fn white_space_is_these(c: char)
    ensures
        is_white_space(c) <==> 9 <= c as u32 <= 13 || c as u32 == 32 || c as u32 == 0x85 || c as u32
            == 0xa0 || c as u32 == 0x1680 || 0x2000 <= c as u32 <= 0x200a || c as u32 == 0x2028 || c
            as u32 == 0x2029 || c as u32 == 0x202f || c as u32 == 0x205f || c as u32 == 0x3000,
{
}

} // verus!
