//! Text handling: white space, lines, decimal numbers, and the passage between bytes,
//! characters and strings. Every result is stated over sequences of characters.

use vstd::arithmetic::power::pow;
use vstd::arithmetic::power::{lemma_pow0, lemma_pow1, lemma_pow_adds};
use vstd::prelude::*;
use vstd::slice::slice_subrange;
use vstd::utf8::{decode_utf8, valid_utf8};

verus! {

/// The characters with the Unicode property `White_Space`.
pub open spec fn white_space(c: char) -> bool {
    let n: u32 = c as u32;
    ||| 0x9 <= n <= 0xd
    ||| n == 0x20
    ||| n == 0x85
    ||| n == 0xa0
    ||| n == 0x1680
    ||| 0x2000 <= n <= 0x200a
    ||| n == 0x2028
    ||| n == 0x2029
    ||| n == 0x202f
    ||| n == 0x205f
    ||| n == 0x3000
}

/// `char::is_whitespace` tells whether a character has the Unicode property `White_Space`.
pub assume_specification[ char::is_whitespace ](c: char) -> (b: bool)
    ensures
        b == white_space(c),
;

/// `String::push` appends one character.
pub assume_specification[ String::push ](s: &mut String, c: char)
    ensures
        final(s)@ == old(s)@.push(c),
;

/// What `String::from_utf8_lossy` makes of a byte sequence.
pub uninterp spec fn lossy_utf8(bytes: Seq<u8>) -> Seq<char>;

/// `String::from_utf8_lossy` decodes UTF-8 and puts replacement characters where the bytes
/// are not valid. Where they are valid, it is plain decoding.
#[verifier::external_body]
pub(crate) fn from_utf8_lossy(bytes: &[u8]) -> (text: String)
    ensures
        text@ == lossy_utf8(bytes@),
        valid_utf8(bytes@) ==> text@ == decode_utf8(bytes@),
{
    String::from_utf8_lossy(bytes).into_owned()
}

/// `std::str::from_utf8` decodes valid UTF-8 and refuses everything else.
#[verifier::external_body]
pub(crate) fn from_utf8(bytes: &[u8]) -> (text: Option<String>)
    ensures
        match text {
            Some(s) => valid_utf8(bytes@) && s@ == decode_utf8(bytes@),
            None => !valid_utf8(bytes@),
        },
{
    std::str::from_utf8(bytes).ok().map(String::from)
}

/// What `str::to_lowercase` makes of a text.
pub uninterp spec fn lowercase(text: Seq<char>) -> Seq<char>;

/// `str::to_lowercase` maps a text to lower case by the Unicode tables.
#[verifier::external_body]
pub(crate) fn to_lowercase(text: &str) -> (lower: String)
    ensures
        lower@ == lowercase(text@),
{
    text.to_lowercase()
}

/// The characters of a text.
pub fn chars_of(text: &str) -> (chars: Vec<char>)
    ensures
        chars@ == text@,
{
    let mut chars: Vec<char> = Vec::new();
    for c in it: text.chars()
        invariant
            it.seq() == text@,
            chars@ == text@.take(it.index()),
    {
        chars.push(c);
        assert(text@.take(it.index() + 1) =~= text@.take(it.index()).push(c));
    }
    assert(text@.take(text@.len() as int) =~= text@);
    chars
}

/// The text that consists of the given characters.
pub fn string_of(chars: &[char]) -> (text: String)
    ensures
        text@ == chars@,
{
    let mut text = String::new();
    let mut i: usize = 0;
    while i < chars.len()
        invariant
            i <= chars@.len(),
            text@ == chars@.take(i as int),
        decreases chars@.len() - i,
    {
        text.push(chars[i]);
        assert(chars@.take(i + 1) =~= chars@.take(i as int).push(chars@[i as int]));
        i += 1;
    }
    assert(chars@.take(chars@.len() as int) =~= chars@);
    text
}

/// A text without its leading white space.
pub open spec fn trimmed_start(s: Seq<char>) -> Seq<char>
    decreases s.len(),
{
    if s.len() > 0 && white_space(s[0]) {
        trimmed_start(s.drop_first())
    } else {
        s
    }
}

/// A text without its trailing white space.
pub open spec fn trimmed_end(s: Seq<char>) -> Seq<char>
    decreases s.len(),
{
    if s.len() > 0 && white_space(s.last()) {
        trimmed_end(s.drop_last())
    } else {
        s
    }
}

/// A text without white space at its two ends.
pub open spec fn trimmed(s: Seq<char>) -> Seq<char> {
    trimmed_end(trimmed_start(s))
}

/// Drops leading white space.
pub fn trim_start(s: &[char]) -> (r: &[char])
    ensures
        r@ == trimmed_start(s@),
{
    let mut i: usize = 0;
    assert(s@.skip(0) =~= s@);
    while i < s.len() && s[i].is_whitespace()
        invariant
            i <= s@.len(),
            trimmed_start(s@.skip(i as int)) == trimmed_start(s@),
        decreases s@.len() - i,
    {
        assert(s@.skip(i as int).drop_first() =~= s@.skip(i + 1));
        i += 1;
    }
    assert(s@.skip(i as int) =~= s@.subrange(i as int, s@.len() as int));
    slice_subrange(s, i, s.len())
}

/// Drops white space at both ends.
pub fn trim(s: &[char]) -> (r: &[char])
    ensures
        r@ == trimmed(s@),
{
    let t = trim_start(s);
    let mut n: usize = t.len();
    assert(t@.take(n as int) =~= t@);
    while n > 0 && t[n - 1].is_whitespace()
        invariant
            n <= t@.len(),
            trimmed_end(t@.take(n as int)) == trimmed_end(t@),
        decreases n,
    {
        assert(t@.take(n as int).drop_last() =~= t@.take(n - 1));
        n -= 1;
    }
    assert(t@.take(n as int) =~= t@.subrange(0, n as int));
    slice_subrange(t, 0, n)
}

/// Where the first line feed of a text stands; the length of the text if it has none.
pub open spec fn line_feed(s: Seq<char>) -> nat
    decreases s.len(),
{
    if s.len() == 0 || s[0] == '\n' {
        0
    } else {
        1 + line_feed(s.drop_first())
    }
}

/// A line without the carriage return that stands before its line feed.
pub open spec fn without_return(line: Seq<char>) -> Seq<char> {
    if line.len() > 0 && line.last() == '\r' {
        line.drop_last()
    } else {
        line
    }
}

/// The lines of a text. A line ends with a line feed, or with a carriage return and a line
/// feed; the last line need not be ended.
pub open spec fn text_lines(s: Seq<char>) -> Seq<Seq<char>>
    decreases s.len(),
{
    let n = line_feed(s) as int;
    if s.len() == 0 {
        seq![]
    } else if n < s.len() {
        seq![without_return(s.take(n))] + text_lines(s.skip(n + 1))
    } else {
        seq![s]
    }
}

/// A line feed is found within the text or not at all.
pub proof fn lemma_line_feed(s: Seq<char>)
    ensures
        line_feed(s) <= s.len(),
        line_feed(s) < s.len() ==> s[line_feed(s) as int] == '\n',
        forall|i: int| 0 <= i < line_feed(s) ==> s[i] != '\n',
    decreases s.len(),
{
    if s.len() > 0 && s[0] != '\n' {
        lemma_line_feed(s.drop_first());
        assert forall|i: int| 0 <= i < line_feed(s) implies s[i] != '\n' by {
            if i > 0 {
                assert(s.drop_first()[i - 1] == s[i]);
            }
        }
    }
}

/// Where the first line feed at or behind `from` stands.
pub fn find_line_feed(s: &[char], from: usize) -> (n: usize)
    requires
        from <= s@.len(),
    ensures
        from <= n <= s@.len(),
        n == from + line_feed(s@.skip(from as int)),
{
    let mut n: usize = from;
    while n < s.len() && s[n] != '\n'
        invariant
            from <= n <= s@.len(),
            n + line_feed(s@.skip(n as int)) == from + line_feed(s@.skip(from as int)),
        decreases s@.len() - n,
    {
        assert(s@.skip(n as int).drop_first() =~= s@.skip(n + 1));
        n += 1;
    }
    n
}

/// The contents of a list of slices.
pub open spec fn slices(list: Seq<&[char]>) -> Seq<Seq<char>> {
    list.map_values(|s: &[char]| s@)
}

/// Splits a text into its lines.
pub fn lines(s: &[char]) -> (list: Vec<&[char]>)
    ensures
        slices(list@) == text_lines(s@),
{
    let mut list: Vec<&[char]> = Vec::new();
    let mut from: usize = 0;
    assert(s@.skip(0) =~= s@);
    assert(slices(list@) + text_lines(s@) =~= text_lines(s@));
    while from < s.len()
        invariant
            from <= s@.len(),
            slices(list@) + text_lines(s@.skip(from as int)) == text_lines(s@),
        decreases s@.len() - from,
    {
        let n = find_line_feed(s, from);
        let ghost rest = s@.skip(from as int);
        let ghost before = slices(list@);
        proof {
            lemma_line_feed(rest);
        }
        if n == s.len() {
            list.push(slice_subrange(s, from, n));
            assert(s@.subrange(from as int, n as int) =~= rest);
            assert(slices(list@) =~= before.push(rest));
            assert(text_lines(s@.skip(n as int)) =~= seq![]);
            assert(before + seq![rest] =~= slices(list@) + text_lines(s@.skip(n as int)));
            from = n;
        } else {
            let end: usize = if n > from && s[n - 1] == '\r' { n - 1 } else { n };
            list.push(slice_subrange(s, from, end));
            proof {
                let line = rest.take(n - from);
                assert(line.len() > 0 ==> line.last() == s@[n - 1]);
                assert(s@.subrange(from as int, end as int) =~= without_return(line));
                assert(slices(list@) =~= before.push(without_return(line)));
                assert(rest.skip(n - from + 1) =~= s@.skip(n + 1));
                assert(before + (seq![without_return(line)] + text_lines(s@.skip(n + 1)))
                    =~= slices(list@) + text_lines(s@.skip(n + 1)));
            }
            from = n + 1;
        }
    }
    assert(s@.skip(from as int) =~= seq![]);
    assert(slices(list@) + text_lines(s@.skip(from as int)) =~= slices(list@));
    list
}

/// Whether a text begins with a given prefix.
pub open spec fn has_prefix(s: Seq<char>, prefix: Seq<char>) -> bool {
    prefix.len() <= s.len() && s.take(prefix.len() as int) == prefix
}

/// The rest of a text behind two given characters, where it begins with them.
pub fn strip_pair(s: &[char], first: char, second: char) -> (rest: Option<&[char]>)
    ensures
        match rest {
            Some(r) => has_prefix(s@, seq![first, second]) && r@ == s@.skip(2),
            None => !has_prefix(s@, seq![first, second]),
        },
{
    if s.len() >= 2 && s[0] == first && s[1] == second {
        assert(s@.take(2) =~= seq![first, second]);
        assert(s@.skip(2) =~= s@.subrange(2, s@.len() as int));
        Some(slice_subrange(s, 2, s.len()))
    } else {
        proof {
            if has_prefix(s@, seq![first, second]) {
                assert(s@.take(2)[0] == first && s@.take(2)[1] == second);
            }
        }
        None
    }
}

/// Where a text first occurs in another, at or behind `from`.
pub open spec fn find_text(s: Seq<char>, needle: Seq<char>, from: int) -> Option<int>
    decreases s.len() + 1 - from,
{
    if from + needle.len() > s.len() {
        None
    } else if s.subrange(from, from + needle.len()) == needle {
        Some(from)
    } else {
        find_text(s, needle, from + 1)
    }
}

/// Finds the first occurrence of a text.
pub fn find(s: &[char], needle: &[char]) -> (at: Option<usize>)
    ensures
        match at {
            Some(i) => find_text(s@, needle@, 0) == Some(i as int) && i + needle@.len() <= s@.len(),
            None => find_text(s@, needle@, 0) is None,
        },
{
    let len: usize = s.len();
    let mut i: usize = 0;
    while i <= len && needle.len() <= len - i
        invariant
            len == s@.len(),
            i <= s@.len() + 1,
            find_text(s@, needle@, i as int) == find_text(s@, needle@, 0),
        decreases s@.len() + 1 - i,
    {
        let mut k: usize = 0;
        while k < needle.len() && s[i + k] == needle[k]
            invariant
                len == s@.len(),
                i + needle@.len() <= s@.len(),
                k <= needle@.len(),
                forall|j: int| 0 <= j < k ==> s@[i + j] == needle@[j],
            decreases needle@.len() - k,
        {
            k += 1;
        }
        if k == needle.len() {
            assert(s@.subrange(i as int, i + needle@.len()) =~= needle@);
            return Some(i);
        }
        assert(s@.subrange(i as int, i + needle@.len())[k as int] != needle@[k as int]);
        if i == len {
            return None;
        }
        i += 1;
    }
    None
}

/// A character that is a decimal digit.
pub open spec fn is_digit(c: char) -> bool {
    '0' <= c <= '9'
}

/// The number that a row of decimal digits denotes.
pub open spec fn digits_value(s: Seq<char>) -> nat
    decreases s.len(),
{
    if s.len() == 0 {
        0
    } else {
        digits_value(s.drop_last()) * 10 + (s.last() as u32 - '0' as u32) as nat
    }
}

/// What follows an optional plus sign.
pub open spec fn unsigned_part(s: Seq<char>) -> Seq<char> {
    if s.len() > 0 && s[0] == '+' {
        s.skip(1)
    } else {
        s
    }
}

/// A text that denotes a 32-bit number: an optional plus sign and at least one digit, nothing
/// else, and a value within range.
pub open spec fn denotes_u32(s: Seq<char>) -> bool {
    let digits = unsigned_part(s);
    &&& digits.len() > 0
    &&& forall|i: int| 0 <= i < digits.len() ==> is_digit(#[trigger] digits[i])
    &&& digits_value(digits) <= u32::MAX
}

/// The 32-bit number that a text denotes, if it denotes one.
pub open spec fn u32_of(s: Seq<char>) -> Option<u32> {
    if denotes_u32(s) {
        Some(digits_value(unsigned_part(s)) as u32)
    } else {
        None
    }
}

/// A row of digits denotes at least what its beginning denotes.
proof fn lemma_digits_grow(s: Seq<char>, n: int)
    requires
        0 <= n <= s.len(),
        forall|i: int| 0 <= i < s.len() ==> is_digit(#[trigger] s[i]),
    ensures
        digits_value(s.take(n)) <= digits_value(s),
    decreases s.len() - n,
{
    if n < s.len() {
        lemma_digits_grow(s, n + 1);
        assert(s.take(n + 1).drop_last() =~= s.take(n));
        assert(s.take(n + 1).last() == s[n]);
        assert(is_digit(s[n]));
    } else {
        assert(s.take(n) =~= s);
    }
}

/// Reads a 32-bit number.
pub fn parse_u32(s: &[char]) -> (number: Option<u32>)
    ensures
        number == u32_of(s@),
{
    let start: usize = if s.len() > 0 && s[0] == '+' { 1 } else { 0 };
    let ghost digits = unsigned_part(s@);
    assert(digits =~= s@.skip(start as int));
    if start == s.len() {
        return None;
    }
    let mut value: u32 = 0;
    let mut i: usize = start;
    assert(digits.take(0) =~= seq![]);
    while i < s.len()
        invariant
            start <= i <= s@.len(),
            start < s@.len(),
            digits == unsigned_part(s@),
            digits == s@.skip(start as int),
            forall|j: int| 0 <= j < i - start ==> is_digit(#[trigger] digits[j]),
            value == digits_value(digits.take(i - start)),
        decreases s@.len() - i,
    {
        let c = s[i];
        assert(digits[i - start] == c);
        if c < '0' || c > '9' {
            return None;
        }
        let d: u32 = c as u32 - '0' as u32;
        proof {
            assert(digits.take(i + 1 - start).drop_last() =~= digits.take(i - start));
            assert(digits.take(i + 1 - start).last() == c);
            if denotes_u32(s@) {
                lemma_digits_grow(digits, i + 1 - start);
            }
        }
        match value.checked_mul(10) {
            Some(tens) => {
                match tens.checked_add(d) {
                    Some(next) => {
                        value = next;
                    },
                    None => {
                        return None;
                    },
                }
            },
            None => {
                return None;
            },
        }
        i += 1;
    }
    assert(digits.take(i - start) =~= digits);
    Some(value)
}

/// The decimal digit of a number below ten.
pub open spec fn digit_char(d: nat) -> char {
    (d + '0' as u32) as char
}

/// A number in decimal notation.
pub open spec fn decimal(n: nat) -> Seq<char>
    decreases n,
{
    if n < 10 {
        seq![digit_char(n)]
    } else {
        decimal(n / 10).push(digit_char(n % 10))
    }
}

/// Appends a number in decimal notation.
pub fn push_decimal(text: &mut String, n: u64)
    ensures
        final(text)@ == old(text)@ + decimal(n as nat),
    decreases n,
{
    if n >= 10 {
        push_decimal(text, n / 10);
    }
    let d: u8 = (n % 10) as u8;
    let c: char = (48u8 + d) as char;
    text.push(c);
    assert(c == digit_char((n % 10) as nat));
    if n < 10 {
        assert(old(text)@ + decimal(n as nat) =~= old(text)@.push(c));
    } else {
        assert(old(text)@ + decimal((n / 10) as nat).push(c) =~= (old(text)@ + decimal((n / 10) as nat)).push(c));
    }
}

/// Decimal notation is read back as the number that was written.
pub proof fn law_decimal_reads_back(n: u32)
    ensures
        u32_of(decimal(n as nat)) == Some(n),
{
    lemma_decimal(n as nat);
}

/// Decimal notation is a row of digits that denotes the number.
pub proof fn lemma_decimal(n: nat)
    ensures
        decimal(n).len() > 0,
        forall|i: int| 0 <= i < decimal(n).len() ==> is_digit(#[trigger] decimal(n)[i]),
        digits_value(decimal(n)) == n,
    decreases n,
{
    reveal_with_fuel(digits_value, 2);
    let s = decimal(n);
    if n >= 10 {
        lemma_decimal(n / 10);
        assert(s.drop_last() =~= decimal(n / 10));
    } else {
        assert(s.drop_last() =~= seq![]);
    }
    assert(s.last() == digit_char(n % 10));
    assert(s.last() as u32 - '0' as u32 == n % 10);
}

/// A zero in front of a row of digits does not count.
proof fn lemma_leading_zero(s: Seq<char>)
    requires
        s.len() > 0,
        s[0] == '0',
    ensures
        digits_value(s.drop_first()) == digits_value(s),
    decreases s.len(),
{
    reveal_with_fuel(digits_value, 2);
    if s.len() > 1 {
        lemma_leading_zero(s.drop_last());
        assert(s.drop_last().drop_first() =~= s.drop_first().drop_last());
    } else {
        assert(s.drop_last() =~= seq![]);
        assert(s.drop_first() =~= seq![]);
    }
}

/// A row of digits that does not begin with a superfluous zero is decimal notation.
proof fn lemma_is_decimal(s: Seq<char>)
    requires
        s.len() > 0,
        forall|i: int| 0 <= i < s.len() ==> is_digit(#[trigger] s[i]),
        s.len() == 1 || s[0] != '0',
    ensures
        decimal(digits_value(s)) == s,
        s[0] != '0' ==> digits_value(s) > 0,
    decreases s.len(),
{
    let d = (s.last() as u32 - '0' as u32) as nat;
    assert(is_digit(s[s.len() - 1]));
    assert(digit_char(d) == s.last());
    if s.len() == 1 {
        assert(digits_value(s.drop_last()) == 0);
        assert(decimal(digits_value(s)) =~= s);
    } else {
        let init = s.drop_last();
        assert(init[0] == s[0]);
        lemma_is_decimal(init);
        assert(decimal(digits_value(s)) =~= init.push(s.last()));
        assert(init.push(s.last()) =~= s);
    }
}

/// Drops superfluous zeros in front of a row of digits.
pub fn plain_digits(s: &[char]) -> (r: &[char])
    requires
        s@.len() > 0,
        forall|i: int| 0 <= i < s@.len() ==> is_digit(#[trigger] s@[i]),
    ensures
        r@ == decimal(digits_value(s@)),
{
    let mut n: usize = 0;
    assert(s@.skip(0) =~= s@);
    while n < s.len() - 1 && s[n] == '0'
        invariant
            n < s@.len(),
            digits_value(s@.skip(n as int)) == digits_value(s@),
        decreases s@.len() - n,
    {
        proof {
            lemma_leading_zero(s@.skip(n as int));
            assert(s@.skip(n as int).drop_first() =~= s@.skip(n + 1));
        }
        n += 1;
    }
    let ghost rest = s@.skip(n as int);
    assert(rest =~= s@.subrange(n as int, s@.len() as int));
    proof {
        assert forall|i: int| 0 <= i < rest.len() implies is_digit(#[trigger] rest[i]) by {
            assert(is_digit(s@[i + n]));
        }
        lemma_is_decimal(rest);
    }
    slice_subrange(s, n, s.len())
}

/// Whether a text is made of white space only.
pub open spec fn all_white(s: Seq<char>) -> bool {
    forall|i: int| 0 <= i < s.len() ==> white_space(#[trigger] s[i])
}

/// Whether a text has no white space at its ends.
pub open spec fn bare(s: Seq<char>) -> bool {
    s.len() > 0 ==> !white_space(s[0]) && !white_space(s.last())
}

/// White space in front of a text that begins otherwise, or of nothing, is dropped.
pub proof fn lemma_trimmed_start(before: Seq<char>, text: Seq<char>)
    requires
        all_white(before),
        text.len() > 0 ==> !white_space(text[0]),
    ensures
        trimmed_start(before + text) == text,
    decreases before.len(),
{
    if before.len() > 0 {
        let rest = before.drop_first();
        assert((before + text)[0] == before[0]);
        assert((before + text).drop_first() =~= rest + text);
        assert forall|i: int| 0 <= i < rest.len() implies white_space(#[trigger] rest[i]) by {
            assert(rest[i] == before[i + 1]);
        }
        lemma_trimmed_start(rest, text);
    } else {
        assert(before + text =~= text);
    }
}

/// White space behind a text that ends otherwise, or behind nothing, is dropped.
pub proof fn lemma_trimmed_end(text: Seq<char>, after: Seq<char>)
    requires
        all_white(after),
        text.len() > 0 ==> !white_space(text.last()),
    ensures
        trimmed_end(text + after) == text,
    decreases after.len(),
{
    if after.len() > 0 {
        let rest = after.drop_last();
        assert((text + after).last() == after[after.len() - 1]);
        assert((text + after).drop_last() =~= text + rest);
        assert forall|i: int| 0 <= i < rest.len() implies white_space(#[trigger] rest[i]) by {
            assert(rest[i] == after[i]);
        }
        lemma_trimmed_end(text, rest);
    } else {
        assert(text + after =~= text);
    }
}

/// White space around a text is dropped, and nothing of the text.
pub proof fn lemma_trimmed(before: Seq<char>, text: Seq<char>, after: Seq<char>)
    requires
        all_white(before),
        bare(text),
        all_white(after),
    ensures
        trimmed(before + text + after) == text,
{
    if text.len() > 0 {
        assert(before + text + after =~= before + (text + after));
        assert((text + after)[0] == text[0]);
        lemma_trimmed_start(before, text + after);
    } else {
        assert forall|i: int| 0 <= i < (before + after).len() implies white_space(
            #[trigger] (before + after)[i],
        ) by {
            if i < before.len() {
                assert(before[i] == (before + after)[i]);
            } else {
                assert(after[i - before.len()] == (before + after)[i]);
            }
        }
        assert(before + text + after =~= (before + after) + seq![]);
        lemma_trimmed_start(before + after, seq![]);
        assert(text =~= seq![]);
        assert(seq![] + Seq::<char>::empty() =~= Seq::<char>::empty());
        lemma_trimmed_end(seq![], seq![]);
    }
    if text.len() > 0 {
        lemma_trimmed_end(text, after);
    }
}

/// Trimming drops the white space around a text and leaves the text whole, however long it is.
pub proof fn law_trim_keeps_text(s: &[char], r: &[char], before: Seq<char>, text: Seq<char>, after: Seq<char>)
    requires
        call_ensures(trim, (s,), r),
        s@ == before + text + after,
        all_white(before),
        bare(text),
        all_white(after),
    ensures
        r@ == text,
{
    lemma_trimmed(before, text, after);
}

/// Trimming the start drops the white space in front of a text and nothing else.
pub proof fn law_trim_start_keeps_text(s: &[char], r: &[char], before: Seq<char>, text: Seq<char>)
    requires
        call_ensures(trim_start, (s,), r),
        s@ == before + text,
        all_white(before),
        text.len() > 0 ==> !white_space(text[0]),
    ensures
        r@ == text,
{
    lemma_trimmed_start(before, text);
}

/// Lines one behind the other, each ended by a line feed.
pub open spec fn ended_lines(list: Seq<Seq<char>>) -> Seq<char>
    decreases list.len(),
{
    if list.len() == 0 {
        seq![]
    } else {
        list[0] + seq!['\n'] + ended_lines(list.skip(1))
    }
}

/// Whether a text is a line: it holds no line feed and does not end in a carriage return.
pub open spec fn is_line(s: Seq<char>) -> bool {
    !s.contains('\n') && (s.len() > 0 ==> s.last() != '\r')
}

/// The first line of a text ends at its line feed; a carriage return before that is dropped.
pub proof fn lemma_first_line(line: Seq<char>, rest: Seq<char>)
    requires
        is_line(line),
    ensures
        text_lines(line + seq!['\n'] + rest) == seq![line] + text_lines(rest),
        text_lines(line + seq!['\r', '\n'] + rest) == seq![line] + text_lines(rest),
{
    let s = line + seq!['\n'] + rest;
    lemma_line_feed(s);
    let n = line.len() as int;
    assert(s[n] == '\n');
    if line_feed(s) < n {
        assert(line.contains(line[line_feed(s) as int]));
    }
    assert(line_feed(s) == n);
    assert(s.take(n) =~= line);
    assert(s.skip(n + 1) =~= rest);
    let t = line + seq!['\r', '\n'] + rest;
    lemma_line_feed(t);
    assert(t[n] == '\r' && t[n + 1] == '\n');
    if line_feed(t) < n {
        assert(line.contains(line[line_feed(t) as int]));
    }
    assert(line_feed(t) == n + 1);
    assert(t.take(n + 1) =~= line.push('\r'));
    assert(line.push('\r').drop_last() =~= line);
    assert(t.skip(n + 2) =~= rest);
}

/// Lines that are written are the lines that are read.
pub proof fn lemma_lines_read(list: Seq<Seq<char>>, last: Seq<char>)
    requires
        forall|i: int| 0 <= i < list.len() ==> is_line(#[trigger] list[i]),
        !last.contains('\n'),
    ensures
        text_lines(ended_lines(list) + last) == if last.len() > 0 {
            list.push(last)
        } else {
            list
        },
    decreases list.len(),
{
    if list.len() == 0 {
        assert(ended_lines(list) + last =~= last);
        lemma_line_feed(last);
        if last.len() > 0 {
            if line_feed(last) < last.len() {
                assert(last.contains(last[line_feed(last) as int]));
            }
            assert(text_lines(last) =~= list.push(last));
        } else {
            assert(text_lines(last) =~= list);
        }
    } else {
        let rest = list.skip(1);
        assert(is_line(list[0]));
        assert forall|i: int| 0 <= i < rest.len() implies is_line(#[trigger] rest[i]) by {
            assert(rest[i] == list[i + 1]);
        }
        lemma_lines_read(rest, last);
        lemma_first_line(list[0], ended_lines(rest) + last);
        assert(ended_lines(list) + last =~= list[0] + seq!['\n'] + (ended_lines(rest) + last));
        assert(seq![list[0]] + rest =~= list);
        assert(seq![list[0]] + rest.push(last) =~= list.push(last));
    }
}

/// Lines that are written one behind the other are read back, all of them and whole; the last
/// one need not be ended.
pub proof fn law_lines_read_back(s: &[char], r: Vec<&[char]>, list: Seq<Seq<char>>, last: Seq<char>)
    requires
        call_ensures(lines, (s,), r),
        s@ == ended_lines(list) + last,
        forall|i: int| 0 <= i < list.len() ==> is_line(#[trigger] list[i]),
        !last.contains('\n'),
    ensures
        r@.len() == list.len() + if last.len() > 0 { 1nat } else { 0nat },
        forall|i: int| 0 <= i < list.len() ==> (#[trigger] r@[i])@ == list[i],
        last.len() > 0 ==> r@[r@.len() - 1]@ == last,
{
    lemma_lines_read(list, last);
    assert(slices(r@).len() == r@.len());
    assert forall|i: int| 0 <= i < r@.len() implies (#[trigger] r@[i])@ == slices(r@)[i] by {}
}

/// Lines may also end with a carriage return and a line feed.
pub proof fn law_lines_with_returns(s: &[char], r: Vec<&[char]>, t: &[char], q: Vec<&[char]>, line: Seq<char>, rest: Seq<char>)
    requires
        call_ensures(lines, (s,), r),
        call_ensures(lines, (t,), q),
        s@ == line + seq!['\r', '\n'] + rest,
        t@ == line + seq!['\n'] + rest,
        is_line(line),
    ensures
        slices(r@) == slices(q@),
        r@.len() > 0 && r@[0]@ == line,
{
    lemma_first_line(line, rest);
    assert(slices(r@).len() == r@.len());
    assert((seq![line] + text_lines(rest)).len() > 0);
    assert(slices(r@)[0] == r@[0]@);
}

/// The number that a row of digits denotes by the places of its digits.
pub open spec fn place_value(s: Seq<char>) -> int
    decreases s.len(),
{
    if s.len() == 0 {
        0
    } else {
        (s[0] as u32 - '0' as u32) * pow(10, (s.len() - 1) as nat) + place_value(s.skip(1))
    }
}

/// The first digit counts by its place.
proof fn lemma_first_digit(s: Seq<char>)
    requires
        s.len() > 0,
        forall|i: int| 0 <= i < s.len() ==> is_digit(#[trigger] s[i]),
    ensures
        digits_value(s) == (s[0] as u32 - '0' as u32) * pow(10, (s.len() - 1) as nat) + digits_value(s.skip(1)),
    decreases s.len(),
{
    reveal_with_fuel(digits_value, 2);
    let d = s[0] as u32 - '0' as u32;
    assert(is_digit(s[0]));
    if s.len() == 1 {
        lemma_pow0(10);
        assert(s.drop_last() =~= seq![]);
        assert(s.skip(1) =~= seq![]);
    } else {
        let init = s.drop_last();
        assert(is_digit(s[s.len() - 1]));
        assert forall|i: int| 0 <= i < init.len() implies is_digit(#[trigger] init[i]) by {
            assert(init[i] == s[i]);
        }
        lemma_first_digit(init);
        assert(init.skip(1) =~= s.skip(1).drop_last());
        assert(s.skip(1).last() == s.last());
        let p = pow(10, (init.len() - 1) as nat);
        lemma_pow_adds(10, 1, (init.len() - 1) as nat);
        lemma_pow1(10);
        assert(pow(10, (s.len() - 1) as nat) == 10 * p);
        assert((d * p) * 10 == d * (10 * p)) by (nonlinear_arith);
    }
}

/// Digits count by their places.
pub proof fn lemma_place_value(s: Seq<char>)
    requires
        forall|i: int| 0 <= i < s.len() ==> is_digit(#[trigger] s[i]),
    ensures
        digits_value(s) == place_value(s),
    decreases s.len(),
{
    if s.len() > 0 {
        lemma_first_digit(s);
        let rest = s.skip(1);
        assert forall|i: int| 0 <= i < rest.len() implies is_digit(#[trigger] rest[i]) by {
            assert(rest[i] == s[i + 1]);
        }
        lemma_place_value(rest);
    }
}

/// Decimal notation does not begin with a superfluous zero.
proof fn lemma_no_zero_first(n: nat)
    ensures
        n > 0 ==> decimal(n)[0] != '0',
    decreases n,
{
    lemma_decimal(n);
    if n >= 10 {
        lemma_no_zero_first(n / 10);
        lemma_decimal(n / 10);
        assert(decimal(n)[0] == decimal(n / 10)[0]);
    }
}

/// A number is appended in decimal notation: digits that denote it by their places, without a
/// superfluous zero. What was there stays.
pub proof fn law_decimal_written(text: &mut String, n: u64)
    requires
        call_ensures(push_decimal, (text, n), ()),
    ensures
        ({
            let start = old(text)@.len() as int;
            let digits = final(text)@.skip(start);
            &&& start <= final(text)@.len()
            &&& final(text)@.take(start) == old(text)@
            &&& digits.len() > 0
            &&& forall|i: int| 0 <= i < digits.len() ==> is_digit(#[trigger] digits[i])
            &&& place_value(digits) == n
            &&& n > 0 ==> digits[0] != '0'
            &&& n == 0 ==> digits.len() == 1
        }),
{
    let start = old(text)@.len() as int;
    lemma_decimal(n as nat);
    lemma_place_value(decimal(n as nat));
    lemma_no_zero_first(n as nat);
    assert(final(text)@.skip(start) =~= decimal(n as nat));
    assert(final(text)@.take(start) =~= old(text)@);
}

/// A number is read exactly from an optional plus sign and digits that denote, by their places,
/// a value within range.
pub proof fn law_number_read(s: &[char], number: Option<u32>, digits: Seq<char>)
    requires
        call_ensures(parse_u32, (s,), number),
        s@ == digits && (digits.len() > 0 ==> digits[0] != '+') || s@ == seq!['+'] + digits,
    ensures
        number is Some <==> {
            &&& digits.len() > 0
            &&& forall|i: int| 0 <= i < digits.len() ==> is_digit(#[trigger] digits[i])
            &&& place_value(digits) <= u32::MAX
        },
        number is Some ==> number->0 == place_value(digits),
{
    assert(unsigned_part(s@) =~= digits);
    if forall|i: int| 0 <= i < digits.len() ==> is_digit(#[trigger] digits[i]) {
        lemma_place_value(digits);
    }
}

/// A text is found where it first occurs, and only there.
pub proof fn lemma_find_text(s: Seq<char>, needle: Seq<char>, from: int)
    requires
        0 <= from <= s.len() + 1,
    ensures
        match find_text(s, needle, from) {
            Some(i) => {
                &&& from <= i <= s.len() - needle.len()
                &&& s.subrange(i, i + needle.len()) == needle
                &&& forall|j: int| from <= j < i ==> #[trigger] s.subrange(j, j + needle.len()) != needle
            },
            None => forall|j: int|
                from <= j <= s.len() - needle.len() ==> #[trigger] s.subrange(j, j + needle.len()) != needle,
        },
    decreases s.len() + 1 - from,
{
    if from + needle.len() <= s.len() && s.subrange(from, from + needle.len()) != needle {
        lemma_find_text(s, needle, from + 1);
    }
}

/// The search finds the first occurrence, and finds one wherever there is one.
pub proof fn law_find_first(s: &[char], needle: &[char], at: Option<usize>)
    requires
        call_ensures(find, (s, needle), at),
    ensures
        match at {
            Some(i) => {
                &&& i + needle@.len() <= s@.len()
                &&& s@.subrange(i as int, i + needle@.len()) == needle@
                &&& forall|j: int| 0 <= j < i ==> #[trigger] s@.subrange(j, j + needle@.len()) != needle@
            },
            None => forall|j: int|
                0 <= j <= s@.len() - needle@.len() ==> #[trigger] s@.subrange(j, j + needle@.len()) != needle@,
        },
{
    lemma_find_text(s@, needle@, 0);
}

/// What follows two given characters is handed back whole; a text that does not begin with them
/// is refused.
pub proof fn law_pair_stripped(s: &[char], first: char, second: char, rest: Option<&[char]>)
    requires
        call_ensures(strip_pair, (s, first, second), rest),
    ensures
        rest is Some <==> s@.len() >= 2 && s@[0] == first && s@[1] == second,
        rest is Some ==> s@ == seq![first, second] + rest->0@,
{
    if s@.len() >= 2 {
        assert(s@.take(2)[0] == s@[0] && s@.take(2)[1] == s@[1]);
        if s@[0] == first && s@[1] == second {
            assert(s@.take(2) =~= seq![first, second]);
        }
    }
    if rest is Some {
        assert(s@ =~= s@.take(2) + s@.skip(2));
    }
}

} // verus!
