//! Text as characters: decimal and hexadecimal numbers, and their parsing.

use vstd::prelude::*;
use vstd::slice::*;
use vstd::string::*;
use vstd::utf8::*;

verus! {

/// `String::push` appends one character.
pub assume_specification[ String::push ](s: &mut String, ch: char)
    ensures
        final(s)@ == old(s)@.push(ch),
;

/// The text of `s` as `{:?}` writes it.
pub uninterp spec fn quoted_text(s: Seq<char>) -> Seq<char>;

/// `str`'s `Debug` puts the text in double quotes and escapes in it what needs
/// escaping. The contract names the result and says nothing of its characters.
#[verifier::external_body]
pub(crate) fn quoted(s: &str) -> (r: String)
    ensures
        r@ == quoted_text(s@),
{
    format!("{s:?}")
}

/// The text that bytes hold, with a replacement character for what is not UTF-8.
pub uninterp spec fn lossy_text(bytes: Seq<u8>) -> Seq<char>;

/// `String::from_utf8_lossy`: the text of bytes that are valid UTF-8, and one
/// with replacement characters for other bytes. The contract names the result,
/// and says what it is for valid bytes.
#[verifier::external_body]
pub(crate) fn text_lossy(bytes: &[u8]) -> (r: String)
    ensures
        r@ == lossy_text(bytes@),
        valid_utf8(bytes@) ==> r@ == decode_utf8(bytes@),
{
    String::from_utf8_lossy(bytes).into_owned()
}

/// The character of one hexadecimal digit, in lower case.
pub open spec fn digit_char(d: nat) -> char {
    if d < 10 {
        (d + 48) as char
    } else {
        (d + 87) as char
    }
}

/// The decimal text of `n`, without leading zeros.
pub open spec fn decimal(n: nat) -> Seq<char>
    decreases n,
{
    if n < 10 {
        seq![digit_char(n)]
    } else {
        decimal(n / 10).push(digit_char(n % 10))
    }
}

/// The decimal text of a signed number.
pub open spec fn signed_decimal(n: int) -> Seq<char> {
    if n < 0 {
        seq!['-'] + decimal((-n) as nat)
    } else {
        decimal(n as nat)
    }
}

/// The last `width` decimal digits of `n`.
pub open spec fn padded(n: nat, width: nat) -> Seq<char>
    decreases width,
{
    if width == 0 {
        Seq::empty()
    } else {
        padded(n / 10, (width - 1) as nat).push(digit_char(n % 10))
    }
}

/// The last `width` hexadecimal digits of `n`.
pub open spec fn hex(n: nat, width: nat) -> Seq<char>
    decreases width,
{
    if width == 0 {
        Seq::empty()
    } else {
        hex(n / 16, (width - 1) as nat).push(digit_char(n % 16))
    }
}

/// The hexadecimal text of `n`, without leading zeros.
pub open spec fn hex_text(n: nat) -> Seq<char>
    decreases n,
{
    if n < 16 {
        seq![digit_char(n)]
    } else {
        hex_text(n / 16).push(digit_char(n % 16))
    }
}

fn push_digit(out: &mut String, d: u64)
    requires
        d < 16,
    ensures
        final(out)@ == old(out)@.push(digit_char(d as nat)),
{
    let c: u8 = if d < 10 {
        48 + d as u8
    } else {
        87 + d as u8
    };
    out.push(c as char);
}

/// Appends the decimal text of `n`.
pub fn push_decimal(out: &mut String, n: u64)
    ensures
        final(out)@ == old(out)@ + decimal(n as nat),
    decreases n,
{
    let ghost before = out@;
    if n >= 10 {
        push_decimal(out, n / 10);
    }
    push_digit(out, n % 10);
    assert(out@ =~= before + decimal(n as nat));
}

/// Appends the decimal text of `n`, with a minus sign where it is negative.
pub fn push_signed(out: &mut String, n: i64)
    ensures
        final(out)@ == old(out)@ + signed_decimal(n as int),
{
    let ghost before = out@;
    if n < 0 {
        out.push('-');
        let magnitude: u64 = (-(n as i128)) as u64;
        push_decimal(out, magnitude);
        assert(out@ =~= before + signed_decimal(n as int));
    } else {
        push_decimal(out, n as u64);
    }
}

/// Appends the last `width` decimal digits of `n`.
pub fn push_padded(out: &mut String, n: u64, width: usize)
    ensures
        final(out)@ == old(out)@ + padded(n as nat, width as nat),
    decreases width,
{
    let ghost before = out@;
    if width > 0 {
        push_padded(out, n / 10, width - 1);
        push_digit(out, n % 10);
    }
    assert(out@ =~= before + padded(n as nat, width as nat));
}

/// Appends the last `width` hexadecimal digits of `n`.
pub fn push_hex(out: &mut String, n: u64, width: usize)
    ensures
        final(out)@ == old(out)@ + hex(n as nat, width as nat),
    decreases width,
{
    let ghost before = out@;
    if width > 0 {
        push_hex(out, n / 16, width - 1);
        push_digit(out, n % 16);
    }
    assert(out@ =~= before + hex(n as nat, width as nat));
}

/// Appends the hexadecimal text of `n`.
pub fn push_hex_text(out: &mut String, n: u64)
    ensures
        final(out)@ == old(out)@ + hex_text(n as nat),
    decreases n,
{
    let ghost before = out@;
    if n >= 16 {
        push_hex_text(out, n / 16);
    }
    push_digit(out, n % 16);
    assert(out@ =~= before + hex_text(n as nat));
}

/// The characters of a text.
pub fn chars_of(s: &str) -> (v: Vec<char>)
    ensures
        v@ == s@,
{
    let mut v: Vec<char> = Vec::new();
    for c in it: s.chars()
        invariant
            v@ == it.seq().take(it.index() as int),
            it.seq() == s@,
    {
        v.push(c);
        assert(v@ =~= it.seq().take(it.index() + 1));
    }
    assert(v@ =~= s@);
    v
}

/// The text of characters.
pub fn string_of(v: &[char]) -> (s: String)
    ensures
        s@ == v@,
{
    let mut s: String = String::new();
    let mut i: usize = 0;
    while i < v.len()
        invariant
            i <= v@.len(),
            s@ == v@.take(i as int),
        decreases v@.len() - i,
    {
        s.push(v[i]);
        i = i + 1;
        assert(v@.take(i as int) =~= v@.take(i - 1).push(v@[i - 1]));
    }
    assert(v@.take(i as int) =~= v@);
    s
}

/// Whether two character rows are the same.
pub fn same_chars(a: &[char], b: &[char]) -> (r: bool)
    ensures
        r == (a@ == b@),
{
    if a.len() != b.len() {
        return false;
    }
    let mut i: usize = 0;
    while i < a.len()
        invariant
            i <= a@.len() == b@.len(),
            a@.take(i as int) == b@.take(i as int),
        decreases a@.len() - i,
    {
        if a[i] != b[i] {
            assert(a@[i as int] != b@[i as int]);
            return false;
        }
        i = i + 1;
        assert(a@.take(i as int) =~= a@.take(i - 1).push(a@[i - 1]));
        assert(b@.take(i as int) =~= b@.take(i - 1).push(b@[i - 1]));
    }
    assert(a@.take(i as int) =~= a@);
    assert(b@.take(i as int) =~= b@);
    true
}

/// Whether two texts are the same.
pub fn same_text(a: &str, b: &str) -> (r: bool)
    ensures
        r == (a@ == b@),
{
    let x: Vec<char> = chars_of(a);
    let y: Vec<char> = chars_of(b);
    same_chars(x.as_slice(), y.as_slice())
}

/// Why a text is not a number of the wanted type.
#[derive(Debug, Clone, Copy, PartialEq, Eq, Structural)]
pub enum IntError {
    Empty,
    InvalidDigit,
    PosOverflow,
}

/// The text that describes the error.
pub open spec fn int_error_text(e: IntError) -> Seq<char> {
    match e {
        IntError::Empty => "cannot parse integer from empty string"@,
        IntError::InvalidDigit => "invalid digit found in string"@,
        IntError::PosOverflow => "number too large to fit in target type"@,
    }
}

impl IntError {
    /// The text that describes this error.
    pub fn message(self) -> (r: &'static str)
        ensures
            r@ == int_error_text(self),
    {
        match self {
            IntError::Empty => "cannot parse integer from empty string",
            IntError::InvalidDigit => "invalid digit found in string",
            IntError::PosOverflow => "number too large to fit in target type",
        }
    }
}

pub open spec fn is_digit(c: char) -> bool {
    '0' <= c <= '9'
}

pub open spec fn digit_value(c: char) -> nat {
    (c as u32 - 48) as nat
}

/// The number that digits behind `acc` stand for, at most `max`.
pub open spec fn parse_digits(s: Seq<char>, acc: nat, max: nat) -> Result<nat, IntError>
    decreases s.len(),
{
    if s.len() == 0 {
        Ok(acc)
    } else if !is_digit(s[0]) {
        Err(IntError::InvalidDigit)
    } else if acc * 10 + digit_value(s[0]) > max {
        Err(IntError::PosOverflow)
    } else {
        parse_digits(s.skip(1), acc * 10 + digit_value(s[0]), max)
    }
}

/// The number that a text stands for: digits, with or without a plus sign.
pub open spec fn parse_number(s: Seq<char>, max: nat) -> Result<nat, IntError> {
    if s.len() == 0 {
        Err(IntError::Empty)
    } else if s[0] == '+' && s.len() > 1 {
        parse_digits(s.skip(1), 0, max)
    } else {
        parse_digits(s, 0, max)
    }
}

/// Reads a number of at most `max`.
pub fn parse_uint(s: &[char], max: u64) -> (r: Result<u64, IntError>)
    ensures
        match parse_number(s@, max as nat) {
            Ok(n) => r == Ok::<u64, IntError>(n as u64) && n <= max,
            Err(e) => r == Err::<u64, IntError>(e),
        },
{
    if s.len() == 0 {
        return Err(IntError::Empty);
    }
    let start: usize = if s[0] == '+' && s.len() > 1 {
        1
    } else {
        0
    };
    let mut i: usize = start;
    let mut acc: u64 = 0;
    assert(s@.skip(0) =~= s@);
    while i < s.len()
        invariant
            start <= i <= s@.len(),
            acc <= max,
            parse_number(s@, max as nat) == parse_digits(s@.skip(i as int), acc as nat, max as nat),
        decreases s@.len() - i,
    {
        let c: char = s[i];
        assert(s@.skip(i as int).skip(1) =~= s@.skip(i + 1));
        if c < '0' || c > '9' {
            return Err(IntError::InvalidDigit);
        }
        let d: u64 = (c as u32 - 48) as u64;
        let next: u128 = acc as u128 * 10 + d as u128;
        if next > max as u128 {
            return Err(IntError::PosOverflow);
        }
        acc = next as u64;
        i = i + 1;
    }
    Ok(acc)
}

/// The place of the first `c` in `s`, or the length of `s`.
pub open spec fn first_of(s: Seq<char>, c: char) -> int
    decreases s.len(),
{
    if s.len() == 0 || s[0] == c {
        0
    } else {
        1 + first_of(s.skip(1), c)
    }
}

pub proof fn lemma_first_of(s: Seq<char>, c: char, k: int)
    requires
        0 <= k <= s.len(),
        forall|i: int| 0 <= i < k ==> s[i] != c,
        k < s.len() ==> s[k] == c,
    ensures
        first_of(s, c) == k,
    decreases s.len(),
{
    if k > 0 {
        lemma_first_of(s.skip(1), c, k - 1);
    }
}

/// The place of the first `c` in `s`, or the length of `s`.
pub fn find_char(s: &[char], c: char) -> (k: usize)
    ensures
        k == first_of(s@, c),
        k <= s@.len(),
{
    let mut k: usize = 0;
    while k < s.len() && s[k] != c
        invariant
            k <= s@.len(),
            forall|i: int| 0 <= i < k ==> s@[i] != c,
        decreases s@.len() - k,
    {
        k = k + 1;
    }
    proof {
        lemma_first_of(s@, c, k as int);
    }
    k
}

/// A character that separates words: Unicode white space.
pub open spec fn is_space(c: char) -> bool {
    ||| '\u{9}' <= c <= '\u{d}'
    ||| c == ' '
    ||| c == '\u{85}'
    ||| c == '\u{a0}'
    ||| c == '\u{1680}'
    ||| '\u{2000}' <= c <= '\u{200a}'
    ||| c == '\u{2028}'
    ||| c == '\u{2029}'
    ||| c == '\u{202f}'
    ||| c == '\u{205f}'
    ||| c == '\u{3000}'
}

/// Whether a character separates words.
pub fn is_white(c: char) -> (r: bool)
    ensures
        r == is_space(c),
{
    ('\u{9}' <= c && c <= '\u{d}') || c == ' ' || c == '\u{85}' || c == '\u{a0}' || c
        == '\u{1680}' || ('\u{2000}' <= c && c <= '\u{200a}') || c == '\u{2028}' || c
        == '\u{2029}' || c == '\u{202f}' || c == '\u{205f}' || c == '\u{3000}'
}

/// The number of characters at the front of `s` before any white space.
pub open spec fn word_len(s: Seq<char>) -> int
    decreases s.len(),
{
    if s.len() == 0 || is_space(s[0]) {
        0
    } else {
        1 + word_len(s.skip(1))
    }
}

pub proof fn lemma_word_len(s: Seq<char>, k: int)
    requires
        0 <= k <= s.len(),
        forall|i: int| 0 <= i < k ==> !is_space(s[i]),
        k < s.len() ==> is_space(s[k]),
    ensures
        word_len(s) == k,
    decreases s.len(),
{
    if k > 0 {
        lemma_word_len(s.skip(1), k - 1);
    }
}

pub proof fn lemma_word_len_bound(s: Seq<char>)
    ensures
        0 <= word_len(s) <= s.len(),
        s.len() > 0 && !is_space(s[0]) ==> word_len(s) > 0,
    decreases s.len(),
{
    if s.len() > 0 && !is_space(s[0]) {
        lemma_word_len_bound(s.skip(1));
    }
}

/// The words of a text: its runs of characters between white space.
pub open spec fn words(s: Seq<char>) -> Seq<Seq<char>>
    decreases s.len(),
    via words_end
{
    if s.len() == 0 {
        Seq::empty()
    } else if is_space(s[0]) {
        words(s.skip(1))
    } else {
        seq![s.take(word_len(s))] + words(s.skip(word_len(s)))
    }
}

#[via_fn]
proof fn words_end(s: Seq<char>) {
    lemma_word_len_bound(s);
}

/// The characters of words.
pub open spec fn char_rows(v: Seq<Vec<char>>) -> Seq<Seq<char>> {
    v.map_values(|w: Vec<char>| w@)
}

/// Splits a text into its words.
pub fn split_words(s: &[char]) -> (r: Vec<Vec<char>>)
    ensures
        char_rows(r@) == words(s@),
{
    let mut r: Vec<Vec<char>> = Vec::new();
    let mut i: usize = 0;
    assert(s@.skip(0) =~= s@);
    assert(char_rows(r@) =~= Seq::empty());
    assert(Seq::empty() + words(s@) =~= words(s@));
    while i < s.len()
        invariant
            i <= s@.len(),
            words(s@) == char_rows(r@) + words(s@.skip(i as int)),
        decreases s@.len() - i,
    {
        let ghost rest = s@.skip(i as int);
        if is_white(s[i]) {
            assert(rest.skip(1) =~= s@.skip(i + 1));
            i = i + 1;
        } else {
            let mut j: usize = i + 1;
            while j < s.len() && !is_white(s[j])
                invariant
                    i < j <= s@.len(),
                    forall|k: int| i <= k < j ==> !is_space(#[trigger] s@[k]),
                decreases s@.len() - j,
            {
                j = j + 1;
            }
            let word: &[char] = slice_subrange(s, i, j);
            let ghost before = char_rows(r@);
            proof {
                let k = j - i;
                assert forall|m: int| 0 <= m < k implies !is_space(rest[m]) by {
                    assert(rest[m] == s@[i + m]);
                }
                lemma_word_len(rest, k);
                assert(rest.take(k) =~= word@);
                assert(rest.skip(k) =~= s@.skip(j as int));
                assert(before + (seq![word@] + words(s@.skip(j as int))) =~= before.push(word@)
                    + words(s@.skip(j as int)));
            }
            r.push(slice_to_vec(word));
            assert(char_rows(r@) =~= before.push(word@));
            i = j;
        }
    }
    assert(s@.skip(i as int) =~= Seq::empty());
    assert(char_rows(r@) + Seq::<Seq<char>>::empty() =~= char_rows(r@));
    r
}

/// A line without the carriage return at its end.
pub open spec fn chomp(s: Seq<char>) -> Seq<char> {
    if s.len() > 0 && s.last() == '\r' {
        s.drop_last()
    } else {
        s
    }
}

/// The lines of a text: what stands before each line feed, without a carriage
/// return there, and what stands behind the last one, if anything.
pub open spec fn lines(s: Seq<char>) -> Seq<Seq<char>>
    decreases s.len(),
    via lines_end
{
    if s.len() == 0 {
        Seq::empty()
    } else {
        let k = first_of(s, '\n');
        if k == s.len() {
            seq![s]
        } else {
            seq![chomp(s.take(k))] + lines(s.skip(k + 1))
        }
    }
}

#[via_fn]
proof fn lines_end(s: Seq<char>) {
    lemma_first_of_bound(s, '\n');
}

pub proof fn lemma_first_of_bound(s: Seq<char>, c: char)
    ensures
        0 <= first_of(s, c) <= s.len(),
    decreases s.len(),
{
    if s.len() > 0 && s[0] != c {
        lemma_first_of_bound(s.skip(1), c);
    }
}

/// Splits a text into its lines.
pub fn split_lines(s: &[char]) -> (r: Vec<Vec<char>>)
    ensures
        char_rows(r@) == lines(s@),
{
    let mut r: Vec<Vec<char>> = Vec::new();
    let mut i: usize = 0;
    assert(s@.skip(0) =~= s@);
    assert(char_rows(r@) =~= Seq::empty());
    assert(Seq::empty() + lines(s@) =~= lines(s@));
    while i < s.len()
        invariant
            i <= s@.len(),
            lines(s@) == char_rows(r@) + lines(s@.skip(i as int)),
        decreases s@.len() - i,
    {
        let rest: &[char] = slice_subrange(s, i, s.len());
        assert(rest@ =~= s@.skip(i as int));
        let ghost before = char_rows(r@);
        let k: usize = find_char(rest, '\n');
        if k == rest.len() {
            r.push(slice_to_vec(rest));
            assert(char_rows(r@) =~= before + seq![rest@]);
            return r;
        }
        let end: usize = if k > 0 && rest[k - 1] == '\r' {
            k - 1
        } else {
            k
        };
        let line: &[char] = slice_subrange(rest, 0, end);
        proof {
            assert(line@ =~= chomp(rest@.take(k as int)));
            assert(rest@.skip(k + 1) =~= s@.skip(i + k + 1));
            assert(before + (seq![line@] + lines(s@.skip(i + k + 1))) =~= before.push(line@)
                + lines(s@.skip(i + k + 1)));
        }
        r.push(slice_to_vec(line));
        assert(char_rows(r@) =~= before.push(line@));
        i = i + k + 1;
    }
    assert(s@.skip(i as int) =~= Seq::empty());
    assert(char_rows(r@) + Seq::<Seq<char>>::empty() =~= char_rows(r@));
    r
}

/// Decimal text is made of digits.
pub proof fn lemma_decimal_digits(n: nat)
    ensures
        decimal(n).len() > 0,
        forall|i: int| 0 <= i < decimal(n).len() ==> is_digit(#[trigger] decimal(n)[i]),
    decreases n,
{
    if n >= 10 {
        lemma_decimal_digits(n / 10);
    }
}

pub proof fn lemma_parse_digits_add(a: Seq<char>, b: Seq<char>, acc: nat, max: nat)
    requires
        parse_digits(a, acc, max) is Ok,
    ensures
        parse_digits(a + b, acc, max) == parse_digits(b, parse_digits(a, acc, max)->Ok_0, max),
    decreases a.len(),
{
    if a.len() == 0 {
        assert(a + b =~= b);
    } else {
        lemma_parse_digits_add(a.skip(1), b, acc * 10 + digit_value(a[0]), max);
        assert((a + b).skip(1) =~= a.skip(1) + b);
    }
}

/// Reading decimal text gives the number.
pub proof fn law_parse_decimal(n: nat, max: nat)
    requires
        n <= max,
    ensures
        parse_number(decimal(n), max) == Ok::<nat, IntError>(n),
{
    lemma_decimal_digits(n);
    lemma_parse_decimal(n, max);
    assert(is_digit(decimal(n)[0]));
}

proof fn lemma_parse_decimal(n: nat, max: nat)
    requires
        n <= max,
    ensures
        parse_digits(decimal(n), 0, max) == Ok::<nat, IntError>(n),
    decreases n,
{
    reveal_with_fuel(parse_digits, 2);
    if n >= 10 {
        let d = digit_char(n % 10);
        lemma_parse_decimal(n / 10, max);
        lemma_parse_digits_add(decimal(n / 10), seq![d], 0, max);
        assert(decimal(n) =~= decimal(n / 10) + seq![d]);
        assert(seq![d].skip(1) =~= Seq::empty());
    } else {
        assert(decimal(n).skip(1) =~= Seq::empty());
    }
}

/// A name: characters without white space, at least one.
pub open spec fn is_word(s: Seq<char>) -> bool {
    s.len() > 0 && forall|i: int| 0 <= i < s.len() ==> !is_space(#[trigger] s[i])
}

pub proof fn lemma_decimal_word(n: nat)
    ensures
        is_word(decimal(n)),
{
    lemma_decimal_digits(n);
}

/// A word before a space is the first word.
pub proof fn lemma_words_first(w: Seq<char>, rest: Seq<char>)
    requires
        is_word(w),
    ensures
        words(w + (seq![' '] + rest)) == seq![w] + words(rest),
{
    let s = w + (seq![' '] + rest);
    let k = w.len() as int;
    reveal_with_fuel(words, 3);
    assert(!is_space(w[0]));
    assert forall|i: int| 0 <= i < k implies !is_space(s[i]) by {
        assert(s[i] == w[i]);
    }
    lemma_word_len(s, k);
    assert(s.take(k) =~= w);
    assert(s.skip(k) =~= seq![' '] + rest);
    assert(s[0] == w[0]);
    assert((seq![' '] + rest).skip(1) =~= rest);
}

/// A word alone is the only word.
pub proof fn lemma_words_one(w: Seq<char>)
    requires
        is_word(w),
    ensures
        words(w) == seq![w],
{
    let k = w.len() as int;
    reveal_with_fuel(words, 3);
    assert(!is_space(w[0]));
    lemma_word_len(w, k);
    assert(w.take(k) =~= w);
    assert(w.skip(k) =~= Seq::empty());
    assert(seq![w] + Seq::<Seq<char>>::empty() =~= seq![w]);
}

/// A line before a line feed is the first line.
pub proof fn lemma_lines_first(line: Seq<char>, rest: Seq<char>)
    requires
        forall|i: int| 0 <= i < line.len() ==> #[trigger] line[i] != '\n',
        line.len() > 0 ==> line.last() != '\r',
    ensures
        lines(line + (seq!['\n'] + rest)) == seq![line] + lines(rest),
{
    let s = line + (seq!['\n'] + rest);
    let k = line.len() as int;
    assert forall|i: int| 0 <= i < k implies s[i] != '\n' by {
        assert(s[i] == line[i]);
    }
    lemma_first_of(s, '\n', k);
    assert(s.take(k) =~= line);
    assert(s.skip(k + 1) =~= rest);
}

/// Numbers as a list.
pub open spec fn list_text(v: Seq<u64>) -> Seq<char>
    decreases v.len(),
{
    if v.len() == 0 {
        Seq::empty()
    } else if v.len() == 1 {
        decimal(v[0] as nat)
    } else {
        list_text(v.drop_last()) + ", "@ + decimal(v.last() as nat)
    }
}

/// Appends the first `n` numbers as a list.
pub fn push_list(out: &mut String, v: &Vec<u64>, n: usize)
    requires
        n <= v@.len(),
    ensures
        final(out)@ == old(out)@ + list_text(v@.take(n as int)),
{
    let ghost start = out@;
    let mut i: usize = 0;
    assert(out@ =~= start + list_text(v@.take(0)));
    while i < n
        invariant
            i <= n <= v@.len(),
            out@ == start + list_text(v@.take(i as int)),
        decreases n - i,
    {
        if i > 0 {
            out.append(", ");
        }
        push_decimal(out, v[i]);
        proof {
            assert(v@.take(i + 1).drop_last() =~= v@.take(i as int));
            assert(v@.take(i + 1).last() == v@[i as int]);
            assert(out@ =~= start + list_text(v@.take(i + 1)));
        }
        i = i + 1;
    }
}

/// Where `c` last stands in `s`; -1 where it does not.
pub open spec fn last_of(s: Seq<char>, c: char) -> int
    decreases s.len(),
{
    if s.len() == 0 {
        -1
    } else if s.last() == c {
        s.len() - 1
    } else {
        last_of(s.drop_last(), c)
    }
}

/// Where a character last stands in a text.
pub fn rfind_char(s: &[char], c: char) -> (r: Option<usize>)
    ensures
        match r {
            Some(k) => k == last_of(s@, c) && k < s@.len(),
            None => last_of(s@, c) == -1,
        },
{
    let mut i: usize = s.len();
    assert(s@.take(i as int) =~= s@);
    while i > 0
        invariant
            i <= s@.len(),
            last_of(s@.take(i as int), c) == last_of(s@, c),
        decreases i,
    {
        assert(s@.take(i as int).drop_last() =~= s@.take(i - 1));
        assert(s@.take(i as int).last() == s@[i - 1]);
        if s[i - 1] == c {
            return Some(i - 1);
        }
        i -= 1;
    }
    None
}

/// `n` spaces.
pub open spec fn spaces(n: nat) -> Seq<char> {
    Seq::new(n, |i: int| ' ')
}

/// How many spaces fill a text up to a width.
pub open spec fn gap(s: Seq<char>, width: nat) -> nat {
    if s.len() < width {
        (width - s.len()) as nat
    } else {
        0
    }
}

/// A text at the left of a cell.
pub open spec fn left_cell(s: Seq<char>, width: nat) -> Seq<char> {
    s + spaces(gap(s, width))
}

/// A text at the right of a cell.
pub open spec fn right_cell(s: Seq<char>, width: nat) -> Seq<char> {
    spaces(gap(s, width)) + s
}

fn push_spaces(out: &mut String, n: usize)
    ensures
        final(out)@ == old(out)@ + spaces(n as nat),
{
    let ghost start = out@;
    let mut i: usize = 0;
    assert(out@ =~= start + spaces(0));
    while i < n
        invariant
            i <= n,
            out@ == start + spaces(i as nat),
        decreases n - i,
    {
        out.push(' ');
        assert(out@ =~= start + spaces((i + 1) as nat));
        i += 1;
    }
}

fn gap_of(s: &str, width: usize) -> (n: usize)
    ensures
        n == gap(s@, width as nat),
{
    let len: usize = s.unicode_len();
    if len < width {
        width - len
    } else {
        0
    }
}

/// Appends a text at the left of a cell.
pub fn push_left(out: &mut String, s: &str, width: usize)
    ensures
        final(out)@ == old(out)@ + left_cell(s@, width as nat),
{
    let ghost start = out@;
    out.append(s);
    push_spaces(out, gap_of(s, width));
    assert(out@ =~= start + left_cell(s@, width as nat));
}

/// Appends a text at the right of a cell.
pub fn push_right(out: &mut String, s: &str, width: usize)
    ensures
        final(out)@ == old(out)@ + right_cell(s@, width as nat),
{
    let ghost start = out@;
    push_spaces(out, gap_of(s, width));
    out.append(s);
    assert(out@ =~= start + right_cell(s@, width as nat));
}

/// The decimal text of a number.
pub fn decimal_text(n: u64) -> (r: String)
    ensures
        r@ == decimal(n as nat),
{
    let mut r: String = String::new();
    push_decimal(&mut r, n);
    assert(r@ =~= decimal(n as nat));
    r
}

/// The decimal text of a signed number.
pub fn signed_text(n: i64) -> (r: String)
    ensures
        r@ == signed_decimal(n as int),
{
    let mut r: String = String::new();
    push_signed(&mut r, n);
    assert(r@ =~= signed_decimal(n as int));
    r
}

/// A text takes up at most four bytes for each character.
pub proof fn lemma_utf8_len(s: Seq<char>)
    ensures
        encode_utf8(s).len() <= 4 * s.len(),
    decreases s.len(),
{
    if s.len() > 0 {
        lemma_utf8_len(s.drop_first());
    }
}

proof fn lemma_all_digits(s: Seq<char>, acc: nat, max: nat)
    requires
        parse_digits(s, acc, max) is Ok,
        acc <= max,
    ensures
        parse_digits(s, acc, max)->Ok_0 <= max,
        forall|i: int| 0 <= i < s.len() ==> is_digit(#[trigger] s[i]),
    decreases s.len(),
{
    if s.len() > 0 {
        let tail = s.skip(1);
        lemma_all_digits(tail, acc * 10 + digit_value(s[0]), max);
        assert forall|i: int| 0 <= i < s.len() implies is_digit(#[trigger] s[i]) by {
            if i > 0 {
                assert(tail[i - 1] == s[i]);
            }
        }
    }
}

/// What is read as a number is digits, behind a plus sign at most, and within
/// its bound.
pub proof fn law_parse_strict(s: Seq<char>, max: nat)
    requires
        parse_number(s, max) is Ok,
    ensures
        parse_number(s, max)->Ok_0 <= max,
        s.len() > 0,
        forall|i: int| 0 < i < s.len() ==> '0' <= #[trigger] s[i] <= '9',
        '0' <= s[0] <= '9' || s[0] == '+' && s.len() > 1,
{
    if s[0] == '+' && s.len() > 1 {
        let tail = s.skip(1);
        lemma_all_digits(tail, 0, max);
        assert forall|i: int| 0 < i < s.len() implies '0' <= #[trigger] s[i] <= '9' by {
            assert(is_digit(tail[i - 1]));
        }
    } else {
        lemma_all_digits(s, 0, max);
        assert(is_digit(s[0]));
        assert forall|i: int| 0 < i < s.len() implies '0' <= #[trigger] s[i] <= '9' by {
            assert(is_digit(s[i]));
        }
    }
}

} // verus!
