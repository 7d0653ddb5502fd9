//! Text as sequences of characters: classes, lines and decimal numbers.
//!
//! Contracts in this crate speak of a string through its view, a `Seq<char>`.
//! The functions here move between strings and character vectors and state,
//! over such sequences, the few notions of text that the rest relies on.
use vstd::prelude::*;

verus! {

/// The characters of `s`, in order.
pub fn chars_of(s: &str) -> (chars: Vec<char>)
    ensures
        chars@ == s@,
{
    let mut chars: Vec<char> = Vec::new();
    let mut rest = s.chars();
    for c in it: rest
        invariant
            chars@ == it.seq().take(it.index()),
            it.seq() == s@,
    {
        chars.push(c);
    }
    chars
}

/// Calls `String::from_iter` on the characters of `chars`.  Claims that the
/// string holds exactly those characters, in their order.
#[verifier::external_body]
pub(crate) fn string_of(chars: &[char]) -> (s: String)
    ensures
        s@ == chars@,
{
    String::from_iter(chars.iter())
}

/// The characters of `chars` from `from` up to, not including, `to`.
pub fn copy_range(chars: &[char], from: usize, to: usize) -> (part: Vec<char>)
    requires
        from <= to <= chars@.len(),
    ensures
        part@ == chars@.subrange(from as int, to as int),
{
    let mut part: Vec<char> = Vec::new();
    let mut i: usize = from;
    while i < to
        invariant
            from <= i <= to <= chars@.len(),
            part@ == chars@.subrange(from as int, i as int),
        decreases to - i,
    {
        part.push(chars[i]);
        i += 1;
    }
    part
}

/// White space, as Unicode's `White_Space` property has it.
pub open spec fn is_white_space(c: char) -> bool {
    let u = c as u32;
    ||| 0x09 <= u <= 0x0D
    ||| u == 0x20
    ||| u == 0x85
    ||| u == 0xA0
    ||| u == 0x1680
    ||| 0x2000 <= u <= 0x200A
    ||| u == 0x2028
    ||| u == 0x2029
    ||| u == 0x202F
    ||| u == 0x205F
    ||| u == 0x3000
}

/// Is `c` white space?
pub fn white_space(c: char) -> (b: bool)
    ensures
        b == is_white_space(c),
{
    let u: u32 = c as u32;
    (0x09 <= u && u <= 0x0D) || u == 0x20 || u == 0x85 || u == 0xA0 || u == 0x1680 || (0x2000
        <= u && u <= 0x200A) || u == 0x2028 || u == 0x2029 || u == 0x202F || u == 0x205F || u
        == 0x3000
}

/// A letter of the ASCII alphabet.
pub open spec fn is_ascii_letter(c: char) -> bool {
    ('a' <= c <= 'z') || ('A' <= c <= 'Z')
}

/// Is `c` a letter of the ASCII alphabet?
pub fn ascii_letter(c: char) -> (b: bool)
    ensures
        b == is_ascii_letter(c),
{
    ('a' <= c && c <= 'z') || ('A' <= c && c <= 'Z')
}

/// The first index at or after `from` that holds a line feed, or the length
/// of `text` where none does.
pub open spec fn line_end(text: Seq<char>, from: int) -> int
    decreases text.len() - from,
{
    if from < 0 || from >= text.len() {
        text.len() as int
    } else if text[from] == '\n' {
        from
    } else {
        line_end(text, from + 1)
    }
}

/// The line that runs from `start` to `end`.  Where a line feed ends it, a
/// carriage return just before that line feed is no part of the line.
pub open spec fn line_between(text: Seq<char>, start: int, end: int) -> Seq<char> {
    if start < end < text.len() && text[end - 1] == '\r' {
        text.subrange(start, end - 1)
    } else {
        text.subrange(start, end)
    }
}

/// The lines of `text` from index `start` on.
pub open spec fn lines_from(text: Seq<char>, start: int) -> Seq<Seq<char>>
    decreases text.len() - start,
{
    if start < 0 || start >= text.len() {
        Seq::empty()
    } else {
        let end = line_end(text, start);
        if end < start {
            Seq::empty()
        } else if end >= text.len() {
            seq![line_between(text, start, end)]
        } else {
            seq![line_between(text, start, end)] + lines_from(text, end + 1)
        }
    }
}

/// The lines of `text`.  A line ends at a line feed or at the end of the
/// text; the line feed, and a carriage return just before it, belong to no
/// line, and a text that ends in a line feed has no empty last line.
pub open spec fn lines_of(text: Seq<char>) -> Seq<Seq<char>> {
    lines_from(text, 0)
}

/// The views of the lines in `lines`.
pub open spec fn line_views(lines: Seq<Vec<char>>) -> Seq<Seq<char>> {
    lines.map_values(|line: Vec<char>| line@)
}

/// A stretch without line feeds does not move the end of the line.
pub proof fn lemma_line_end_skips(text: Seq<char>, from: int, to: int)
    requires
        0 <= from <= to <= text.len(),
        forall|k: int| from <= k < to ==> text[k] != '\n',
    ensures
        line_end(text, from) == line_end(text, to),
    decreases to - from,
{
    if from < to {
        lemma_line_end_skips(text, from + 1, to);
    }
}

/// Splits `text` into its lines.
pub fn split_lines(text: &[char]) -> (lines: Vec<Vec<char>>)
    ensures
        line_views(lines@) == lines_of(text@),
{
    let mut lines: Vec<Vec<char>> = Vec::new();
    let mut start: usize = 0;
    let mut i: usize = 0;
    let n = text.len();
    while i < n
        invariant
            n == text@.len(),
            0 <= start <= i <= n,
            forall|k: int| start <= k < i ==> text@[k] != '\n',
            line_views(lines@) + lines_from(text@, start as int) == lines_of(text@),
        decreases n - i,
    {
        if text[i] == '\n' {
            let stop: usize = if start < i && text[i - 1] == '\r' {
                i - 1
            } else {
                i
            };
            let line = copy_range(text, start, stop);
            proof {
                lemma_line_end_skips(text@, start as int, i as int);
                assert(line_end(text@, start as int) == i);
                assert(line@ == line_between(text@, start as int, i as int));
                assert(lines_from(text@, start as int) == seq![line@] + lines_from(
                    text@,
                    i + 1,
                ));
                assert(line_views(lines@.push(line)) == line_views(lines@) + seq![line@]);
                assert((line_views(lines@) + seq![line@]) + lines_from(text@, i + 1)
                    == line_views(lines@) + (seq![line@] + lines_from(text@, i + 1)));
            }
            lines.push(line);
            start = i + 1;
        }
        i += 1;
    }
    if start < n {
        let line = copy_range(text, start, n);
        proof {
            lemma_line_end_skips(text@, start as int, n as int);
            assert(line_end(text@, n as int) == n);
            assert(line@ == line_between(text@, start as int, n as int));
            assert(lines_from(text@, start as int) == seq![line@]);
            assert(line_views(lines@.push(line)) == line_views(lines@) + seq![line@]);
        }
        lines.push(line);
    } else {
        assert(lines_from(text@, start as int) == Seq::<Seq<char>>::empty());
    }
    assert(line_views(lines@) == lines_of(text@));
    lines
}

/// A decimal digit of ASCII.
pub open spec fn is_digit(c: char) -> bool {
    '0' <= c <= '9'
}

/// The number that the digit `c` stands for.
pub open spec fn digit_value(c: char) -> nat {
    (c as u32 - '0' as u32) as nat
}

/// Is every character of `text` a decimal digit?
pub open spec fn all_digits(text: Seq<char>) -> bool {
    forall|i: int| 0 <= i < text.len() ==> is_digit(#[trigger] text[i])
}

/// The number that a run of digits denotes in base ten; the empty run
/// denotes zero.
pub open spec fn decimal_value(digits: Seq<char>) -> nat
    decreases digits.len(),
{
    if digits.len() == 0 {
        0
    } else {
        decimal_value(digits.drop_last()) * 10 + digit_value(digits.last())
    }
}

/// `text` without a plus sign in front.
pub open spec fn without_plus(text: Seq<char>) -> Seq<char> {
    if text.len() > 0 && text[0] == '+' {
        text.drop_first()
    } else {
        text
    }
}

/// What `text` denotes as an unsigned 32-bit number: an optional plus sign,
/// then one digit or more and nothing else, the whole no greater than
/// `u32::MAX`.
pub open spec fn decimal_u32(text: Seq<char>) -> Option<u32> {
    let digits = without_plus(text);
    if digits.len() > 0 && all_digits(digits) && decimal_value(digits) <= u32::MAX {
        Some(decimal_value(digits) as u32)
    } else {
        None
    }
}

/// A run of digits denotes no less than any of its prefixes.
pub proof fn lemma_decimal_value_grows(digits: Seq<char>, k: int)
    requires
        0 <= k <= digits.len(),
    ensures
        decimal_value(digits.take(k)) <= decimal_value(digits),
    decreases digits.len() - k,
{
    if k == digits.len() {
        assert(digits.take(k) == digits);
    } else {
        lemma_decimal_value_grows(digits, k + 1);
        assert(digits.take(k + 1).drop_last() == digits.take(k));
    }
}

/// Reads `text` as an unsigned 32-bit number.
pub fn parse_u32(text: &[char]) -> (number: Option<u32>)
    ensures
        number == decimal_u32(text@),
{
    let n = text.len();
    let first: usize = if n > 0 && text[0] == '+' {
        1
    } else {
        0
    };
    if first == n {
        return None;
    }
    let ghost digits = without_plus(text@);
    assert(digits == text@.subrange(first as int, n as int));
    let mut value: u32 = 0;
    let mut i: usize = first;
    while i < n
        invariant
            first <= i <= n,
            n == text@.len(),
            digits == text@.subrange(first as int, n as int),
            digits == without_plus(text@),
            all_digits(digits.take(i - first)),
            value == decimal_value(digits.take(i - first)),
        decreases n - i,
    {
        let c = text[i];
        proof {
            assert(digits[i - first] == c);
            assert(digits.take(i - first + 1).drop_last() == digits.take(i - first));
            assert(digits.take(i - first + 1).last() == c);
        }
        if !('0' <= c && c <= '9') {
            assert(!is_digit(digits[i - first]));
            return None;
        }
        let digit: u32 = c as u32 - '0' as u32;
        assert(decimal_value(digits.take(i - first + 1)) == value * 10 + digit);
        if value > (u32::MAX - digit) / 10 {
            proof {
                lemma_decimal_value_grows(digits, i - first + 1);
            }
            return None;
        }
        value = value * 10 + digit;
        i += 1;
        assert(all_digits(digits.take(i - first))) by {
            assert forall|k: int| 0 <= k < i - first implies is_digit(
                #[trigger] digits.take(i - first)[k],
            ) by {
                if k < i - first - 1 {
                    assert(digits.take(i - first - 1)[k] == digits[k]);
                }
            }
        }
    }
    assert(digits.take(n - first) == digits);
    Some(value)
}

/// Do `a` and `b` hold the same characters?
pub fn same_chars(a: &[char], b: &[char]) -> (same: bool)
    ensures
        same == (a@ == b@),
{
    if a.len() != b.len() {
        return false;
    }
    let mut i: usize = 0;
    while i < a.len()
        invariant
            a@.len() == b@.len(),
            0 <= i <= a@.len(),
            forall|k: int| 0 <= k < i ==> a@[k] == b@[k],
        decreases a@.len() - i,
    {
        if a[i] != b[i] {
            return false;
        }
        i += 1;
    }
    assert(a@ =~= b@);
    true
}

/// Do `a` and `b` spell the same text?
pub fn same_text(a: &str, b: &str) -> (same: bool)
    ensures
        same == (a@ == b@),
{
    let left = chars_of(a);
    let right = chars_of(b);
    same_chars(left.as_slice(), right.as_slice())
}

/// The first index at or after `from` that holds no white space, or the
/// length of `line` where there is none.
pub open spec fn first_ink(line: Seq<char>, from: int) -> int
    decreases line.len() - from,
{
    if from < 0 || from >= line.len() {
        line.len() as int
    } else if !is_white_space(line[from]) {
        from
    } else {
        first_ink(line, from + 1)
    }
}

/// White space in front does not move the first ink.
pub proof fn lemma_first_ink_skips(line: Seq<char>, from: int, to: int)
    requires
        0 <= from <= to <= line.len(),
        forall|k: int| from <= k < to ==> is_white_space(line[k]),
    ensures
        first_ink(line, from) == first_ink(line, to),
    decreases to - from,
{
    if from < to {
        lemma_first_ink_skips(line, from + 1, to);
    }
}

/// The first ink of a line is the first of its characters that is no white
/// space.
pub proof fn lemma_first_ink(line: Seq<char>, from: int)
    requires
        0 <= from <= line.len(),
    ensures
        from <= first_ink(line, from) <= line.len(),
        first_ink(line, from) < line.len() ==> !is_white_space(line[first_ink(line, from)]),
        forall|k: int| from <= k < first_ink(line, from) ==> is_white_space(line[k]),
    decreases line.len() - from,
{
    if from < line.len() && is_white_space(line[from]) {
        lemma_first_ink(line, from + 1);
    }
}

/// The end of the last stretch of ink before index `to`: one more than the
/// last index below `to` that holds no white space, or 0 where there is none.
pub open spec fn ink_end(text: Seq<char>, to: int) -> int
    decreases to,
{
    if to <= 0 || to > text.len() {
        0
    } else if !is_white_space(text[to - 1]) {
        to
    } else {
        ink_end(text, to - 1)
    }
}

/// `text` without the white space at its two ends.
pub open spec fn trimmed(text: Seq<char>) -> Seq<char> {
    let start = first_ink(text, 0);
    let end = ink_end(text, text.len() as int);
    if start < end {
        text.subrange(start, end)
    } else {
        Seq::empty()
    }
}

/// White space at the end does not move the end of the ink.
pub proof fn lemma_ink_end_skips(text: Seq<char>, from: int, to: int)
    requires
        0 <= from <= to <= text.len(),
        forall|k: int| from <= k < to ==> is_white_space(text[k]),
    ensures
        ink_end(text, from) == ink_end(text, to),
    decreases to - from,
{
    if from < to {
        lemma_ink_end_skips(text, from, to - 1);
    }
}

/// Trims the white space off the two ends of `text`.
pub fn trim(text: &[char]) -> (inner: Vec<char>)
    ensures
        inner@ == trimmed(text@),
{
    let n = text.len();
    let mut start: usize = 0;
    while start < n && white_space(text[start])
        invariant
            0 <= start <= n == text@.len(),
            forall|k: int| 0 <= k < start ==> is_white_space(text@[k]),
        decreases n - start,
    {
        start += 1;
    }
    let mut end: usize = n;
    while end > start && white_space(text[end - 1])
        invariant
            start <= end <= n == text@.len(),
            forall|k: int| end <= k < n ==> is_white_space(text@[k]),
        decreases end,
    {
        end -= 1;
    }
    proof {
        lemma_first_ink_skips(text@, 0, start as int);
        lemma_ink_end_skips(text@, end as int, n as int);
        if start == end {
            lemma_ink_end_skips(text@, 0, n as int);
        }
    }
    copy_range(text, start, end)
}

/// Does `pattern` stand in `text` at index `i`?
pub open spec fn occurs_at(text: Seq<char>, pattern: Seq<char>, i: int) -> bool {
    0 <= i && i + pattern.len() <= text.len() && text.subrange(i, i + pattern.len()) == pattern
}

/// The first index at or after `from` at which `pattern` stands in `text`.
pub open spec fn find_from(text: Seq<char>, pattern: Seq<char>, from: int) -> Option<int>
    decreases text.len() - from + 1,
{
    if from < 0 || from + pattern.len() > text.len() {
        None
    } else if occurs_at(text, pattern, from) {
        Some(from)
    } else {
        find_from(text, pattern, from + 1)
    }
}

/// The first index at which `pattern` stands in `text`.
pub open spec fn find(text: Seq<char>, pattern: Seq<char>) -> Option<int> {
    find_from(text, pattern, 0)
}

/// What [`find_from`] names is the first place of the pattern at or after
/// `from`; where it names none, the pattern stands nowhere from there on.
pub proof fn lemma_find_from(text: Seq<char>, pattern: Seq<char>, from: int)
    requires
        0 <= from,
    ensures
        match find_from(text, pattern, from) {
            Some(i) => {
                &&& from <= i
                &&& occurs_at(text, pattern, i)
                &&& forall|k: int| from <= k < i ==> !occurs_at(text, pattern, k)
            },
            None => forall|k: int| from <= k ==> !occurs_at(text, pattern, k),
        },
    decreases text.len() - from + 1,
{
    if from + pattern.len() <= text.len() && !occurs_at(text, pattern, from) {
        lemma_find_from(text, pattern, from + 1);
    }
}

/// Does `pattern` stand in `text` at index `i`?
pub fn stands_at(text: &[char], pattern: &[char], i: usize) -> (stands: bool)
    ensures
        stands == occurs_at(text@, pattern@, i as int),
{
    let m = pattern.len();
    if m > text.len() || i > text.len() - m {
        return false;
    }
    let mut k: usize = 0;
    while k < m
        invariant
            m == pattern@.len(),
            i + m <= text.len(),
            0 <= k <= m,
            forall|j: int| 0 <= j < k ==> text@[i + j] == pattern@[j],
        decreases m - k,
    {
        if text[i + k] != pattern[k] {
            assert(text@.subrange(i as int, i + m)[k as int] != pattern@[k as int]);
            return false;
        }
        k += 1;
    }
    assert(text@.subrange(i as int, i + m) =~= pattern@);
    true
}

/// The first index at or after `from` at which `pattern` stands in `text`.
pub fn find_in(text: &[char], pattern: &[char], from: usize) -> (found: Option<usize>)
    ensures
        match found {
            Some(i) => find_from(text@, pattern@, from as int) == Some(i as int),
            None => find_from(text@, pattern@, from as int) is None,
        },
{
    let n = text.len();
    let m = pattern.len();
    if m > n {
        return None;
    }
    if m == 0 {
        if from <= n {
            assert(text@.subrange(from as int, from as int) =~= pattern@);
            return Some(from);
        } else {
            return None;
        }
    }
    let mut i: usize = from;
    while i <= n - m
        invariant
            m == pattern@.len(),
            n == text@.len(),
            1 <= m <= n,
            from <= i,
            find_from(text@, pattern@, from as int) == find_from(text@, pattern@, i as int),
        decreases n - i,
    {
        if stands_at(text, pattern, i) {
            return Some(i);
        }
        i += 1;
    }
    None
}

/// Does the text from index `i` on make `a` come before `b`, given that the
/// two agree before `i`?
pub open spec fn text_less_from(a: Seq<char>, b: Seq<char>, i: int) -> bool
    decreases a.len() - i,
{
    if i < 0 || i >= b.len() {
        false
    } else if i >= a.len() {
        true
    } else if a[i] != b[i] {
        a[i] < b[i]
    } else {
        text_less_from(a, b, i + 1)
    }
}

/// Does `a` come before `b`?  Texts are ordered character by character, a
/// text before every longer text that starts with it.
pub open spec fn text_less(a: Seq<char>, b: Seq<char>) -> bool {
    text_less_from(a, b, 0)
}

/// Does `a` come before `b`?
pub fn comes_before(a: &[char], b: &[char]) -> (before: bool)
    ensures
        before == text_less(a@, b@),
{
    let mut i: usize = 0;
    while i < a.len() && i < b.len()
        invariant
            0 <= i <= a@.len(),
            i <= b@.len(),
            text_less(a@, b@) == text_less_from(a@, b@, i as int),
        decreases a@.len() - i,
    {
        if a[i] != b[i] {
            return a[i] < b[i];
        }
        i += 1;
    }
    i < b.len()
}

/// The digit that stands for `d`, a number below ten.
pub open spec fn digit_char(d: nat) -> char {
    if d == 0 {
        '0'
    } else if d == 1 {
        '1'
    } else if d == 2 {
        '2'
    } else if d == 3 {
        '3'
    } else if d == 4 {
        '4'
    } else if d == 5 {
        '5'
    } else if d == 6 {
        '6'
    } else if d == 7 {
        '7'
    } else if d == 8 {
        '8'
    } else {
        '9'
    }
}

/// `n` in base ten, without leading zeros; zero is `0`.
pub open spec fn digits_of(n: nat) -> Seq<char>
    decreases n,
{
    if n < 10 {
        seq![digit_char(n)]
    } else {
        digits_of(n / 10).push(digit_char(n % 10))
    }
}

/// What is written for a number reads back as that number.
pub proof fn lemma_digits_read_back(n: nat)
    ensures
        digits_of(n).len() > 0,
        all_digits(digits_of(n)),
        decimal_value(digits_of(n)) == n,
        n <= u32::MAX ==> decimal_u32(digits_of(n)) == Some(n as u32),
    decreases n,
{
    let digits = digits_of(n);
    if n < 10 {
        assert(digits.drop_last() =~= Seq::<char>::empty());
        assert(decimal_value(digits.drop_last()) == 0);
        assert(digit_value(digits.last()) == n);
    } else {
        lemma_digits_read_back(n / 10);
        assert(digits.drop_last() =~= digits_of(n / 10));
        assert(digit_value(digits.last()) == n % 10);
        assert forall|i: int| 0 <= i < digits.len() implies is_digit(#[trigger] digits[i]) by {
            if i < digits.len() - 1 {
                assert(digits[i] == digits_of(n / 10)[i]);
            }
        }
    }
    assert(digits[0] != '+') by {
        assert(is_digit(digits[0]));
    }
}

/// Appends `n` in base ten to `out`.
pub fn push_decimal(n: u32, out: &mut Vec<char>)
    ensures
        final(out)@ == old(out)@ + digits_of(n as nat),
    decreases n,
{
    if n >= 10 {
        push_decimal(n / 10, out);
    }
    let d = n % 10;
    let c = if d == 0 {
        '0'
    } else if d == 1 {
        '1'
    } else if d == 2 {
        '2'
    } else if d == 3 {
        '3'
    } else if d == 4 {
        '4'
    } else if d == 5 {
        '5'
    } else if d == 6 {
        '6'
    } else if d == 7 {
        '7'
    } else if d == 8 {
        '8'
    } else {
        '9'
    };
    out.push(c);
    assert(out@ =~= old(out)@ + digits_of(n as nat));
}

/// The first index at or after `from` that holds white space, or the length
/// of `text` where there is none.
pub open spec fn first_blank(text: Seq<char>, from: int) -> int
    decreases text.len() - from,
{
    if from < 0 || from >= text.len() {
        text.len() as int
    } else if is_white_space(text[from]) {
        from
    } else {
        first_blank(text, from + 1)
    }
}

/// The words of `text` from index `start` on.
pub open spec fn words_from(text: Seq<char>, start: int) -> Seq<Seq<char>>
    decreases text.len() - start,
{
    let begin = first_ink(text, start);
    if start < 0 || begin < start || begin >= text.len() {
        Seq::empty()
    } else {
        let end = first_blank(text, begin);
        if end <= begin || end > text.len() {
            Seq::empty()
        } else {
            seq![text.subrange(begin, end)] + words_from(text, end)
        }
    }
}

/// The words of `text`: its longest stretches without white space.
pub open spec fn words_of(text: Seq<char>) -> Seq<Seq<char>> {
    words_from(text, 0)
}

/// A stretch of ink does not move the first blank.
pub proof fn lemma_first_blank_skips(text: Seq<char>, from: int, to: int)
    requires
        0 <= from <= to <= text.len(),
        forall|k: int| from <= k < to ==> !is_white_space(text[k]),
    ensures
        first_blank(text, from) == first_blank(text, to),
    decreases to - from,
{
    if from < to {
        lemma_first_blank_skips(text, from + 1, to);
    }
}

/// Splits `text` into its words.
pub fn split_words(text: &[char]) -> (words: Vec<Vec<char>>)
    ensures
        line_views(words@) == words_of(text@),
{
    let n = text.len();
    let mut words: Vec<Vec<char>> = Vec::new();
    let mut start: usize = 0;
    while start < n
        invariant
            n == text@.len(),
            0 <= start <= n,
            line_views(words@) + words_from(text@, start as int) == words_of(text@),
        decreases n - start,
    {
        let mut begin: usize = start;
        while begin < n && white_space(text[begin])
            invariant
                n == text@.len(),
                start <= begin <= n,
                forall|k: int| start <= k < begin ==> is_white_space(text@[k]),
            decreases n - begin,
        {
            begin += 1;
        }
        proof {
            lemma_first_ink_skips(text@, start as int, begin as int);
            assert(first_ink(text@, start as int) == begin);
        }
        if begin == n {
            assert(words_from(text@, start as int) == Seq::<Seq<char>>::empty());
            assert(words_from(text@, n as int) == Seq::<Seq<char>>::empty());
            start = n;
        } else {
            let mut end: usize = begin + 1;
            while end < n && !white_space(text[end])
                invariant
                    n == text@.len(),
                    begin < end <= n,
                    forall|k: int| begin <= k < end ==> !is_white_space(text@[k]),
                decreases n - end,
            {
                end += 1;
            }
            let word = copy_range(text, begin, end);
            proof {
                lemma_first_blank_skips(text@, begin as int, end as int);
                assert(first_blank(text@, begin as int) == end);
                assert(words_from(text@, start as int) == seq![word@] + words_from(
                    text@,
                    end as int,
                ));
                assert(line_views(words@.push(word)) == line_views(words@) + seq![word@]);
                assert((line_views(words@) + seq![word@]) + words_from(text@, end as int)
                    == line_views(words@) + (seq![word@] + words_from(text@, end as int)));
            }
            words.push(word);
            start = end;
        }
    }
    assert(words_from(text@, start as int) == Seq::<Seq<char>>::empty());
    assert(line_views(words@) + Seq::<Seq<char>>::empty() == line_views(words@));
    words
}

/// From an index up to which they agree, two texts are the same or one of
/// them comes before the other, and never both.
pub proof fn lemma_text_order_from(a: Seq<char>, b: Seq<char>, i: int)
    requires
        0 <= i <= a.len(),
        i <= b.len(),
        forall|k: int| 0 <= k < i ==> a[k] == b[k],
    ensures
        a == b || text_less_from(a, b, i) || text_less_from(b, a, i),
        !(text_less_from(a, b, i) && text_less_from(b, a, i)),
        a == b ==> !text_less_from(a, b, i),
    decreases a.len() - i,
{
    if i == a.len() && i == b.len() {
        assert(a =~= b);
    } else if i < a.len() && i < b.len() && a[i] == b[i] {
        lemma_text_order_from(a, b, i + 1);
    }
}

/// The order of texts is total and strict: of two different texts exactly
/// one comes before the other, and no text comes before itself.
pub proof fn lemma_text_order_total(a: Seq<char>, b: Seq<char>)
    ensures
        a == b || text_less(a, b) || text_less(b, a),
        !(text_less(a, b) && text_less(b, a)),
        !text_less(a, a),
{
    lemma_text_order_from(a, b, 0);
    lemma_text_order_from(a, a, 0);
}

/// The order of texts from an index on is transitive.
pub proof fn lemma_text_order_transitive_from(a: Seq<char>, b: Seq<char>, c: Seq<char>, i: int)
    requires
        0 <= i,
        text_less_from(a, b, i),
        text_less_from(b, c, i),
    ensures
        text_less_from(a, c, i),
    decreases a.len() - i,
{
    if i < a.len() && a[i] == b[i] && b[i] == c[i] {
        lemma_text_order_transitive_from(a, b, c, i + 1);
    }
}

/// What comes before a text comes before all that the text comes before.
pub proof fn lemma_text_order_transitive(a: Seq<char>, b: Seq<char>, c: Seq<char>)
    requires
        text_less(a, b),
        text_less(b, c),
    ensures
        text_less(a, c),
{
    lemma_text_order_transitive_from(a, b, c, 0);
}

} // verus!
