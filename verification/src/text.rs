//! Text helpers: decimal text of integers, character access, splitting, and
//! the parsing of unsigned decimal numbers.
use vstd::prelude::*;
use vstd::std_specs::iter::IteratorSpec;

verus! {

/// Calls `String::push`, which appends one character.
#[verifier::external_body]
pub fn push_char(text: &mut String, c: char)
    ensures
        final(text)@ == old(text)@.push(c),
{
    text.push(c);
}

pub open spec fn digit_char(d: int) -> char {
    if d == 0 {
        '0'
    } else if d == 1 {
        '1'
    } else if d == 2 {
        '2'
    } else if d == 3 {
        '3'
    } else if d == 4 {
        '4'
    } else if d == 5 {
        '5'
    } else if d == 6 {
        '6'
    } else if d == 7 {
        '7'
    } else if d == 8 {
        '8'
    } else {
        '9'
    }
}

/// The decimal digits of `n`, most significant first, without leading zeros.
pub open spec fn decimal_digits(n: nat) -> Seq<char>
    decreases n,
{
    if n < 10 {
        seq![digit_char(n as int)]
    } else {
        decimal_digits(n / 10).push(digit_char((n % 10) as int))
    }
}

/// The decimal text of `i`, with a leading `-` when it is negative.
pub open spec fn decimal_text(i: int) -> Seq<char> {
    if i < 0 {
        seq!['-'] + decimal_digits((-i) as nat)
    } else {
        decimal_digits(i as nat)
    }
}

fn digit(d: u64) -> (c: char)
    requires
        d < 10,
    ensures
        c == digit_char(d as int),
{
    match d {
        0 => '0',
        1 => '1',
        2 => '2',
        3 => '3',
        4 => '4',
        5 => '5',
        6 => '6',
        7 => '7',
        8 => '8',
        _ => '9',
    }
}

/// Appends the decimal digits of `n`.
pub fn push_decimal_digits(text: &mut String, n: u64)
    ensures
        final(text)@ == old(text)@ + decimal_digits(n as nat),
    decreases n,
{
    if n >= 10 {
        push_decimal_digits(text, n / 10);
    }
    push_char(text, digit(n % 10));
    proof {
        if n >= 10 {
            assert(old(text)@ + decimal_digits((n / 10) as nat) + seq![digit_char((n % 10) as int)]
                =~= old(text)@ + decimal_digits(n as nat));
        } else {
            assert(old(text)@.push(digit_char((n % 10) as int)) =~= old(text)@ + decimal_digits(n as nat));
        }
    }
}

/// Appends the decimal text of `i`.
pub fn push_decimal_i64(text: &mut String, i: i64)
    ensures
        final(text)@ == old(text)@ + decimal_text(i as int),
{
    if i < 0 {
        push_char(text, '-');
        let magnitude: u64 = if i == i64::MIN {
            9223372036854775808u64
        } else {
            (-i) as u64
        };
        push_decimal_digits(text, magnitude);
        proof {
            assert(old(text)@.push('-') + decimal_digits(magnitude as nat) =~= old(text)@ + decimal_text(i as int));
        }
    } else {
        push_decimal_digits(text, i as u64);
    }
}

/// The decimal text of an unsigned number.
pub fn decimal_u64(n: u64) -> (text: String)
    ensures
        text@ == decimal_digits(n as nat),
{
    let mut text = String::new();
    push_decimal_digits(&mut text, n);
    proof {
        assert(Seq::<char>::empty() + decimal_digits(n as nat) =~= decimal_digits(n as nat));
    }
    text
}


/// The characters of `text`, in order.
pub fn chars_of(text: &str) -> (chars: Vec<char>)
    ensures
        chars@ == text@,
{
    let mut chars: Vec<char> = Vec::new();
    for c in it: text.chars()
        invariant
            it.seq() == text@,
            chars@ == it.seq().take(it.index() as int),
    {
        chars.push(c);
    }
    chars
}


/// The text made of `chars[from..to]`.
pub fn string_from_chars(chars: &Vec<char>, from: usize, to: usize) -> (text: String)
    requires
        from <= to <= chars@.len(),
    ensures
        text@ == chars@.subrange(from as int, to as int),
{
    let mut text = String::new();
    let mut i = from;
    while i < to
        invariant
            from <= i <= to,
            to <= chars@.len(),
            text@ == chars@.subrange(from as int, i as int),
        decreases to - i,
    {
        push_char(&mut text, chars[i]);
        proof {
            assert(chars@.subrange(from as int, i as int).push(chars@[i as int]) =~= chars@.subrange(
                from as int,
                i + 1,
            ));
        }
        i = i + 1;
    }
    text
}

/// The position of the first `c` in `s`, or -1 when there is none.
pub open spec fn spec_first_index(s: Seq<char>, c: char) -> int
    decreases s.len(),
{
    if s.len() == 0 {
        -1
    } else if spec_first_index(s.drop_last(), c) >= 0 {
        spec_first_index(s.drop_last(), c)
    } else if s.last() == c {
        s.len() - 1
    } else {
        -1
    }
}

pub proof fn lemma_first_index(s: Seq<char>, c: char)
    ensures
        -1 <= spec_first_index(s, c) < s.len(),
        spec_first_index(s, c) >= 0 ==> s[spec_first_index(s, c)] == c,
        forall|i: int| 0 <= i < s.len() && (spec_first_index(s, c) < 0 || i < spec_first_index(s, c)) ==> #[trigger] s[i] != c,
    decreases s.len(),
{
    if s.len() > 0 {
        lemma_first_index(s.drop_last(), c);
        assert forall|i: int| 0 <= i < s.len() - 1 implies s.drop_last()[i] == s[i] by {}
    }
}

/// What `str::split_once` gives for a one-character separator: the text
/// before the first `sep` and the text after it.
pub open spec fn spec_split_once(s: Seq<char>, sep: char) -> Option<(Seq<char>, Seq<char>)> {
    let i = spec_first_index(s, sep);
    if i >= 0 {
        Some((s.take(i), s.skip(i + 1)))
    } else {
        None
    }
}

/// Splits `text` at its first `sep`.
pub fn split_once(text: &str, sep: char) -> (parts: Option<(String, String)>)
    ensures
        match parts {
            Some((head, tail)) => spec_split_once(text@, sep) == Some((head@, tail@)),
            None => spec_split_once(text@, sep) is None,
        },
{
    let chars = chars_of(text);
    proof {
        lemma_first_index(text@, sep);
    }
    let mut i: usize = 0;
    while i < chars.len()
        invariant
            chars@ == text@,
            i <= chars@.len(),
            -1 <= spec_first_index(text@, sep) < text@.len(),
            spec_first_index(text@, sep) >= 0 ==> text@[spec_first_index(text@, sep)] == sep,
            forall|j: int| 0 <= j < text@.len() && (spec_first_index(text@, sep) < 0 || j < spec_first_index(text@, sep)) ==> #[trigger] text@[j] != sep,
            forall|j: int| 0 <= j < i ==> #[trigger] chars@[j] != sep,
        decreases chars@.len() - i,
    {
        if chars[i] == sep {
            proof {
                assert(spec_first_index(text@, sep) == i);
            }
            let head = string_from_chars(&chars, 0, i);
            let tail = string_from_chars(&chars, i + 1, chars.len());
            proof {
                assert(head@ =~= text@.take(i as int));
                assert(tail@ =~= text@.skip(i + 1));
            }
            return Some((head, tail));
        }
        i = i + 1;
    }
    proof {
        if spec_first_index(text@, sep) >= 0 {
            assert(chars@[spec_first_index(text@, sep)] != sep);
        }
    }
    None
}

/// `text` without the run of `c` at its end.
pub open spec fn spec_trim_end(s: Seq<char>, c: char) -> Seq<char>
    decreases s.len(),
{
    if s.len() > 0 && s.last() == c {
        spec_trim_end(s.drop_last(), c)
    } else {
        s
    }
}

/// The length of `chars[..len]` without its trailing run of `c`.
fn trimmed_len(chars: &Vec<char>, len: usize, c: char) -> (n: usize)
    requires
        len <= chars@.len(),
    ensures
        n <= len,
        chars@.take(n as int) == spec_trim_end(chars@.take(len as int), c),
{
    let mut n = len;
    while n > 0 && chars[n - 1] == c
        invariant
            n <= len <= chars@.len(),
            spec_trim_end(chars@.take(n as int), c) == spec_trim_end(chars@.take(len as int), c),
        decreases n,
    {
        proof {
            assert(chars@.take(n as int).drop_last() =~= chars@.take(n - 1));
        }
        n = n - 1;
    }
    n
}

/// A line as read from a stream, without its line feeds and then without the
/// carriage returns before them.
pub open spec fn spec_line_content(line: Seq<char>) -> Seq<char> {
    spec_trim_end(spec_trim_end(line, '\n'), '\r')
}

/// Strips the line ending from a line read from a stream.
pub fn line_content(line: &str) -> (content: String)
    ensures
        content@ == spec_line_content(line@),
{
    let chars = chars_of(line);
    proof {
        assert(chars@.take(chars@.len() as int) =~= chars@);
    }
    let without_feeds = trimmed_len(&chars, chars.len(), '\n');
    let n = trimmed_len(&chars, without_feeds, '\r');
    let content = string_from_chars(&chars, 0, n);
    proof {
        assert(content@ =~= chars@.take(n as int));
    }
    content
}

pub open spec fn is_digit(c: char) -> bool {
    '0' <= c && c <= '9'
}

pub open spec fn digit_value(c: char) -> int {
    (c as int) - ('0' as int)
}

pub open spec fn all_digits(s: Seq<char>) -> bool {
    forall|i: int| 0 <= i < s.len() ==> is_digit(#[trigger] s[i])
}

/// The number that a run of decimal digits writes.
pub open spec fn digits_value(s: Seq<char>) -> int
    decreases s.len(),
{
    if s.len() == 0 {
        0
    } else {
        digits_value(s.drop_last()) * 10 + digit_value(s.last())
    }
}

/// The digits of an unsigned number's text, after an optional plus sign.
pub open spec fn unsigned_body(s: Seq<char>) -> Seq<char> {
    if s.len() > 0 && s[0] == '+' {
        s.drop_first()
    } else {
        s
    }
}

/// What `from_str` of an unsigned integer type whose largest value is `max`
/// makes of `s`: an optional plus sign, then one or more decimal digits that
/// write a number no larger than `max`.
pub open spec fn spec_parse_unsigned(s: Seq<char>, max: int) -> Option<int> {
    let body = unsigned_body(s);
    if body.len() > 0 && all_digits(body) && digits_value(body) <= max {
        Some(digits_value(body))
    } else {
        None
    }
}

proof fn lemma_digits_value_grows(s: Seq<char>, k: int)
    requires
        all_digits(s),
        0 <= k <= s.len(),
    ensures
        0 <= digits_value(s.take(k)) <= digits_value(s),
    decreases s.len(),
{
    if s.len() > 0 {
        let init = s.drop_last();
        assert forall|i: int| 0 <= i < init.len() implies is_digit(#[trigger] init[i]) by {
            assert(init[i] == s[i]);
        }
        assert(is_digit(s[s.len() - 1]));
        if k == s.len() {
            assert(s.take(k) =~= s);
            lemma_digits_value_grows(init, init.len() as int);
            assert(init.take(init.len() as int) =~= init);
        } else {
            assert(init.take(k) =~= s.take(k));
            lemma_digits_value_grows(init, k);
        }
    }
}

/// Parses an unsigned decimal number no larger than `max`.
pub fn parse_unsigned(text: &str, max: u64) -> (value: Option<u64>)
    ensures
        match value {
            Some(v) => spec_parse_unsigned(text@, max as int) == Some(v as int),
            None => spec_parse_unsigned(text@, max as int) is None,
        },
{
    let chars = chars_of(text);
    let start: usize = if chars.len() > 0 && chars[0] == '+' { 1 } else { 0 };
    let ghost body = unsigned_body(text@);
    proof {
        assert(body =~= chars@.skip(start as int));
    }
    if start == chars.len() {
        return None;
    }
    let mut value: u64 = 0;
    let mut i = start;
    while i < chars.len()
        invariant
            chars@ == text@,
            start <= i <= chars@.len(),
            body == chars@.skip(start as int),
            body == unsigned_body(text@),
            value <= max,
            all_digits(body.take(i - start)),
            value == digits_value(body.take(i - start)),
        decreases chars@.len() - i,
    {
        let c = chars[i];
        proof {
            assert(body[i - start] == c);
            assert(body.take(i - start + 1).drop_last() =~= body.take(i - start));
        }
        if !('0' <= c && c <= '9') {
            proof {
                assert(!is_digit(body[i - start]));
            }
            return None;
        }
        let d = (c as u32 - '0' as u32) as u64;
        let next: u128 = value as u128 * 10 + d as u128;
        proof {
            assert(all_digits(body.take(i - start + 1)));
            assert(next == digits_value(body.take(i - start + 1)));
        }
        if next > max as u128 {
            proof {
                if all_digits(body) {
                    lemma_digits_value_grows(body, i - start + 1);
                }
            }
            return None;
        }
        value = next as u64;
        i = i + 1;
    }
    proof {
        assert(body.take(i - start) =~= body);
    }
    Some(value)
}

proof fn lemma_digit_char(d: int)
    requires
        0 <= d < 10,
    ensures
        is_digit(digit_char(d)),
        digit_value(digit_char(d)) == d,
        digit_char(d) != '+',
{
}

/// The decimal digits of a number are digits that write it back, and do not
/// start with a plus sign.
pub proof fn lemma_decimal_digits(n: nat)
    ensures
        decimal_digits(n).len() > 0,
        all_digits(decimal_digits(n)),
        digits_value(decimal_digits(n)) == n,
        decimal_digits(n)[0] != '+',
        !decimal_digits(n).contains(' '),
        !decimal_digits(n).contains(':'),
    decreases n,
{
    if n < 10 {
        lemma_digit_char(n as int);
        assert(decimal_digits(n)[0] == digit_char(n as int));
        assert(decimal_digits(n).drop_last() =~= Seq::<char>::empty());
        assert(digits_value(Seq::<char>::empty()) == 0);
        assert(decimal_digits(n).last() == digit_char(n as int));
    } else {
        lemma_decimal_digits(n / 10);
        lemma_digit_char((n % 10) as int);
        let d = decimal_digits(n);
        assert(d.drop_last() =~= decimal_digits(n / 10));
        assert forall|i: int| 0 <= i < d.len() implies is_digit(#[trigger] d[i]) by {
            if i < d.len() - 1 {
                assert(d[i] == decimal_digits(n / 10)[i]);
            }
        }
        assert(d[0] == decimal_digits(n / 10)[0]);
        assert(digits_value(d) == digits_value(decimal_digits(n / 10)) * 10 + (n % 10));
        assert((n / 10) * 10 + n % 10 == n);
        if d.contains(' ') {
            let i = choose|i: int| 0 <= i < d.len() && d[i] == ' ';
            assert(is_digit(d[i]));
        }
        if d.contains(':') {
            let i = choose|i: int| 0 <= i < d.len() && d[i] == ':';
            assert(is_digit(d[i]));
        }
    }
}

/// Parsing the decimal text of a number gives the number back.
pub proof fn law_parse_decimal_round_trip(n: nat, max: int)
    requires
        n <= max,
    ensures
        spec_parse_unsigned(decimal_digits(n), max) == Some(n as int),
{
    lemma_decimal_digits(n);
}


/// Appends every character of `other`.
pub fn push_text(text: &mut String, other: &str)
    ensures
        final(text)@ == old(text)@ + other@,
{
    let chars = chars_of(other);
    let mut i: usize = 0;
    while i < chars.len()
        invariant
            i <= chars@.len(),
            chars@ == other@,
            text@ == old(text)@ + other@.take(i as int),
        decreases chars@.len() - i,
    {
        push_char(text, chars[i]);
        proof {
            assert(old(text)@ + other@.take(i as int) + seq![chars@[i as int]] =~= old(text)@ + other@.take(i + 1));
        }
        i = i + 1;
    }
    proof {
        assert(other@.take(i as int) =~= other@);
    }
}


/// Text order: character by character by code point, a proper prefix first;
/// the order of `str` and `String`, since UTF-8 keeps code-point order.
pub open spec fn text_lt(a: Seq<char>, b: Seq<char>) -> bool
    decreases a.len(),
{
    if a.len() == 0 {
        b.len() > 0
    } else if b.len() == 0 {
        false
    } else if a[0] != b[0] {
        a[0] < b[0]
    } else {
        text_lt(a.drop_first(), b.drop_first())
    }
}

pub proof fn lemma_text_lt_irreflexive(a: Seq<char>)
    ensures
        !text_lt(a, a),
    decreases a.len(),
{
    if a.len() > 0 {
        lemma_text_lt_irreflexive(a.drop_first());
    }
}

pub proof fn lemma_text_lt_total(a: Seq<char>, b: Seq<char>)
    ensures
        a != b ==> text_lt(a, b) || text_lt(b, a),
        !(text_lt(a, b) && text_lt(b, a)),
    decreases a.len(),
{
    if a.len() > 0 && b.len() > 0 {
        lemma_text_lt_total(a.drop_first(), b.drop_first());
        if a[0] == b[0] && a != b {
            assert(a =~= seq![a[0]] + a.drop_first());
            assert(b =~= seq![b[0]] + b.drop_first());
        }
    } else if a.len() == 0 && b.len() == 0 {
        assert(a =~= b);
    }
}

pub proof fn lemma_text_lt_transitive(a: Seq<char>, b: Seq<char>, c: Seq<char>)
    requires
        text_lt(a, b),
        text_lt(b, c),
    ensures
        text_lt(a, c),
    decreases a.len(),
{
    if a.len() > 0 && b.len() > 0 && c.len() > 0 {
        if a[0] == b[0] && b[0] == c[0] {
            lemma_text_lt_transitive(a.drop_first(), b.drop_first(), c.drop_first());
        }
    }
}

/// Whether `a` comes before `b` in text order.
pub fn text_less(a: &str, b: &str) -> (less: bool)
    ensures
        less == text_lt(a@, b@),
{
    let x = chars_of(a);
    let y = chars_of(b);
    let mut i: usize = 0;
    proof {
        assert(a@.skip(0) =~= a@);
        assert(b@.skip(0) =~= b@);
    }
    while i < x.len() && i < y.len() && x[i] == y[i]
        invariant
            x@ == a@,
            y@ == b@,
            i <= x@.len(),
            i <= y@.len(),
            text_lt(a@, b@) == text_lt(a@.skip(i as int), b@.skip(i as int)),
        decreases x@.len() - i,
    {
        proof {
            assert(a@.skip(i as int).drop_first() =~= a@.skip(i + 1));
            assert(b@.skip(i as int).drop_first() =~= b@.skip(i + 1));
        }
        i = i + 1;
    }
    proof {
        if i < x.len() && i < y.len() {
            assert(a@.skip(i as int)[0] == x@[i as int]);
            assert(b@.skip(i as int)[0] == y@[i as int]);
        }
    }
    if i == x.len() {
        i < y.len()
    } else if i == y.len() {
        false
    } else {
        x[i] < y[i]
    }
}

} // verus!
