//! Text: numbers in decimal, white space, words and searching.

use vstd::arithmetic::div_mod::lemma_div_denominator;
use vstd::arithmetic::power::{lemma_pow_positive, pow};
use vstd::prelude::*;

verus! {

/// `String::push`: the character is appended to the text.
pub assume_specification[ String::push ](s: &mut String, c: char)
    ensures
        final(s)@ == old(s)@.push(c),
;

/// The decimal digit with value `d`.
pub open spec fn digit_char(d: nat) -> char {
    (('0' as nat + d) as u32) as char
}

/// `n` in decimal, without leading zeros.
pub open spec fn decimal(n: nat) -> Seq<char>
    decreases n,
{
    if n < 10 {
        seq![digit_char(n)]
    } else {
        decimal(n / 10).push(digit_char(n % 10))
    }
}

fn digit(d: u8) -> (c: char)
    requires
        d < 10,
    ensures
        c == digit_char(d as nat),
{
    (48u8 + d) as char
}

/// Appends `n` in decimal to `s`.
pub fn append_number(s: &mut String, n: usize)
    ensures
        final(s)@ == old(s)@ + decimal(n as nat),
    decreases n,
{
    if n >= 10 {
        append_number(s, n / 10);
    }
    s.push(digit((n % 10) as u8));
}

/// Why a text is not a number.
#[derive(Debug, Clone, Copy, PartialEq, Eq, Structural)]
pub enum NumberError {
    /// There is nothing to read.
    Empty,
    /// A character is not a digit.
    InvalidDigit,
    /// The number does not fit in a machine word.
    Overflow,
}

impl NumberError {
    pub open spec fn text(self) -> Seq<char> {
        match self {
            NumberError::Empty => "cannot parse integer from empty string"@,
            NumberError::InvalidDigit => "invalid digit found in string"@,
            NumberError::Overflow => "number too large to fit in target type"@,
        }
    }

    /// The error in words.
    pub fn message(&self) -> (r: String)
        ensures
            r@ == self.text(),
    {
        match self {
            NumberError::Empty => "cannot parse integer from empty string".to_owned(),
            NumberError::InvalidDigit => "invalid digit found in string".to_owned(),
            NumberError::Overflow => "number too large to fit in target type".to_owned(),
        }
    }
}

/// Whether `c` is a decimal digit.
pub open spec fn is_digit(c: char) -> bool {
    '0' <= c <= '9'
}

/// The value of a decimal digit.
pub open spec fn digit_value(c: char) -> nat {
    (c as nat - '0' as nat) as nat
}

/// The value of a row of digits, read from the left; the first character at which reading goes
/// wrong decides the error.
pub open spec fn digits_value(s: Seq<char>) -> Result<nat, NumberError>
    decreases s.len(),
{
    if s.len() == 0 {
        Ok(0)
    } else {
        match digits_value(s.drop_last()) {
            Err(e) => Err(e),
            Ok(v) => if !is_digit(s.last()) {
                Err(NumberError::InvalidDigit)
            } else if v * 10 + digit_value(s.last()) > usize::MAX {
                Err(NumberError::Overflow)
            } else {
                Ok(v * 10 + digit_value(s.last()))
            },
        }
    }
}

/// The number that a text stands for: digits, after a plus sign at most.
pub open spec fn number(s: Seq<char>) -> Result<nat, NumberError> {
    if s.len() == 0 {
        Err(NumberError::Empty)
    } else if s[0] == '+' {
        if s.len() == 1 {
            Err(NumberError::InvalidDigit)
        } else {
            digits_value(s.drop_first())
        }
    } else {
        digits_value(s)
    }
}

/// Once reading has gone wrong, further characters change nothing.
proof fn lemma_digits_error_stays(s: Seq<char>, i: int)
    requires
        0 <= i <= s.len(),
        digits_value(s.take(i)) is Err,
    ensures
        digits_value(s) == digits_value(s.take(i)),
    decreases s.len() - i,
{
    if i < s.len() {
        assert(s.take(i + 1).drop_last() =~= s.take(i));
        lemma_digits_error_stays(s, i + 1);
    } else {
        assert(s.take(i) =~= s);
    }
}

/// The number that the characters `from..to` stand for.
pub fn parse_number(chars: &Vec<char>, from: usize, to: usize) -> (r: Result<usize, NumberError>)
    requires
        from <= to <= chars@.len(),
    ensures
        match r {
            Ok(n) => number(chars@.subrange(from as int, to as int)) == Ok::<nat, NumberError>(
                n as nat,
            ),
            Err(e) => number(chars@.subrange(from as int, to as int)) == Err::<nat, NumberError>(e),
        },
{
    let ghost s = chars@.subrange(from as int, to as int);
    if from == to {
        return Err(NumberError::Empty);
    }
    let mut i: usize = from;
    if chars[from] == '+' {
        if to - from == 1 {
            return Err(NumberError::InvalidDigit);
        }
        i = from + 1;
    }
    let start: usize = i;
    let ghost digits = chars@.subrange(start as int, to as int);
    proof {
        if start == from + 1 {
            assert(s.drop_first() =~= digits);
        }
        assert(digits.take(0) =~= Seq::<char>::empty());
    }
    let mut v: usize = 0;
    while i < to
        invariant
            start <= i <= to <= chars@.len(),
            from <= start,
            digits == chars@.subrange(start as int, to as int),
            number(s) == digits_value(digits),
            s == chars@.subrange(from as int, to as int),
            digits_value(digits.take(i - start)) == Ok::<nat, NumberError>(v as nat),
        decreases to - i,
    {
        let c: char = chars[i];
        proof {
            let next = digits.take(i - start + 1);
            assert(next.drop_last() =~= digits.take(i - start));
            assert(next.last() == c);
            if digits_value(next) is Err {
                lemma_digits_error_stays(digits, i - start + 1);
            }
        }
        if c < '0' || c > '9' {
            return Err(NumberError::InvalidDigit);
        }
        let d: usize = c as usize - '0' as usize;
        if v > usize::MAX / 10 {
            return Err(NumberError::Overflow);
        }
        let tens: usize = v * 10;
        if d > usize::MAX - tens {
            return Err(NumberError::Overflow);
        }
        v = tens + d;
        i = i + 1;
    }
    assert(digits.take(to - start) =~= digits);
    Ok(v)
}

/// Writing a number in decimal and reading it gives the number.
pub proof fn lemma_number_of_decimal(n: nat)
    requires
        n <= usize::MAX,
    ensures
        number(decimal(n)) == Ok::<nat, NumberError>(n),
{
    lemma_digits_of_decimal(n);
    assert(decimal(n).len() >= 1);
    assert(is_digit(decimal(n)[0]));
}

/// A number in decimal is a row of digits with its value.
pub proof fn lemma_digits_of_decimal(n: nat)
    requires
        n <= usize::MAX,
    ensures
        digits_value(decimal(n)) == Ok::<nat, NumberError>(n),
        decimal(n).len() >= 1,
        forall|i: int| 0 <= i < decimal(n).len() ==> is_digit(#[trigger] decimal(n)[i]),
    decreases n,
{
    if n < 10 {
        assert(decimal(n).drop_last() =~= Seq::<char>::empty());
        assert(digits_value(Seq::<char>::empty()) == Ok::<nat, NumberError>(0));
    } else {
        lemma_digits_of_decimal(n / 10);
        assert(decimal(n).drop_last() =~= decimal(n / 10));
    }
}

/// A number in decimal has at each place, counted from the right, the digit of that power of ten.
/// It has as many places as it needs, and no zero in front.
pub proof fn lemma_decimal_places(n: nat)
    ensures
        ({
            let s = decimal(n);
            let len = s.len() as int;
            &&& len > 0
            &&& n < pow(10, len as nat)
            &&& len > 1 ==> pow(10, (len - 1) as nat) <= n
            &&& forall|i: int|
                0 <= i < len ==> (#[trigger] s[len - 1 - i]) as int == '0' as int + (n as int / pow(
                    10,
                    i as nat,
                )) % 10
        }),
    decreases n,
{
    reveal(pow);
    let s = decimal(n);
    let len = s.len() as int;
    if n < 10 {
        assert(pow(10, 1) == 10) by {
            reveal_with_fuel(pow, 2);
        }
        assert(pow(10, 0) == 1);
    } else {
        let t = decimal(n / 10);
        lemma_decimal_places(n / 10);
        assert(pow(10, len as nat) == 10 * pow(10, (len - 1) as nat));
        assert(pow(10, (len - 1) as nat) == 10 * pow(10, (len - 2) as nat));
        assert forall|i: int| 0 <= i < len implies (#[trigger] s[len - 1 - i]) as int == '0' as int
            + (n as int / pow(10, i as nat)) % 10 by {
            if i == 0 {
                assert(pow(10, 0) == 1);
            } else {
                let k = i - 1;
                assert(s[len - 1 - i] == t[len - 1 - 1 - k]);
                assert(pow(10, i as nat) == 10 * pow(10, k as nat));
                lemma_pow_positive(10, k as nat);
                lemma_div_denominator(n as int, 10, pow(10, k as nat));
            }
        }
    }
}

/// Reading a number goes digit by digit: a further digit makes ten times the number and the digit
/// of it where that fits in a machine word, and anything else at that place is an error.
pub proof fn lemma_number_grows_by_digit(s: Seq<char>, c: char)
    requires
        number(s) is Ok,
    ensures
        number(s.push(c)) == if c < '0' || c > '9' {
            Err::<nat, NumberError>(NumberError::InvalidDigit)
        } else if number(s)->Ok_0 * 10 + (c as nat - '0' as nat) > usize::MAX {
            Err::<nat, NumberError>(NumberError::Overflow)
        } else {
            Ok::<nat, NumberError>((number(s)->Ok_0 * 10 + (c as nat - '0' as nat)) as nat)
        },
{
    assert(s.push(c).drop_last() =~= s);
    if s[0] == '+' {
        let t = s.drop_first();
        assert(s.push(c).drop_first() =~= t.push(c));
        assert(t.push(c).drop_last() =~= t);
    }
}

/// What is wrong with the start of a text stays wrong, whatever follows; only a plus sign that
/// stands alone can still become a number.
pub proof fn lemma_number_error_stays(s: Seq<char>, c: char)
    requires
        number(s) is Err,
        s.len() > 0,
        s.len() > 1 || s[0] != '+',
    ensures
        number(s.push(c)) == number(s),
{
    assert(s.push(c).drop_last() =~= s);
    if s[0] == '+' {
        let t = s.drop_first();
        assert(s.push(c).drop_first() =~= t.push(c));
        assert(t.push(c).drop_last() =~= t);
    }
}

/// A single digit stands for its value, with a plus sign in front of it or not. Without a digit
/// there is no number.
pub proof fn lemma_number_starts_with_digit(c: char)
    ensures
        number(Seq::empty()) == Err::<nat, NumberError>(NumberError::Empty),
        number(seq!['+']) == Err::<nat, NumberError>(NumberError::InvalidDigit),
        '0' <= c <= '9' ==> number(seq![c]) == Ok::<nat, NumberError>(
            (c as nat - '0' as nat) as nat,
        ),
        number(seq!['+', c]) == digits_value(seq![c]),
        c != '+' ==> number(seq![c]) == digits_value(seq![c]),
        c < '0' || c > '9' ==> digits_value(seq![c]) == Err::<nat, NumberError>(
            NumberError::InvalidDigit,
        ),
{
    assert(seq![c].drop_last() =~= Seq::<char>::empty());
    assert(digits_value(Seq::<char>::empty()) == Ok::<nat, NumberError>(0));
    assert(seq!['+', c].drop_first() =~= seq![c]);
}

/// Whether `c` is white space, as Unicode has it.
pub open spec fn is_white(c: char) -> bool {
    let u = c as u32;
    ||| 0x09 <= u <= 0x0d
    ||| u == 0x20
    ||| u == 0x85
    ||| u == 0xa0
    ||| u == 0x1680
    ||| 0x2000 <= u <= 0x200a
    ||| u == 0x2028
    ||| u == 0x2029
    ||| u == 0x202f
    ||| u == 0x205f
    ||| u == 0x3000
}

fn white(c: char) -> (r: bool)
    ensures
        r == is_white(c),
{
    let u: u32 = c as u32;
    (0x09 <= u && u <= 0x0d) || u == 0x20 || u == 0x85 || u == 0xa0 || u == 0x1680 || (0x2000 <= u
        && u <= 0x200a) || u == 0x2028 || u == 0x2029 || u == 0x202f || u == 0x205f || u == 0x3000
}

/// `s` without the white space at its start.
pub open spec fn trim_start(s: Seq<char>) -> Seq<char>
    decreases s.len(),
{
    if s.len() > 0 && is_white(s[0]) {
        trim_start(s.drop_first())
    } else {
        s
    }
}

/// `s` without the white space at its end.
pub open spec fn trim_end(s: Seq<char>) -> Seq<char>
    decreases s.len(),
{
    if s.len() > 0 && is_white(s.last()) {
        trim_end(s.drop_last())
    } else {
        s
    }
}

/// `s` without the white space around it.
pub open spec fn trimmed(s: Seq<char>) -> Seq<char> {
    trim_end(trim_start(s))
}

/// Whether the characters `a..b` of `s` are all that is left of it without the white space around
/// it: there is nothing but white space before and behind them, and none at their ends.
pub open spec fn is_core(s: Seq<char>, a: int, b: int) -> bool {
    &&& 0 <= a <= b <= s.len()
    &&& forall|i: int| 0 <= i < a || b <= i < s.len() ==> is_white(#[trigger] s[i])
    &&& a < b ==> !is_white(s[a]) && !is_white(s[b - 1])
}

/// Trimming takes away the white space around a text and nothing else: what is left is one piece of
/// the text, and all that is gone is white.
pub proof fn lemma_trimmed(s: Seq<char>)
    ensures
        exists|a: int, b: int| #[trigger] is_core(s, a, b) && trimmed(s) == s.subrange(a, b),
{
    lemma_trim_start_is_suffix(s);
    let t = trim_start(s);
    lemma_trim_start(s);
    lemma_trim_end_is_prefix(t);
    let u = trim_end(t);
    let a = s.len() - t.len();
    let b = a + u.len();
    assert(u =~= s.subrange(a, b));
    assert forall|i: int| b <= i < s.len() implies is_white(#[trigger] s[i]) by {
        assert(t[i - a] == s[i]);
    }
    if a < b {
        assert(t[0] == s[a]);
        assert(u[u.len() - 1] == s[b - 1]);
    }
    assert(is_core(s, a, b));
}

/// A text that is trimmed stays as it is when it is trimmed again, and white space around a text
/// makes no difference.
pub proof fn lemma_trimmed_is_all_that_counts(before: Seq<char>, s: Seq<char>, after: Seq<char>)
    requires
        forall|i: int| 0 <= i < before.len() ==> is_white(#[trigger] before[i]),
        forall|i: int| 0 <= i < after.len() ==> is_white(#[trigger] after[i]),
        s.len() > 0,
        !is_white(s[0]),
        !is_white(s.last()),
    ensures
        trimmed(before + s + after) == s,
{
    let all = before + s + after;
    lemma_trimmed(all);
    let (a, b) = choose|a: int, b: int|
        #[trigger] is_core(all, a, b) && trimmed(all) == all.subrange(a, b);
    let n = before.len() as int;
    let m = n + s.len();
    assert(all[n] == s[0]);
    assert(all[m - 1] == s.last());
    assert(a <= n && m <= b);
    if a < n {
        assert(all[a] == before[a]);
    }
    if m < b {
        assert(all[b - 1] == after[b - 1 - m]);
    }
    assert(all.subrange(n, m) =~= s);
}

proof fn lemma_trim_start_is_suffix(s: Seq<char>)
    ensures
        trim_start(s).len() <= s.len(),
        trim_start(s) == s.skip(s.len() - trim_start(s).len()),
        forall|i: int|
            0 <= i < s.len() - trim_start(s).len() ==> is_white(#[trigger] s[i]),
    decreases s.len(),
{
    if s.len() > 0 && is_white(s[0]) {
        let t = s.drop_first();
        lemma_trim_start_is_suffix(t);
        assert(t.skip(t.len() - trim_start(t).len()) =~= s.skip(s.len() - trim_start(s).len()));
        assert forall|i: int| 0 <= i < s.len() - trim_start(s).len() implies is_white(
            #[trigger] s[i],
        ) by {
            if i > 0 {
                assert(t[i - 1] == s[i]);
            }
        }
    } else {
        assert(s.skip(0) =~= s);
    }
}

proof fn lemma_trim_end_is_prefix(s: Seq<char>)
    ensures
        trim_end(s).len() <= s.len(),
        trim_end(s) == s.take(trim_end(s).len() as int),
        forall|i: int| trim_end(s).len() <= i < s.len() ==> is_white(#[trigger] s[i]),
        trim_end(s).len() > 0 ==> !is_white(trim_end(s).last()),
    decreases s.len(),
{
    if s.len() > 0 && is_white(s.last()) {
        let t = s.drop_last();
        lemma_trim_end_is_prefix(t);
        assert(t.take(trim_end(t).len() as int) =~= s.take(trim_end(s).len() as int));
        assert forall|i: int| trim_end(s).len() <= i < s.len() implies is_white(#[trigger] s[i]) by {
            if i < s.len() - 1 {
                assert(t[i] == s[i]);
            }
        }
    } else {
        assert(s.take(s.len() as int) =~= s);
    }
}

/// The characters of a text.
pub fn chars_of(s: &str) -> (chars: Vec<char>)
    ensures
        chars@ == s@,
{
    let mut chars: Vec<char> = Vec::new();
    for c in it: s.chars()
        invariant
            chars@ == it.seq().take(it.index() as int),
            it.seq() == s@,
    {
        chars.push(c);
    }
    chars
}

/// The text without the white space around it.
pub fn trim(s: &str) -> (r: &str)
    ensures
        r@ == trimmed(s@),
{
    let chars: Vec<char> = chars_of(s);
    let n: usize = chars.len();
    let from: usize = skip_white(&chars, 0, n);
    assert(s@.subrange(0, n as int) =~= s@);
    let mut to: usize = n;
    while from < to && white(chars[to - 1])
        invariant
            from <= to <= n,
            n == chars@.len(),
            chars@ == s@,
            trimmed(s@) == trim_end(s@.subrange(from as int, to as int)),
        decreases to,
    {
        assert(s@.subrange(from as int, to as int).drop_last() =~= s@.subrange(
            from as int,
            to - 1,
        ));
        to = to - 1;
    }
    s.substring_char(from, to)
}

/// Where the white space at `from` ends, at `to` at the latest.
fn skip_white(chars: &Vec<char>, from: usize, to: usize) -> (i: usize)
    requires
        from <= to <= chars@.len(),
    ensures
        from <= i <= to,
        trim_start(chars@.subrange(from as int, to as int)) == chars@.subrange(i as int, to as int),
{
    let mut i: usize = from;
    while i < to && white(chars[i])
        invariant
            from <= i <= to <= chars@.len(),
            trim_start(chars@.subrange(from as int, to as int)) == trim_start(
                chars@.subrange(i as int, to as int),
            ),
        decreases to - i,
    {
        assert(chars@.subrange(i as int, to as int).drop_first() =~= chars@.subrange(
            i + 1,
            to as int,
        ));
        i = i + 1;
    }
    i
}

/// How many characters of `s` come before its first white space.
pub open spec fn word_len(s: Seq<char>) -> nat
    decreases s.len(),
{
    if s.len() == 0 || is_white(s[0]) {
        0
    } else {
        1 + word_len(s.drop_first())
    }
}

/// A word is no longer than the text that starts with it.
pub proof fn lemma_word_len(s: Seq<char>)
    ensures
        word_len(s) <= s.len(),
        s.len() > 0 && !is_white(s[0]) ==> word_len(s) > 0,
    decreases s.len(),
{
    if s.len() > 0 && !is_white(s[0]) {
        lemma_word_len(s.drop_first());
    }
}

/// What is left without leading white space starts with something else.
pub proof fn lemma_trim_start(s: Seq<char>)
    ensures
        trim_start(s).len() <= s.len(),
        trim_start(s).len() > 0 ==> !is_white(trim_start(s)[0]),
    decreases s.len(),
{
    if s.len() > 0 && is_white(s[0]) {
        lemma_trim_start(s.drop_first());
    }
}

/// The words of `s`: what stands between white space.
pub open spec fn words(s: Seq<char>) -> Seq<Seq<char>>
    decreases s.len(),
{
    let t = trim_start(s);
    if t.len() == 0 {
        Seq::empty()
    } else {
        proof {
            lemma_trim_start(s);
            lemma_word_len(t);
        }
        seq![t.take(word_len(t) as int)] + words(t.skip(word_len(t) as int))
    }
}

/// Where the word at `from` ends, at `to` at the latest.
fn word_end(chars: &Vec<char>, from: usize, to: usize) -> (i: usize)
    requires
        from <= to <= chars@.len(),
    ensures
        i == from + word_len(chars@.subrange(from as int, to as int)),
        i <= to,
{
    let mut i: usize = from;
    while i < to && !white(chars[i])
        invariant
            from <= i <= to <= chars@.len(),
            word_len(chars@.subrange(from as int, to as int)) == i - from + word_len(
                chars@.subrange(i as int, to as int),
            ),
        decreases to - i,
    {
        assert(chars@.subrange(i as int, to as int).drop_first() =~= chars@.subrange(
            i + 1,
            to as int,
        ));
        i = i + 1;
    }
    i
}

/// A text starts with the word `s[i..j]` where there is nothing but white space before it, none in
/// it, and where white space or the end of the text comes behind it: the other words are those of
/// the rest.
pub proof fn lemma_words_start_with(s: Seq<char>, i: int, j: int)
    requires
        0 <= i < j <= s.len(),
        forall|k: int| 0 <= k < i ==> is_white(#[trigger] s[k]),
        forall|k: int| i <= k < j ==> !is_white(#[trigger] s[k]),
        j < s.len() ==> is_white(s[j]),
    ensures
        words(s) == seq![s.subrange(i, j)] + words(s.skip(j)),
    decreases s.len(),
{
    if i > 0 {
        let t = s.drop_first();
        assert(is_white(s[0]));
        assert forall|k: int| 0 <= k < i - 1 implies is_white(#[trigger] t[k]) by {
            assert(t[k] == s[k + 1]);
        }
        assert forall|k: int| i - 1 <= k < j - 1 implies !is_white(#[trigger] t[k]) by {
            assert(t[k] == s[k + 1]);
        }
        lemma_words_start_with(t, i - 1, j - 1);
        assert(t.subrange(i - 1, j - 1) =~= s.subrange(i, j));
        assert(t.skip(j - 1) =~= s.skip(j));
        assert(words(s) =~= words(t));
    } else {
        assert(!is_white(s[0]));
        lemma_word_len_is(s, j);
        assert(s.take(j) =~= s.subrange(0, j));
    }
}

/// A text of nothing but white space has no words.
pub proof fn lemma_white_has_no_words(s: Seq<char>)
    requires
        forall|k: int| 0 <= k < s.len() ==> is_white(#[trigger] s[k]),
    ensures
        words(s).len() == 0,
    decreases s.len(),
{
    if s.len() > 0 {
        let t = s.drop_first();
        assert(is_white(s[0]));
        assert forall|k: int| 0 <= k < t.len() implies is_white(#[trigger] t[k]) by {
            assert(t[k] == s[k + 1]);
        }
        lemma_white_has_no_words(t);
        assert(words(s) =~= words(t));
    }
}

proof fn lemma_word_len_is(s: Seq<char>, n: int)
    requires
        0 <= n <= s.len(),
        forall|k: int| 0 <= k < n ==> !is_white(#[trigger] s[k]),
        n < s.len() ==> is_white(s[n]),
    ensures
        word_len(s) == n,
    decreases n,
{
    if n > 0 {
        let t = s.drop_first();
        assert(!is_white(s[0]));
        assert forall|k: int| 0 <= k < n - 1 implies !is_white(#[trigger] t[k]) by {
            assert(t[k] == s[k + 1]);
        }
        lemma_word_len_is(t, n - 1);
    }
}

/// The first two words of a text, as ranges of its characters.
#[derive(Debug, Clone, Copy)]
pub struct TwoWords {
    pub first: (usize, usize),
    pub second: (usize, usize),
}

/// Finds the first two words among the first `to` characters.
pub fn two_words(chars: &Vec<char>, to: usize) -> (r: Option<TwoWords>)
    requires
        to <= chars@.len(),
    ensures
        match r {
            Some(w) => {
                let all = words(chars@.take(to as int));
                &&& all.len() >= 2
                &&& w.first.0 <= w.first.1 <= chars@.len()
                &&& w.second.0 <= w.second.1 <= chars@.len()
                &&& all[0] == chars@.subrange(w.first.0 as int, w.first.1 as int)
                &&& all[1] == chars@.subrange(w.second.0 as int, w.second.1 as int)
            },
            None => words(chars@.take(to as int)).len() < 2,
        },
{
    let ghost s = chars@.take(to as int);
    assert(s =~= chars@.subrange(0, to as int));
    let a: usize = skip_white(chars, 0, to);
    if a == to {
        return None;
    }
    let b: usize = word_end(chars, a, to);
    let ghost t = chars@.subrange(a as int, to as int);
    let ghost rest = chars@.subrange(b as int, to as int);
    assert(t.skip(word_len(t) as int) =~= rest);
    assert(t.take(word_len(t) as int) =~= chars@.subrange(a as int, b as int));
    assert(words(s) == seq![chars@.subrange(a as int, b as int)] + words(rest));
    let c: usize = skip_white(chars, b, to);
    if c == to {
        assert(words(rest).len() == 0);
        return None;
    }
    let d: usize = word_end(chars, c, to);
    let ghost u = chars@.subrange(c as int, to as int);
    assert(u.take(word_len(u) as int) =~= chars@.subrange(c as int, d as int));
    assert(words(rest)[0] == chars@.subrange(c as int, d as int));
    Some(TwoWords { first: (a, b), second: (c, d) })
}

/// Whether `needle` stands in `s` at `i`.
pub open spec fn occurs_at(s: Seq<char>, needle: Seq<char>, i: int) -> bool {
    &&& 0 <= i
    &&& i + needle.len() <= s.len()
    &&& s.subrange(i, i + needle.len()) == needle
}

/// The first place at or after `i` at which `needle` stands in `s`.
pub open spec fn find_from(s: Seq<char>, needle: Seq<char>, i: int) -> Option<int>
    decreases s.len() - i + 1,
{
    if i > s.len() {
        None
    } else if occurs_at(s, needle, i) {
        Some(i)
    } else {
        find_from(s, needle, i + 1)
    }
}

/// The first place at which `needle` stands in `s`.
pub open spec fn find(s: Seq<char>, needle: Seq<char>) -> Option<int> {
    find_from(s, needle, 0)
}

/// What is found is the first occurrence; nothing is found where there is none.
pub proof fn lemma_find_from(s: Seq<char>, needle: Seq<char>, i: int)
    requires
        0 <= i,
    ensures
        match find_from(s, needle, i) {
            Some(k) => {
                &&& i <= k
                &&& occurs_at(s, needle, k)
                &&& forall|j: int| i <= j < k ==> !(#[trigger] occurs_at(s, needle, j))
            },
            None => forall|j: int| i <= j ==> !(#[trigger] occurs_at(s, needle, j)),
        },
    decreases s.len() - i + 1,
{
    if i <= s.len() && !occurs_at(s, needle, i) {
        lemma_find_from(s, needle, i + 1);
    }
}

/// A place of `needle` before which there is none is the one that is found.
pub proof fn lemma_find_is_first(s: Seq<char>, needle: Seq<char>, k: int)
    requires
        occurs_at(s, needle, k),
        forall|j: int| 0 <= j < k ==> !(#[trigger] occurs_at(s, needle, j)),
    ensures
        find(s, needle) == Some(k),
{
    lemma_find_from(s, needle, 0);
}

/// Whether the characters from `at` on are those of `needle`.
fn matches_at(chars: &Vec<char>, at: usize, needle: &Vec<char>) -> (r: bool)
    requires
        at + needle@.len() <= chars@.len(),
    ensures
        r == occurs_at(chars@, needle@, at as int),
{
    let len: usize = chars.len();
    let mut i: usize = 0;
    while i < needle.len()
        invariant
            i <= needle@.len(),
            at + needle@.len() <= chars@.len() == len,
            forall|j: int| 0 <= j < i ==> chars@[at + j] == #[trigger] needle@[j],
        decreases needle@.len() - i,
    {
        if chars[at + i] != needle[i] {
            assert(chars@.subrange(at as int, at + needle@.len())[i as int] != needle@[i as int]);
            return false;
        }
        i = i + 1;
    }
    assert(chars@.subrange(at as int, at + needle@.len()) =~= needle@);
    true
}

/// Finds `needle` in the characters from `from` on; the place is counted from there.
pub fn find_in(chars: &Vec<char>, from: usize, to: usize, needle: &str) -> (r: Option<usize>)
    requires
        from <= to <= chars@.len(),
    ensures
        match r {
            Some(k) => {
                &&& find(chars@.subrange(from as int, to as int), needle@) == Some(k as int)
                &&& from + k + needle@.len() <= to
            },
            None => find(chars@.subrange(from as int, to as int), needle@) is None,
        },
{
    let pattern: Vec<char> = chars_of(needle);
    let n: usize = pattern.len();
    let ghost s = chars@.subrange(from as int, to as int);
    let mut i: usize = from;
    while n <= to - i
        invariant
            from <= i <= to <= chars@.len(),
            n == pattern@.len(),
            pattern@ == needle@,
            s == chars@.subrange(from as int, to as int),
            find(s, needle@) == find_from(s, needle@, i - from),
        decreases to - i,
    {
        let hit: bool = matches_at(chars, i, &pattern);
        assert(chars@.subrange(i as int, i + n) =~= s.subrange(i - from, i - from + n));
        if hit {
            return Some(i - from);
        }
        if i == to {
            assert(find_from(s, needle@, i - from + 1) is None);
            return None;
        }
        i = i + 1;
    }
    proof {
        lemma_find_from(s, needle@, i - from);
    }
    None
}

/// Whether the characters `from..to` are those of `text`.
pub fn range_is(chars: &Vec<char>, from: usize, to: usize, text: &str) -> (r: bool)
    requires
        from <= to <= chars@.len(),
    ensures
        r == (chars@.subrange(from as int, to as int) == text@),
{
    let pattern: Vec<char> = chars_of(text);
    if pattern.len() != to - from {
        return false;
    }
    matches_at(chars, from, &pattern)
}

/// The characters `from..to` as a text.
pub fn text_of(chars: &Vec<char>, from: usize, to: usize) -> (r: String)
    requires
        from <= to <= chars@.len(),
    ensures
        r@ == chars@.subrange(from as int, to as int),
{
    let mut r = String::new();
    let mut i: usize = from;
    while i < to
        invariant
            from <= i <= to <= chars@.len(),
            r@ == chars@.subrange(from as int, i as int),
        decreases to - i,
    {
        r.push(chars[i]);
        i = i + 1;
        assert(chars@.subrange(from as int, i as int) =~= chars@.subrange(from as int, i - 1).push(
            chars@[i - 1],
        ));
    }
    r
}

} // verus!
