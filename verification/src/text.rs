//! Character-level helpers shared by the matcher and the configuration parser.

use vstd::prelude::*;

verus! {

/// The characters of `s`, in order.
pub fn chars_of(s: &str) -> (out: Vec<char>)
    ensures
        out@ == s@,
{
    let mut out: Vec<char> = Vec::new();
    for c in it: s.chars()
        invariant
            out@ == it.seq().take(it.index()),
            it.seq() == s@,
    {
        out.push(c);
    }
    out
}

/// Whether `pat` occurs in `text` starting at position `at`.
pub open spec fn occurs_at(text: Seq<char>, pat: Seq<char>, at: int) -> bool {
    &&& 0 <= at
    &&& at + pat.len() <= text.len()
    &&& text.subrange(at, at + pat.len()) == pat
}

/// Whether `pat` occurs somewhere in `text` as a contiguous run.
pub open spec fn has_substring(text: Seq<char>, pat: Seq<char>) -> bool {
    exists|at: int| occurs_at(text, pat, at)
}

/// Decides `occurs_at` for a position that leaves room for the whole pattern.
fn matches_at(text: &Vec<char>, pat: &Vec<char>, at: usize) -> (b: bool)
    requires
        at + pat.len() <= text.len(),
    ensures
        b == occurs_at(text@, pat@, at as int),
{
    let mut k: usize = 0;
    while k < pat.len()
        invariant
            k <= pat.len(),
            at + pat.len() <= text.len(),
            forall|j: int| 0 <= j < k ==> text@[at + j] == pat@[j],
        decreases pat.len() - k,
    {
        if text[at + k] != pat[k] {
            assert(text@.subrange(at as int, at + pat.len())[k as int] != pat@[k as int]);
            return false;
        }
        k += 1;
    }
    assert(text@.subrange(at as int, at + pat.len()) =~= pat@);
    true
}

/// Plain, case-sensitive substring search.
pub fn contains(text: &Vec<char>, pat: &Vec<char>) -> (b: bool)
    ensures
        b == has_substring(text@, pat@),
{
    if pat.len() > text.len() {
        return false;
    }
    let last: usize = text.len() - pat.len();
    let mut at: usize = 0;
    loop
        invariant
            last == text.len() - pat.len(),
            at <= last,
            forall|j: int| 0 <= j < at ==> !occurs_at(text@, pat@, j),
        decreases last - at,
    {
        if matches_at(text, pat, at) {
            return true;
        }
        if at == last {
            return false;
        }
        at += 1;
    }
}

/// `words` joined by single spaces.
pub open spec fn join_words(words: Seq<Seq<char>>) -> Seq<char>
    decreases words.len(),
{
    if words.len() == 0 {
        Seq::empty()
    } else if words.len() == 1 {
        words[0]
    } else {
        join_words(words.drop_last()) + seq![' '] + words.last()
    }
}

/// The character sequences of a list of strings.
pub open spec fn views_of(words: Seq<String>) -> Seq<Seq<char>> {
    Seq::new(words.len(), |i: int| words[i]@)
}

/// Joins `words` with single spaces.
pub fn join(words: &Vec<String>) -> (line: String)
    ensures
        line@ == join_words(views_of(words@)),
{
    let ghost all = views_of(words@);
    let mut line = String::new();
    let mut i: usize = 0;
    while i < words.len()
        invariant
            i <= words.len(),
            all == views_of(words@),
            line@ == join_words(all.take(i as int)),
        decreases words.len() - i,
    {
        if i > 0 {
            line.append(" ");
        }
        line.append(words[i].as_str());
        proof {
            reveal_strlit(" ");
            assert(" "@ == seq![' ']);
            assert(all.take(i + 1).drop_last() == all.take(i as int));
            assert(all.take(i + 1).last() == words@[i as int]@);
            if i == 0 {
                assert(line@ == words@[0]@);
            }
        }
        i += 1;
    }
    assert(all.take(i as int) == all);
    line
}

/// The characters that separate words: those with the Unicode property
/// `White_Space`.
pub open spec fn is_space(c: char) -> bool {
    let n = c as u32;
    ||| 0x09 <= n <= 0x0D
    ||| n == 0x20
    ||| n == 0x85
    ||| n == 0xA0
    ||| n == 0x1680
    ||| 0x2000 <= n <= 0x200A
    ||| n == 0x2028
    ||| n == 0x2029
    ||| n == 0x202F
    ||| n == 0x205F
    ||| n == 0x3000
}

/// Decides `is_space`.
pub fn space(c: char) -> (b: bool)
    ensures
        b == is_space(c),
{
    let n: u32 = c as u32;
    (0x09 <= n && n <= 0x0D) || n == 0x20 || n == 0x85 || n == 0xA0 || n == 0x1680 || (0x2000 <= n
        && n <= 0x200A) || n == 0x2028 || n == 0x2029 || n == 0x202F || n == 0x205F || n == 0x3000
}

/// `s` without its leading white space.
pub open spec fn trim_start(s: Seq<char>) -> Seq<char>
    decreases s.len(),
{
    if s.len() > 0 && is_space(s[0]) {
        trim_start(s.drop_first())
    } else {
        s
    }
}

/// `s` without its trailing white space.
pub open spec fn trim_end(s: Seq<char>) -> Seq<char>
    decreases s.len(),
{
    if s.len() > 0 && is_space(s.last()) {
        trim_end(s.drop_last())
    } else {
        s
    }
}

/// `s` without leading and trailing white space.
pub open spec fn trim(s: Seq<char>) -> Seq<char> {
    trim_end(trim_start(s))
}

/// The ASCII decimal digits.
pub open spec fn is_digit(c: char) -> bool {
    0x30 <= c as u32 <= 0x39
}

/// Whether every character of `s` is a decimal digit.
pub open spec fn all_digits(s: Seq<char>) -> bool {
    forall|i: int| 0 <= i < s.len() ==> is_digit(#[trigger] s[i])
}

/// The number a string of decimal digits denotes.
pub open spec fn decimal(digits: Seq<char>) -> nat
    decreases digits.len(),
{
    if digits.len() == 0 {
        0
    } else {
        decimal(digits.drop_last()) * 10 + (digits.last() as u32 - 0x30) as nat
    }
}

/// The unsigned 32-bit number written in `s`: an optional `+`, then one or
/// more decimal digits whose value fits. Anything else denotes no number.
pub open spec fn parse_u32(s: Seq<char>) -> Option<u32> {
    let digits = if s.len() > 0 && s[0] == '+' {
        s.drop_first()
    } else {
        s
    };
    if digits.len() > 0 && all_digits(digits) && decimal(digits) <= u32::MAX {
        Some(decimal(digits) as u32)
    } else {
        None
    }
}

/// A number is at least the number its leading digits denote.
pub proof fn lemma_decimal_grows(digits: Seq<char>, n: int)
    requires
        0 <= n <= digits.len(),
        all_digits(digits),
    ensures
        decimal(digits.take(n)) <= decimal(digits),
    decreases digits.len(),
{
    if n < digits.len() {
        assert(all_digits(digits.drop_last())) by {
            assert forall|i: int| 0 <= i < digits.drop_last().len() implies is_digit(
                #[trigger] digits.drop_last()[i],
            ) by {
                assert(digits.drop_last()[i] == digits[i]);
            }
        }
        lemma_decimal_grows(digits.drop_last(), n);
        assert(digits.drop_last().take(n) == digits.take(n));
    } else {
        assert(digits.take(n) == digits);
    }
}

/// Dropping leading white space one character at a time.
proof fn lemma_trim_start_skip(s: Seq<char>, n: int)
    requires
        0 <= n <= s.len(),
        forall|i: int| 0 <= i < n ==> is_space(s[i]),
    ensures
        trim_start(s) == trim_start(s.skip(n)),
    decreases n,
{
    if n > 0 {
        lemma_trim_start_skip(s.drop_first(), n - 1);
        assert(s.drop_first().skip(n - 1) == s.skip(n));
    } else {
        assert(s.skip(0) == s);
    }
}

/// Dropping trailing white space one character at a time.
proof fn lemma_trim_end_take(s: Seq<char>, n: int)
    requires
        0 <= n <= s.len(),
        forall|i: int| n <= i < s.len() ==> is_space(s[i]),
    ensures
        trim_end(s) == trim_end(s.take(n)),
    decreases s.len() - n,
{
    if n < s.len() {
        lemma_trim_end_take(s.drop_last(), n);
        assert(s.drop_last().take(n) == s.take(n));
    } else {
        assert(s.take(n) == s);
    }
}

/// The bounds of `trim(chars)` within `chars`.
pub fn trim_bounds(chars: &Vec<char>) -> (bounds: (usize, usize))
    ensures
        bounds.0 <= bounds.1 <= chars.len(),
        chars@.subrange(bounds.0 as int, bounds.1 as int) == trim(chars@),
{
    let mut from: usize = 0;
    while from < chars.len() && space(chars[from])
        invariant
            from <= chars.len(),
            forall|i: int| 0 <= i < from ==> is_space(chars@[i]),
        decreases chars.len() - from,
    {
        from += 1;
    }
    let mut to: usize = chars.len();
    while to > from && space(chars[to - 1])
        invariant
            from <= to <= chars.len(),
            forall|i: int| to <= i < chars.len() ==> is_space(chars@[i]),
        decreases to,
    {
        to -= 1;
    }
    proof {
        let rest = chars@.skip(from as int);
        lemma_trim_start_skip(chars@, from as int);
        assert(trim_start(chars@) == rest);
        lemma_trim_end_take(rest, to - from);
        assert(rest.take(to - from) == chars@.subrange(from as int, to as int));
        let kept = chars@.subrange(from as int, to as int);
        if kept.len() > 0 {
            assert(kept.last() == chars@[to - 1]);
        }
        assert(trim_end(kept) == kept);
    }
    (from, to)
}

/// Reads the number written in `chars[from..to]`.
pub fn parse_number(chars: &Vec<char>, from: usize, to: usize) -> (number: Option<u32>)
    requires
        from <= to <= chars.len(),
    ensures
        number == parse_u32(chars@.subrange(from as int, to as int)),
{
    let ghost s = chars@.subrange(from as int, to as int);
    let start: usize = if from < to && chars[from] == '+' {
        from + 1
    } else {
        from
    };
    let ghost digits = chars@.subrange(start as int, to as int);
    assert(digits == if s.len() > 0 && s[0] == '+' {
        s.drop_first()
    } else {
        s
    });
    if start == to {
        return None;
    }
    let mut value: u64 = 0;
    let mut i: usize = start;
    while i < to
        invariant
            from <= start <= i <= to <= chars.len(),
            start < to,
            s == chars@.subrange(from as int, to as int),
            digits == chars@.subrange(start as int, to as int),
            digits == if s.len() > 0 && s[0] == '+' {
                s.drop_first()
            } else {
                s
            },
            all_digits(digits.take(i - start)),
            value == decimal(digits.take(i - start)),
            value <= u32::MAX,
        decreases to - i,
    {
        let n: u32 = chars[i] as u32;
        if n < 0x30 || n > 0x39 {
            assert(!is_digit(digits[i - start]));
            assert(!all_digits(digits));
            return None;
        }
        proof {
            assert(digits.take(i - start + 1).drop_last() == digits.take(i - start));
            assert(digits.take(i - start + 1).last() == chars@[i as int]);
            assert(all_digits(digits.take(i - start + 1))) by {
                assert forall|k: int| 0 <= k < i - start + 1 implies is_digit(
                    #[trigger] digits.take(i - start + 1)[k],
                ) by {
                    if k < i - start {
                        assert(digits.take(i - start)[k] == digits.take(i - start + 1)[k]);
                    }
                }
            }
        }
        value = value * 10 + (n - 0x30) as u64;
        if value > 0xFFFF_FFFF {
            proof {
                if all_digits(digits) {
                    lemma_decimal_grows(digits, i - start + 1);
                }
            }
            return None;
        }
        i += 1;
    }
    assert(digits.take(i - start) == digits);
    Some(value as u32)
}

/// The length of the longest prefix of `s` that holds no white space.
pub open spec fn word_len(s: Seq<char>) -> nat
    decreases s.len(),
{
    if s.len() > 0 && !is_space(s[0]) {
        1 + word_len(s.drop_first())
    } else {
        0
    }
}

/// A word never extends beyond the text.
pub proof fn lemma_word_len_bound(s: Seq<char>)
    ensures
        word_len(s) <= s.len(),
    decreases s.len(),
{
    if s.len() > 0 && !is_space(s[0]) {
        lemma_word_len_bound(s.drop_first());
    }
}

/// The words of `s`: its maximal runs of characters other than white
/// space, in order.
pub open spec fn words_of(s: Seq<char>) -> Seq<Seq<char>>
    decreases s.len(),
    via words_of_decreases
{
    if s.len() == 0 {
        Seq::empty()
    } else if is_space(s[0]) {
        words_of(s.drop_first())
    } else {
        seq![s.take(word_len(s) as int)] + words_of(s.skip(word_len(s) as int))
    }
}

#[via_fn]
proof fn words_of_decreases(s: Seq<char>) {
    lemma_word_len_bound(s);
}

/// The length of the first line of `s`: the number of characters before
/// the first line feed.
pub open spec fn line_len(s: Seq<char>) -> nat
    decreases s.len(),
{
    if s.len() > 0 && s[0] != '\n' {
        1 + line_len(s.drop_first())
    } else {
        0
    }
}

/// A line never extends beyond the text.
pub proof fn lemma_line_len_bound(s: Seq<char>)
    ensures
        line_len(s) <= s.len(),
    decreases s.len(),
{
    if s.len() > 0 && s[0] != '\n' {
        lemma_line_len_bound(s.drop_first());
    }
}

/// The lines of `s`, without their line feeds. A line feed at the very end
/// starts no further line.
pub open spec fn lines_of(s: Seq<char>) -> Seq<Seq<char>>
    decreases s.len(),
    via lines_of_decreases
{
    if s.len() == 0 {
        Seq::empty()
    } else if line_len(s) < s.len() {
        seq![s.take(line_len(s) as int)] + lines_of(s.skip(line_len(s) as int + 1))
    } else {
        seq![s]
    }
}

#[via_fn]
proof fn lines_of_decreases(s: Seq<char>) {
    lemma_line_len_bound(s);
}

/// Splits a line into its words.
pub fn split_words(line: &str) -> (words: Vec<String>)
    ensures
        views_of(words@) == words_of(line@),
{
    let chars = chars_of(line);
    let mut words: Vec<String> = Vec::new();
    let mut i: usize = 0;
    assert(chars@.skip(0) == chars@);
    assert(views_of(words@) + words_of(chars@) == words_of(chars@));
    while i < chars.len()
        invariant
            i <= chars.len(),
            chars@ == line@,
            words_of(chars@) == views_of(words@) + words_of(chars@.skip(i as int)),
        decreases chars.len() - i,
    {
        let ghost rest = chars@.skip(i as int);
        if space(chars[i]) {
            assert(rest.drop_first() == chars@.skip(i + 1));
            i += 1;
        } else {
            let start: usize = i;
            while i < chars.len() && !space(chars[i])
                invariant
                    start <= i <= chars.len(),
                    word_len(chars@.skip(start as int)) == (i - start) + word_len(
                        chars@.skip(i as int),
                    ),
                decreases chars.len() - i,
            {
                assert(chars@.skip(i as int).drop_first() == chars@.skip(i + 1));
                i += 1;
            }
            let word = line.substring_char(start, i);
            let ghost before = views_of(words@);
            words.push(String::from_str(word));
            proof {
                assert(word_len(chars@.skip(i as int)) == 0);
                assert(rest.take(i - start) == line@.subrange(start as int, i as int));
                assert(rest.skip(i - start) == chars@.skip(i as int));
                assert(views_of(words@) == before + seq![rest.take(i - start)]);
                assert(words_of(rest) == seq![rest.take(i - start)] + words_of(
                    chars@.skip(i as int),
                ));
                assert(before + (seq![rest.take(i - start)] + words_of(chars@.skip(i as int)))
                    == (before + seq![rest.take(i - start)]) + words_of(chars@.skip(i as int)));
            }
        }
    }
    assert(words_of(chars@.skip(i as int)) == Seq::<Seq<char>>::empty());
    assert(views_of(words@) + Seq::<Seq<char>>::empty() == views_of(words@));
    words
}

/// Splits a text into its lines.
pub fn split_lines(text: &str) -> (lines: Vec<String>)
    ensures
        views_of(lines@) == lines_of(text@),
{
    let chars = chars_of(text);
    let mut lines: Vec<String> = Vec::new();
    let mut i: usize = 0;
    assert(chars@.skip(0) == chars@);
    assert(views_of(lines@) + lines_of(chars@) == lines_of(chars@));
    while i < chars.len()
        invariant
            i <= chars.len(),
            chars@ == text@,
            lines_of(chars@) == views_of(lines@) + lines_of(chars@.skip(i as int)),
        decreases chars.len() - i,
    {
        let ghost rest = chars@.skip(i as int);
        let start: usize = i;
        while i < chars.len() && chars[i] != '\n'
            invariant
                start <= i <= chars.len(),
                line_len(chars@.skip(start as int)) == (i - start) + line_len(
                    chars@.skip(i as int),
                ),
            decreases chars.len() - i,
        {
            assert(chars@.skip(i as int).drop_first() == chars@.skip(i + 1));
            i += 1;
        }
        let line = text.substring_char(start, i);
        let ghost before = views_of(lines@);
        lines.push(String::from_str(line));
        proof {
            assert(line_len(chars@.skip(i as int)) == 0);
            assert(rest.take(i - start) == text@.subrange(start as int, i as int));
            assert(views_of(lines@) == before + seq![rest.take(i - start)]);
            if i < chars.len() {
                assert(rest.skip(i - start + 1) == chars@.skip(i + 1));
                assert(before + (seq![rest.take(i - start)] + lines_of(chars@.skip(i + 1)))
                    == (before + seq![rest.take(i - start)]) + lines_of(chars@.skip(i + 1)));
            } else {
                assert(rest.take(i - start) == rest);
                assert(lines_of(chars@.skip(i as int)) == Seq::<Seq<char>>::empty());
                assert(before + seq![rest] == (before + seq![rest]) + Seq::<Seq<char>>::empty());
            }
        }
        if i < chars.len() {
            i += 1;
        }
    }
    assert(lines_of(chars@.skip(i as int)) == Seq::<Seq<char>>::empty());
    assert(views_of(lines@) + Seq::<Seq<char>>::empty() == views_of(lines@));
    lines
}

/// The character that writes the digit `d`.
pub open spec fn digit_char(d: nat) -> char {
    if d == 0 {
        '0'
    } else if d == 1 {
        '1'
    } else if d == 2 {
        '2'
    } else if d == 3 {
        '3'
    } else if d == 4 {
        '4'
    } else if d == 5 {
        '5'
    } else if d == 6 {
        '6'
    } else if d == 7 {
        '7'
    } else if d == 8 {
        '8'
    } else {
        '9'
    }
}

/// The decimal notation of `n`, without leading zeros.
pub open spec fn digits_of(n: nat) -> Seq<char>
    decreases n,
{
    if n < 10 {
        seq![digit_char(n)]
    } else {
        digits_of(n / 10).push(digit_char(n % 10))
    }
}

/// Reading the decimal notation of a number gives the number back.
pub proof fn law_digits_read_back(n: nat)
    ensures
        all_digits(digits_of(n)),
        decimal(digits_of(n)) == n,
    decreases n,
{
    if n < 10 {
        assert(digits_of(n).drop_last() =~= Seq::<char>::empty());
        assert(decimal(Seq::<char>::empty()) == 0);
    } else {
        law_digits_read_back(n / 10);
        assert(digits_of(n).drop_last() =~= digits_of(n / 10));
    }
}

/// The text of a single digit.
fn digit_text(d: u64) -> (text: &'static str)
    requires
        d < 10,
    ensures
        text@ == seq![digit_char(d as nat)],
{
    proof {
        reveal_strlit("0");
        reveal_strlit("1");
        reveal_strlit("2");
        reveal_strlit("3");
        reveal_strlit("4");
        reveal_strlit("5");
        reveal_strlit("6");
        reveal_strlit("7");
        reveal_strlit("8");
        reveal_strlit("9");
    }
    let text = if d == 0 {
        "0"
    } else if d == 1 {
        "1"
    } else if d == 2 {
        "2"
    } else if d == 3 {
        "3"
    } else if d == 4 {
        "4"
    } else if d == 5 {
        "5"
    } else if d == 6 {
        "6"
    } else if d == 7 {
        "7"
    } else if d == 8 {
        "8"
    } else {
        "9"
    };
    assert(text@ =~= seq![digit_char(d as nat)]);
    text
}

/// Writes `n` in decimal notation.
pub fn decimal_text(n: u64) -> (out: String)
    ensures
        out@ == digits_of(n as nat),
    decreases n,
{
    let mut out = if n >= 10 {
        decimal_text(n / 10)
    } else {
        String::new()
    };
    out.append(digit_text(n % 10));
    assert(out@ =~= digits_of(n as nat));
    out
}

} // verus!
