//! Text: numbers as digits, digits as numbers, and the pieces messages are made
//! of.

use vstd::prelude::*;

verus! {

/// `String::push` appends one character.
pub assume_specification[ String::push ](s: &mut String, c: char)
    ensures
        final(s)@ == old(s)@.push(c),
;

/// The size `bytes` in a short human-readable form, such as `1.00 MiB`.
pub uninterp spec fn human_bytes(bytes: u64) -> Seq<char>;

/// `indicatif::HumanBytes`, rendered by its `Display`. The rounding it does is
/// not spelled out, only named.
#[verifier::external_body]
pub(crate) fn human_bytes_text(bytes: u64) -> (r: String)
    ensures
        r@ == human_bytes(bytes),
{
    indicatif::HumanBytes(bytes).to_string()
}

// ---------------------------------------------------------------------------
// Numbers as digits.

/// The digit `d`, in upper case.
pub open spec fn digit(d: int) -> char {
    if d < 10 {
        (48 + d) as char
    } else {
        (55 + d) as char
    }
}

/// `n` in base `base`, without leading zeros.
pub open spec fn digits(n: nat, base: nat) -> Seq<char>
    decreases n,
{
    if n < base || base < 2 {
        seq![digit(n as int)]
    } else {
        proof {
            assert(n / base < n) by (nonlinear_arith)
                requires
                    2 <= base <= n,
            ;
        }
        digits(n / base, base).push(digit((n % base) as int))
    }
}

/// `n` as a decimal number.
pub open spec fn decimal(n: nat) -> Seq<char> {
    digits(n, 10)
}

/// `n` as an upper-case hexadecimal number of at least eight digits.
pub open spec fn hex8(n: nat) -> Seq<char> {
    padded(digits(n, 16), 8, '0')
}

/// `text` with `fill` before it up to `width` characters.
pub open spec fn padded(text: Seq<char>, width: int, fill: char) -> Seq<char> {
    if text.len() < width {
        Seq::new((width - text.len()) as nat, |i: int| fill) + text
    } else {
        text
    }
}

fn digit_char(d: u64) -> (r: char)
    requires
        d < 16,
    ensures
        r == digit(d as int),
{
    if d < 10 {
        (48 + d as u8) as char
    } else {
        (55 + d as u8) as char
    }
}

fn push_digits(out: &mut String, n: u64, base: u64)
    requires
        2 <= base <= 16,
    ensures
        final(out)@ == old(out)@ + digits(n as nat, base as nat),
    decreases n,
{
    let ghost start = out@;
    if n >= base {
        proof {
            assert(n / base < n) by (nonlinear_arith)
                requires
                    2 <= base <= n,
            ;
        }
        push_digits(out, n / base, base);
    }
    out.push(digit_char(n % base));
    proof {
        if n < base {
            vstd::arithmetic::div_mod::lemma_small_mod(n as nat, base as nat);
        }
        assert(out@ =~= start + digits(n as nat, base as nat));
    }
}

/// `n` as a decimal number.
pub fn decimal_text(n: u64) -> (r: String)
    ensures
        r@ == decimal(n as nat),
{
    let mut out = String::new();
    push_digits(&mut out, n, 10);
    proof {
        assert(out@ =~= decimal(n as nat));
    }
    out
}

/// `n` as an upper-case hexadecimal number of at least eight digits.
pub fn hex8_text(n: u64) -> (r: String)
    ensures
        r@ == hex8(n as nat),
{
    let mut out = String::new();
    push_digits(&mut out, n, 16);
    proof {
        assert(out@ =~= digits(n as nat, 16));
    }
    pad(out, 8, '0')
}

/// `text` with `fill` before it up to `width` characters.
pub fn pad(text: String, width: usize, fill: char) -> (r: String)
    ensures
        r@ == padded(text@, width as int, fill),
{
    let n = text.as_str().unicode_len();
    if n >= width {
        return text;
    }
    let mut out = String::new();
    for i in 0..(width - n)
        invariant
            n < width,
            out@ =~= Seq::new(i as nat, |k: int| fill),
    {
        out.push(fill);
    }
    out.append(text.as_str());
    out
}

// ---------------------------------------------------------------------------
// Digits as numbers.

/// The value of a decimal digit.
pub open spec fn digit_value(c: char) -> Option<int> {
    if '0' <= c && c <= '9' {
        Some(c as int - '0' as int)
    } else {
        None
    }
}

/// Whether `text` is made of decimal digits.
pub open spec fn all_digits(text: Seq<char>) -> bool {
    forall|i: int| 0 <= i < text.len() ==> #[trigger] digit_value(text[i]) is Some
}

/// The number written by a string of decimal digits.
pub open spec fn number(text: Seq<char>) -> nat
    decreases text.len(),
{
    if text.len() == 0 {
        0
    } else {
        number(text.drop_last()) * 10 + match digit_value(text.last()) {
            Some(d) => d as nat,
            None => 0,
        }
    }
}

/// `text` read as a `u64`: an optional `+` and at least one decimal digit, with
/// a value that fits.
pub open spec fn read_u64(text: Seq<char>) -> Option<u64> {
    let body = if text.len() > 0 && text[0] == '+' {
        text.skip(1)
    } else {
        text
    };
    if body.len() > 0 && all_digits(body) && number(body) <= u64::MAX {
        Some(number(body) as u64)
    } else {
        None
    }
}

/// Longer numbers are not smaller.
proof fn lemma_number_grows(text: Seq<char>, n: int)
    requires
        0 <= n <= text.len(),
    ensures
        number(text.take(n)) <= number(text),
    decreases text.len() - n,
{
    if n < text.len() {
        lemma_number_grows(text, n + 1);
        assert(text.take(n + 1).drop_last() =~= text.take(n));
    } else {
        assert(text.take(n) =~= text);
    }
}

/// Read `text` as a `u64`.
pub fn parse_u64(text: &str) -> (r: Option<u64>)
    ensures
        r == read_u64(text@),
{
    let len = text.unicode_len();
    if len == 0 {
        return None;
    }
    let start: usize = if text.get_char(0) == '+' { 1 } else { 0 };
    let ghost body = if start == 1 {
        text@.skip(1)
    } else {
        text@
    };
    if len == start {
        return None;
    }
    let mut value: u64 = 0;
    proof {
        assert(body.take(0) =~= Seq::<char>::empty());
    }
    for i in start..len
        invariant
            len == text@.len(),
            start <= 1,
            body.len() == len - start,
            forall|k: int| 0 <= k < body.len() ==> body[k] == text@[k + start],
            value == number(body.take(i - start)),
            forall|k: int| 0 <= k < i - start ==> #[trigger] digit_value(body[k]) is Some,
            read_u64(text@) == (if body.len() > 0 && all_digits(body) && number(body) <= u64::MAX {
                Some(number(body) as u64)
            } else {
                None
            }),
    {
        let c = text.get_char(i);
        proof {
            assert(body[i - start] == c);
            assert(body.take(i - start + 1).drop_last() =~= body.take(i - start));
            assert(body.take(i - start + 1).last() == c);
        }
        if c < '0' || c > '9' {
            assert(digit_value(body[i - start]) is None);
            return None;
        }
        let d = c as u64 - 48;
        proof {
            assert(number(body.take(i - start + 1)) == value * 10 + d);
            lemma_number_grows(body, i - start + 1);
        }
        if value > (u64::MAX - d) / 10 {
            assert(value * 10 + d > u64::MAX);
            return None;
        }
        value = value * 10 + d;
    }
    proof {
        assert(body.take(body.len() as int) =~= body);
    }
    Some(value)
}

/// What is written as a decimal number is read back as that number.
pub proof fn law_decimal_reads_back(n: u64)
    ensures
        read_u64(decimal(n as nat)) == Some(n),
{
    lemma_digits_read(n as nat);
    let text = decimal(n as nat);
    assert(digit_value(text[0]) is Some);
}

pub(crate) proof fn lemma_digits_read(n: nat)
    ensures
        digits(n, 10).len() > 0,
        all_digits(digits(n, 10)),
        number(digits(n, 10)) == n,
    decreases n,
{
    if n < 10 {
        let t = digits(n, 10);
        assert(t.drop_last() =~= Seq::<char>::empty());
        assert(number(t.drop_last()) == 0);
    } else {
        lemma_digits_read(n / 10);
        let t = digits(n, 10);
        let front = digits(n / 10, 10);
        assert(t.drop_last() =~= front);
        assert forall|i: int| 0 <= i < t.len() implies #[trigger] digit_value(t[i]) is Some by {
            if i < front.len() {
                assert(digit_value(front[i]) is Some);
            }
        }
    }
}

// ---------------------------------------------------------------------------
// Texts taken apart.

/// The characters of `text`.
pub fn chars_of(text: &str) -> (r: Vec<char>)
    ensures
        r@ == text@,
{
    let mut out: Vec<char> = Vec::new();
    for c in it: text.chars()
        invariant
            out@ =~= it.seq().take(it.index()),
    {
        out.push(c);
    }
    out
}

/// The text made of `chars`.
pub fn text_of(chars: &[char]) -> (r: String)
    ensures
        r@ == chars@,
{
    let mut out = String::new();
    for i in 0..chars.len()
        invariant
            out@ =~= chars@.take(i as int),
    {
        out.push(chars[i]);
    }
    assert(out@ =~= chars@);
    out
}

/// The characters with the Unicode property `White_Space`.
pub open spec fn is_space(c: char) -> bool {
    ||| '\u{9}' <= c && c <= '\u{d}'
    ||| c == '\u{20}'
    ||| c == '\u{85}'
    ||| c == '\u{a0}'
    ||| c == '\u{1680}'
    ||| '\u{2000}' <= c && c <= '\u{200a}'
    ||| c == '\u{2028}'
    ||| c == '\u{2029}'
    ||| c == '\u{202f}'
    ||| c == '\u{205f}'
    ||| c == '\u{3000}'
}

pub fn space(c: char) -> (r: bool)
    ensures
        r == is_space(c),
{
    ('\u{9}' <= c && c <= '\u{d}') || c == '\u{20}' || c == '\u{85}' || c == '\u{a0}' || c
        == '\u{1680}' || ('\u{2000}' <= c && c <= '\u{200a}') || c == '\u{2028}' || c == '\u{2029}'
        || c == '\u{202f}' || c == '\u{205f}' || c == '\u{3000}'
}

/// A kind of character to stop at.
#[derive(Debug, Clone, Copy, PartialEq, Eq, Structural)]
pub enum Stop {
    /// White space.
    Space,
    /// Anything but white space.
    Word,
    /// One character.
    At(char),
}

impl Stop {
    pub open spec fn stops(self, c: char) -> bool {
        match self {
            Stop::Space => is_space(c),
            Stop::Word => !is_space(c),
            Stop::At(d) => c == d,
        }
    }
}

/// How many characters come before the first one to stop at.
pub open spec fn run_to(s: Seq<char>, stop: Stop) -> int
    decreases s.len(),
{
    if s.len() == 0 || stop.stops(s[0]) {
        0
    } else {
        1 + run_to(s.skip(1), stop)
    }
}

pub proof fn lemma_run_to(s: Seq<char>, stop: Stop)
    ensures
        0 <= run_to(s, stop) <= s.len(),
        forall|i: int| 0 <= i < run_to(s, stop) ==> !stop.stops(#[trigger] s[i]),
        run_to(s, stop) < s.len() ==> stop.stops(s[run_to(s, stop)]),
    decreases s.len(),
{
    if s.len() > 0 && !stop.stops(s[0]) {
        let rest = s.skip(1);
        lemma_run_to(rest, stop);
        assert forall|i: int| 0 <= i < run_to(s, stop) implies !stop.stops(#[trigger] s[i]) by {
            if i > 0 {
                assert(rest[i - 1] == s[i]);
            }
        }
    }
}

/// The run is determined by where it stops.
proof fn lemma_run_is(s: Seq<char>, stop: Stop, n: int)
    requires
        0 <= n <= s.len(),
        forall|i: int| 0 <= i < n ==> !stop.stops(#[trigger] s[i]),
        n < s.len() ==> stop.stops(s[n]),
    ensures
        run_to(s, stop) == n,
{
    lemma_run_to(s, stop);
    let m = run_to(s, stop);
    if m < n {
        assert(!stop.stops(s[m]));
    } else if n < m {
        assert(!stop.stops(s[n]));
    }
}

/// Where the run from `from` on ends.
pub fn find_stop(chars: &[char], from: usize, stop: Stop) -> (r: usize)
    requires
        from <= chars@.len(),
    ensures
        from <= r <= chars@.len(),
        r == from + run_to(chars@.skip(from as int), stop),
{
    let mut i: usize = from;
    while i < chars.len()
        invariant
            from <= i <= chars@.len(),
            forall|k: int| from <= k < i ==> !stop.stops(#[trigger] chars@[k]),
        decreases chars@.len() - i,
    {
        let c = chars[i];
        let hit = match stop {
            Stop::Space => space(c),
            Stop::Word => !space(c),
            Stop::At(d) => c == d,
        };
        if hit {
            proof {
                lemma_run_is(chars@.skip(from as int), stop, i - from);
            }
            return i;
        }
        i = i + 1;
    }
    proof {
        lemma_run_is(chars@.skip(from as int), stop, i - from);
    }
    i
}

/// The words of a text: what stands between white space.
pub open spec fn words(s: Seq<char>) -> Seq<Seq<char>>
    decreases s.len(),
{
    proof {
        lemma_run_to(s, Stop::Word);
        lemma_run_to(s.skip(run_to(s, Stop::Word)), Stop::Space);
    }
    let rest = s.skip(run_to(s, Stop::Word));
    if rest.len() == 0 {
        Seq::empty()
    } else {
        seq![rest.take(run_to(rest, Stop::Space))] + words(rest.skip(run_to(rest, Stop::Space)))
    }
}

/// The words of a text.
pub fn split_words(chars: &[char]) -> (r: Vec<Vec<char>>)
    ensures
        r@.len() == words(chars@).len(),
        forall|i: int| 0 <= i < r@.len() ==> (#[trigger] r@[i])@ == words(chars@)[i],
{
    let mut out: Vec<Vec<char>> = Vec::new();
    let mut i: usize = 0;
    let ghost all = words(chars@);
    proof {
        assert(chars@.skip(0) =~= chars@);
    }
    loop
        invariant
            i <= chars@.len(),
            all == words(chars@),
            out@.len() <= all.len(),
            forall|k: int| 0 <= k < out@.len() ==> (#[trigger] out@[k])@ == all[k],
            words(chars@.skip(i as int)) =~= all.skip(out@.len() as int),
        ensures
            out@.len() == all.len(),
            forall|k: int| 0 <= k < out@.len() ==> (#[trigger] out@[k])@ == all[k],
        decreases chars@.len() - i,
    {
        let start = find_stop(chars, i, Stop::Word);
        let ghost here = chars@.skip(i as int);
        let ghost rest = here.skip(run_to(here, Stop::Word));
        proof {
            assert(rest =~= chars@.skip(start as int));
        }
        if start == chars.len() {
            break;
        }
        let end = find_stop(chars, start, Stop::Space);
        proof {
            lemma_run_to(here, Stop::Word);
            lemma_run_to(rest, Stop::Space);
            assert(rest[0] == chars@[start as int]);
            assert(end > start);
        }
        let mut word: Vec<char> = Vec::new();
        word.extend_from_slice(&chars[start..end]);
        let ghost before = out@.len() as int;
        proof {
            assert(word@ =~= rest.take(run_to(rest, Stop::Space)));
            assert(words(here)[0] == word@);
            assert(words(here).len() >= 1);
            assert(all.skip(before).len() >= 1);
            assert(all.skip(before)[0] == all[before]);
            assert(rest.skip(run_to(rest, Stop::Space)) =~= chars@.skip(end as int));
            assert(words(here) =~= seq![word@] + words(chars@.skip(end as int)));
            assert(all.skip(before + 1) =~= words(here).skip(1));
        }
        out.push(word);
        i = end;
    }
    out
}

/// The lines of a text, without their line endings (`\n` or `\r\n`).
pub open spec fn lines(s: Seq<char>) -> Seq<Seq<char>>
    decreases s.len(),
{
    if s.len() == 0 {
        Seq::empty()
    } else {
        let n = run_to(s, Stop::At('\n'));
        if n < s.len() {
            proof {
                lemma_run_to(s, Stop::At('\n'));
            }
            seq![without_return(s.take(n))] + lines(s.skip(n + 1))
        } else {
            seq![s]
        }
    }
}

/// `s` without one carriage return at its end.
pub open spec fn without_return(s: Seq<char>) -> Seq<char> {
    if s.len() > 0 && s.last() == '\r' {
        s.drop_last()
    } else {
        s
    }
}

/// The lines of a text.
pub fn split_lines(chars: &[char]) -> (r: Vec<Vec<char>>)
    ensures
        r@.len() == lines(chars@).len(),
        forall|i: int| 0 <= i < r@.len() ==> (#[trigger] r@[i])@ == lines(chars@)[i],
{
    let mut out: Vec<Vec<char>> = Vec::new();
    let mut i: usize = 0;
    let ghost all = lines(chars@);
    proof {
        assert(chars@.skip(0) =~= chars@);
    }
    while i < chars.len()
        invariant
            i <= chars@.len(),
            all == lines(chars@),
            out@.len() <= all.len(),
            forall|k: int| 0 <= k < out@.len() ==> (#[trigger] out@[k])@ == all[k],
            lines(chars@.skip(i as int)) =~= all.skip(out@.len() as int),
        decreases chars@.len() - i,
    {
        let ghost here = chars@.skip(i as int);
        let ghost before = out@.len() as int;
        let end = find_stop(chars, i, Stop::At('\n'));
        proof {
            lemma_run_to(here, Stop::At('\n'));
            assert(lines(here).len() >= 1);
            assert(all.skip(before).len() >= 1);
            assert(all.skip(before)[0] == all[before]);
            assert(all.skip(before + 1) =~= lines(here).skip(1));
        }
        let stop: usize = if end < chars.len() && end > i && chars[end - 1] == '\r' {
            end - 1
        } else {
            end
        };
        let mut line: Vec<char> = Vec::new();
        line.extend_from_slice(&chars[i..stop]);
        proof {
            if end < chars@.len() {
                assert(here.take(end - i).len() == end - i);
                assert(line@ =~= without_return(here.take(end - i)));
                assert(here.skip(end - i + 1) =~= chars@.skip(end + 1));
                assert(lines(here) =~= seq![line@] + lines(chars@.skip(end + 1)));
            } else {
                assert(line@ =~= here);
                assert(lines(here) =~= seq![line@]);
                assert(chars@.skip(chars@.len() as int) =~= Seq::<char>::empty());
            }
        }
        out.push(line);
        i = if end < chars.len() { end + 1 } else { end };
    }
    out
}

/// A text without white space at its ends.
pub open spec fn trimmed(s: Seq<char>) -> Seq<char>
    decreases s.len(),
{
    if s.len() > 0 && is_space(s[0]) {
        trimmed(s.skip(1))
    } else if s.len() > 0 && is_space(s.last()) {
        trimmed(s.drop_last())
    } else {
        s
    }
}

/// A text without white space at its ends.
pub fn trim(chars: &[char]) -> (r: Vec<char>)
    ensures
        r@ == trimmed(chars@),
{
    let mut from: usize = 0;
    let mut to: usize = chars.len();
    proof {
        assert(chars@.subrange(0, chars@.len() as int) =~= chars@);
    }
    while from < to && space(chars[from])
        invariant
            from <= to == chars@.len(),
            trimmed(chars@) == trimmed(chars@.subrange(from as int, to as int)),
        decreases to - from,
    {
        proof {
            let s = chars@.subrange(from as int, to as int);
            assert(s.skip(1) =~= chars@.subrange(from + 1, to as int));
        }
        from = from + 1;
    }
    while from < to && space(chars[to - 1])
        invariant
            from <= to <= chars@.len(),
            from < to ==> !is_space(chars@[from as int]),
            trimmed(chars@) == trimmed(chars@.subrange(from as int, to as int)),
        decreases to - from,
    {
        proof {
            let s = chars@.subrange(from as int, to as int);
            assert(s.drop_last() =~= chars@.subrange(from as int, to - 1));
        }
        to = to - 1;
    }
    let mut out: Vec<char> = Vec::new();
    out.extend_from_slice(&chars[from..to]);
    proof {
        assert(out@ =~= chars@.subrange(from as int, to as int));
        assert(trimmed(out@) == out@);
    }
    out
}

// ---------------------------------------------------------------------------
// Laws of texts.

/// A text without a character of some kind.
pub open spec fn lacks(s: Seq<char>, stop: Stop) -> bool {
    forall|i: int| 0 <= i < s.len() ==> !stop.stops(#[trigger] s[i])
}

/// What comes before the first character to stop at is found exactly.
pub proof fn lemma_run_to_is(a: Seq<char>, rest: Seq<char>, stop: Stop)
    requires
        lacks(a, stop),
        rest.len() > 0 ==> stop.stops(rest[0]),
    ensures
        run_to(a + rest, stop) == a.len(),
        (a + rest).take(a.len() as int) == a,
        (a + rest).skip(a.len() as int) == rest,
{
    let s = a + rest;
    lemma_run_to(s, stop);
    let n = run_to(s, stop);
    if n < a.len() {
        assert(s[n] == a[n]);
    }
    if n > a.len() {
        assert(!stop.stops(s[a.len() as int]));
        assert(s[a.len() as int] == rest[0]);
    }
    assert(s.take(a.len() as int) =~= a);
    assert(s.skip(a.len() as int) =~= rest);
}

/// The ASCII characters that are white space: space, tab, line feed, vertical tab, form
/// feed, carriage return.
pub proof fn law_ascii_white_space(c: char)
    requires
        (c as int) < 128,
    ensures
        is_space(c) <==> c as int == 32 || 9 <= c as int <= 13,
{
}

/// Words are what stands between white space: white space at the front does not matter, a
/// word ends at the next white space or with the text, and the rest is read likewise.
pub proof fn law_words(word: Seq<char>, gap: Seq<char>, rest: Seq<char>)
    requires
        word.len() > 0,
        lacks(word, Stop::Space),
        gap.len() > 0 || rest.len() == 0,
        lacks(gap, Stop::Word),
    ensures
        words(word + gap + rest) == seq![word] + words(rest),
        words(gap + rest) == words(rest),
        words(Seq::<char>::empty()) == Seq::<Seq<char>>::empty(),
{
    let none = Seq::<char>::empty();
    lemma_words_gap(gap, rest);
    assert(words(none) == Seq::<Seq<char>>::empty()) by {
        lemma_run_to(none, Stop::Word);
        assert(none.skip(run_to(none, Stop::Word)) =~= none);
    }
    let s = word + gap + rest;
    let tail = gap + rest;
    assert(s =~= word + tail);
    assert(s[0] == word[0]);
    assert(run_to(s, Stop::Word) == 0);
    assert(s.skip(0) =~= s);
    if tail.len() > 0 {
        assert(tail[0] == gap[0]);
    }
    lemma_run_to_is(word, tail, Stop::Space);
    assert(words(s) == seq![word] + words(tail));
}

proof fn lemma_words_gap(gap: Seq<char>, rest: Seq<char>)
    requires
        lacks(gap, Stop::Word),
    ensures
        words(gap + rest) == words(rest),
    decreases gap.len(),
{
    if gap.len() > 0 {
        let s = gap + rest;
        let less = gap.skip(1);
        assert forall|i: int| 0 <= i < less.len() implies !Stop::Word.stops(#[trigger] less[i]) by {
            assert(less[i] == gap[i + 1]);
        }
        lemma_words_gap(less, rest);
        let t = less + rest;
        assert(s.skip(1) =~= t);
        assert(s[0] == gap[0]);
        lemma_run_to(t, Stop::Word);
        assert(run_to(s, Stop::Word) == 1 + run_to(t, Stop::Word));
        assert(s.skip(run_to(s, Stop::Word)) =~= t.skip(run_to(t, Stop::Word)));
    } else {
        assert(gap + rest =~= rest);
    }
}

/// Lines end with a line feed, or with the text; a carriage return before the line feed
/// belongs to the ending.
pub proof fn law_lines(line: Seq<char>, rest: Seq<char>)
    requires
        lacks(line, Stop::At('\n')),
    ensures
        lines(line + seq!['\n'] + rest) == seq![
            if line.len() > 0 && line[line.len() - 1] == '\r' {
                line.take(line.len() - 1)
            } else {
                line
            },
        ] + lines(rest),
        line.len() > 0 ==> lines(line) == seq![line],
        lines(Seq::<char>::empty()) == Seq::<Seq<char>>::empty(),
{
    let tail = seq!['\n'] + rest;
    let s = line + seq!['\n'] + rest;
    assert(s =~= line + tail);
    assert(tail[0] == '\n');
    lemma_run_to_is(line, tail, Stop::At('\n'));
    assert(s.skip(line.len() as int + 1) =~= rest);
    if line.len() > 0 {
        assert(line.drop_last() =~= line.take(line.len() - 1));
        let none = Seq::<char>::empty();
        assert(line + none =~= line);
        lemma_run_to_is(line, none, Stop::At('\n'));
    }
}

/// Trimming takes the white space off both ends, and nothing else.
pub proof fn law_trimmed(before: Seq<char>, inner: Seq<char>, after: Seq<char>)
    requires
        lacks(before, Stop::Word),
        lacks(after, Stop::Word),
        inner.len() > 0 ==> !is_space(inner[0]) && !is_space(inner[inner.len() - 1]),
    ensures
        trimmed(before + inner + after) == inner,
    decreases before.len() + after.len(),
{
    let s = before + inner + after;
    if before.len() > 0 {
        let less = before.skip(1);
        assert forall|i: int| 0 <= i < less.len() implies !Stop::Word.stops(#[trigger] less[i]) by {
            assert(less[i] == before[i + 1]);
        }
        law_trimmed(less, inner, after);
        assert(s[0] == before[0]);
        assert(!Stop::Word.stops(before[0]));
        assert(s.skip(1) =~= less + inner + after);
    } else if after.len() > 0 && inner.len() > 0 {
        let less = after.drop_last();
        assert forall|i: int| 0 <= i < less.len() implies !Stop::Word.stops(#[trigger] less[i]) by {
            assert(less[i] == after[i]);
        }
        law_trimmed(before, inner, less);
        assert(s[0] == inner[0]);
        assert(s.last() == after.last());
        assert(!Stop::Word.stops(after[after.len() - 1]));
        assert(s.drop_last() =~= before + inner + less);
    } else if after.len() > 0 {
        let less = after.skip(1);
        assert forall|i: int| 0 <= i < less.len() implies !Stop::Word.stops(#[trigger] less[i]) by {
            assert(less[i] == after[i + 1]);
        }
        law_trimmed(before, inner, less);
        assert(s[0] == after[0]);
        assert(!Stop::Word.stops(after[0]));
        assert(s.skip(1) =~= before + inner + less);
    } else {
        assert(s =~= inner);
    }
}

/// Only decimal numbers that fit are read: all digits, but for a plus sign at the front; and
/// a digit more makes it ten times the number and the digit.
pub proof fn law_only_numbers_are_read(s: Seq<char>, d: char)
    ensures
        read_u64(s) is Some ==> s.len() > 0 && forall|i: int|
            0 <= i < s.len() ==> ('0' <= #[trigger] s[i] && s[i] <= '9') || (i == 0 && s[0] == '+'
                && s.len() > 1),
        ({
            let more = read_u64(s.push(d));
            read_u64(s) matches Some(n) ==> more == if '0' <= d && d <= '9' && n * 10 + (d as int
                - 48) <= u64::MAX {
                Some((n * 10 + (d as int - 48)) as u64)
            } else {
                None
            }
        }),
{
    let plus = s.len() > 0 && s[0] == '+';
    let body = if plus {
        s.skip(1)
    } else {
        s
    };
    if read_u64(s) is Some {
        assert forall|i: int| 0 <= i < s.len() implies ('0' <= #[trigger] s[i] && s[i] <= '9') || (i
            == 0 && s[0] == '+' && s.len() > 1) by {
            if i > 0 || !plus {
                let k = if plus {
                    i - 1
                } else {
                    i
                };
                assert(body[k] == s[i]);
                assert(digit_value(body[k]) is Some);
            }
        }
        let t = s.push(d);
        let longer = body.push(d);
        assert(t[0] == s[0]);
        if plus {
            assert(t.skip(1) =~= longer);
        }
        assert(longer.drop_last() =~= body);
        assert(longer.last() == d);
        if digit_value(d) is Some {
            assert forall|i: int| 0 <= i < longer.len() implies #[trigger] digit_value(longer[i])
                is Some by {
                if i < body.len() {
                    assert(longer[i] == body[i]);
                    assert(digit_value(body[i]) is Some);
                }
            }
        } else {
            assert(digit_value(longer[body.len() as int]) is None);
        }
    }
}

/// The value of an upper-case hexadecimal digit.
pub open spec fn hex_value(c: char) -> Option<int> {
    if '0' <= c && c <= '9' {
        Some(c as int - '0' as int)
    } else if 'A' <= c && c <= 'F' {
        Some(10 + (c as int - 'A' as int))
    } else {
        None
    }
}

/// The number written by a string of hexadecimal digits, if it is one.
pub open spec fn read_hex(s: Seq<char>) -> Option<nat>
    decreases s.len(),
{
    if s.len() == 0 {
        Some(0)
    } else {
        match (read_hex(s.drop_last()), hex_value(s.last())) {
            (Some(n), Some(d)) => Some((n * 16 + d) as nat),
            _ => None,
        }
    }
}

proof fn lemma_hex_digits_read(n: nat)
    ensures
        digits(n, 16).len() > 0,
        read_hex(digits(n, 16)) == Some(n),
    decreases n,
{
    let t = digits(n, 16);
    if n < 16 {
        assert(t.drop_last() =~= Seq::<char>::empty());
        assert(read_hex(t.drop_last()) == Some(0nat));
    } else {
        lemma_hex_digits_read(n / 16);
        assert(t.drop_last() =~= digits(n / 16, 16));
        assert(0 <= n % 16 < 16);
    }
}

proof fn lemma_leading_zeros(zeros: nat, t: Seq<char>)
    ensures
        read_hex(Seq::new(zeros, |i: int| '0') + t) == read_hex(t),
    decreases zeros + t.len(),
{
    let z = Seq::new(zeros, |i: int| '0');
    let s = z + t;
    if t.len() > 0 {
        lemma_leading_zeros(zeros, t.drop_last());
        assert(s.drop_last() =~= z + t.drop_last());
        assert(s.last() == t.last());
    } else if zeros > 0 {
        lemma_leading_zeros((zeros - 1) as nat, t);
        let less = Seq::new((zeros - 1) as nat, |i: int| '0');
        assert(s.drop_last() =~= less + t);
        assert(s.last() == '0');
        assert(read_hex(t) == Some(0nat));
    } else {
        assert(s =~= t);
    }
}

/// What is written as a hexadecimal number is read back as that number, and is of at least
/// eight digits.
pub proof fn law_hex_reads_back(n: nat)
    ensures
        read_hex(hex8(n)) == Some(n),
        hex8(n).len() >= 8,
{
    lemma_hex_digits_read(n);
    let t = digits(n, 16);
    if t.len() < 8 {
        let k = (8 - t.len()) as nat;
        lemma_leading_zeros(k, t);
        assert(hex8(n) =~= Seq::new(k, |i: int| '0') + t);
    }
}

// ---------------------------------------------------------------------------
// What a text tells.

/// A text begins with another.
pub open spec fn begins(s: Seq<char>, head: Seq<char>) -> bool {
    head.len() <= s.len() && s.take(head.len() as int) == head
}

/// `part` stands in `s` at `i`.
pub open spec fn stands_at(s: Seq<char>, part: Seq<char>, i: int) -> bool {
    0 <= i && i + part.len() <= s.len() && s.subrange(i, i + part.len()) == part
}

/// The parts stand in `s`, one behind the other.
pub open spec fn tells(s: Seq<char>, parts: Seq<Seq<char>>) -> bool
    decreases parts.len(),
{
    parts.len() == 0 || exists|i: int| #[trigger]
        stands_at(s, parts[0], i) && tells(s.skip(i + parts[0].len()), parts.skip(1))
}

proof fn lemma_tells_later(a: Seq<char>, b: Seq<char>, parts: Seq<Seq<char>>)
    requires
        tells(b, parts),
    ensures
        tells(a + b, parts),
{
    if parts.len() > 0 {
        let n = parts[0].len() as int;
        let i = choose|i: int| #[trigger]
            stands_at(b, parts[0], i) && tells(b.skip(i + parts[0].len()), parts.skip(1));
        let s = a + b;
        let j = a.len() + i;
        assert(s.subrange(j, j + n) =~= b.subrange(i, i + n));
        assert(s.skip(j + n) =~= b.skip(i + n));
        assert(stands_at(s, parts[0], j));
    }
}

/// What two texts tell, they tell together.
pub proof fn lemma_tells_both(
    a: Seq<char>,
    parts: Seq<Seq<char>>,
    b: Seq<char>,
    more: Seq<Seq<char>>,
)
    requires
        tells(a, parts),
        tells(b, more),
    ensures
        tells(a + b, parts + more),
    decreases parts.len(),
{
    if parts.len() > 0 {
        let n = parts[0].len() as int;
        let i = choose|i: int| #[trigger]
            stands_at(a, parts[0], i) && tells(a.skip(i + parts[0].len()), parts.skip(1));
        let s = a + b;
        let all = parts + more;
        lemma_tells_both(a.skip(i + n), parts.skip(1), b, more);
        assert(s.subrange(i, i + n) =~= a.subrange(i, i + n));
        assert(s.skip(i + n) =~= a.skip(i + n) + b);
        assert(all.skip(1) =~= parts.skip(1) + more);
        assert(all[0] == parts[0]);
        assert(stands_at(s, all[0], i));
    } else {
        lemma_tells_later(a, b, more);
        assert(parts + more =~= more);
    }
}

/// A text told further: words, then a part, then words.
pub proof fn lemma_told(
    a: Seq<char>,
    parts: Seq<Seq<char>>,
    words: Seq<char>,
    part: Seq<char>,
    after: Seq<char>,
)
    requires
        tells(a, parts),
    ensures
        tells(a + words + part + after, parts.push(part)),
        tells(a + words, parts),
        tells(a + words + part, parts.push(part)),
{
    let none = Seq::<Seq<char>>::empty();
    lemma_tells_both(a, parts, words, none);
    assert(parts + none =~= parts);
    assert(stands_at(part, part, 0)) by {
        assert(part.subrange(0, part.len() as int) =~= part);
    }
    let own = seq![part];
    assert(own.skip(1) =~= none);
    assert(own[0] == part);
    assert(tells(part.skip(0int + own[0].len()), own.skip(1)));
    assert(tells(part, own));
    lemma_tells_both(a + words, parts, part, own);
    assert(parts + own =~= parts.push(part));
    lemma_tells_both(a + words + part, parts.push(part), after, none);
    assert(parts.push(part) + none =~= parts.push(part));
}

} // verus!
