//! Command-line interface.
//!
//! `exhume [SOURCE] [TARGET] [STATE]`: three positional arguments, the last two
//! optional. Flags that take a size accept human-readable suffixes (`512`,
//! `64K`, `1M`, `1.5G`, `4KiB`, `1MB`).

use crate::rounding;
use crate::rounding::Big;
use crate::text;
use crate::text::Stop;
use vstd::prelude::*;

verus! {

/// What the command line asks for.
#[derive(Debug, Clone)]
pub struct Cli {
    /// Source: block device or file to read from
    pub source: String,
    /// Target: block device or file to write to
    pub target: Option<String>,
    /// State file (TOML)
    pub state: Option<String>,
    /// Logical sector size: the alignment and recovery granularity.
    pub sector_size: Option<u64>,
    /// I/O transfer size for healthy reads.
    pub transfer_size: Option<u64>,
    /// Copy at most this many bytes (0 = whole source)
    pub length: Option<u64>,
    /// Skip this many bytes at the start of the source
    pub skip: Option<u64>,
    /// Seek this many bytes into the target before writing
    pub seek: Option<u64>,
    /// Only write blocks that differ from the target. Sticky across resumes.
    pub skip_unchanged: Option<bool>,
    /// Don't write all-zero source blocks, keeping the target sparse. Sticky
    /// across resumes.
    pub skip_zeros: Option<bool>,
    /// Chunk size of the hash manifest. Must be a multiple of the sector size;
    /// fixed once recorded in the state file
    pub hash_chunk: Option<u64>,
    /// Make the target match the source with minimal I/O: chunks that still match
    /// the manifest are left alone. With `skip_unchanged` the target is compared in
    /// any case.
    pub refresh: bool,
    /// After the copy, read the target back and check it against the hash
    /// manifest.
    pub verify: bool,
    /// Re-read regions marked bad in a previous run and recover what is now
    /// readable (one pass; re-run for more).
    pub retry: bool,
    /// After the run, also write the region map as a GNU ddrescue mapfile.
    pub export_map: Option<String>,
    /// Read the source bypassing the page cache.
    pub direct: bool,
    /// Show the state without copying anything.
    pub status: bool,
    /// Overwrite an existing, non-empty target
    pub force: bool,
    /// Proceed even if the target device is mounted.
    pub allow_mounted: bool,
    /// Suppress the progress bar
    pub quiet: bool,
    /// Print the final summary as a single JSON object.
    pub json: bool,
    /// Emit NDJSON progress events. Implies JSON for the summary.
    pub json_progress: bool,
    /// Increase log verbosity
    pub verbose: u8,
}

// ---------------------------------------------------------------------------
// Sizes.

/// A character of the number in a size.
pub open spec fn in_number(c: char) -> bool {
    ('0' <= c && c <= '9') || c == '.' || c == '_'
}

/// How many characters of `s` belong to the number it begins with.
pub open spec fn number_length(s: Seq<char>) -> int
    decreases s.len(),
{
    if s.len() == 0 || !in_number(s[0]) {
        0
    } else {
        1 + number_length(s.skip(1))
    }
}

/// `s` without its underscores.
pub open spec fn bare(s: Seq<char>) -> Seq<char>
    decreases s.len(),
{
    if s.len() == 0 {
        Seq::empty()
    } else if s.last() == '_' {
        bare(s.drop_last())
    } else {
        bare(s.drop_last()).push(s.last())
    }
}

/// The digits before the point.
pub open spec fn whole_part(s: Seq<char>) -> Seq<char> {
    s.take(text::run_to(s, Stop::At('.')))
}

/// What follows the point; nothing where there is none.
pub open spec fn fraction(s: Seq<char>) -> Seq<char> {
    let n = text::run_to(s, Stop::At('.'));
    if n < s.len() {
        s.skip(n + 1)
    } else {
        Seq::empty()
    }
}

/// A decimal number: digits with at most one point, at least one digit.
pub open spec fn is_decimal(s: Seq<char>) -> bool {
    &&& text::all_digits(whole_part(s))
    &&& text::all_digits(fraction(s))
    &&& whole_part(s).len() + fraction(s).len() > 0
}

/// Ten to the `k`.
pub open spec fn power_of_ten(k: nat) -> nat
    decreases k,
{
    if k == 0 {
        1
    } else {
        power_of_ten((k - 1) as nat) * 10
    }
}

/// `c` in lower case, if it is an ASCII letter.
pub open spec fn lower(c: char) -> char {
    if 'A' <= c && c <= 'Z' {
        ((c as int) + 32) as char
    } else {
        c
    }
}

/// `s` in ASCII lower case.
pub open spec fn lowered(s: Seq<char>) -> Seq<char> {
    s.map_values(|c: char| lower(c))
}

/// What a unit stands for. `K/M/G/T` are binary multiples (1024-based), the
/// explicit `KiB/MiB/...` are too, and the SI `KB/MB/...` are 1000-based.
pub open spec fn multiplier(unit: Seq<char>) -> Option<u64> {
    if unit == ""@ || unit == "b"@ {
        Some(1)
    } else if unit == "k"@ || unit == "kib"@ {
        Some(1_024)
    } else if unit == "m"@ || unit == "mib"@ {
        Some(1_048_576)
    } else if unit == "g"@ || unit == "gib"@ {
        Some(1_073_741_824)
    } else if unit == "t"@ || unit == "tib"@ {
        Some(1_099_511_627_776)
    } else if unit == "kb"@ {
        Some(1_000)
    } else if unit == "mb"@ {
        Some(1_000_000)
    } else if unit == "gb"@ {
        Some(1_000_000_000)
    } else if unit == "tb"@ {
        Some(1_000_000_000_000)
    } else {
        None
    }
}

/// What a size means: the number, rounded as a double-precision number is, times
/// its unit, rounded likewise, cut to whole bytes and held at `u64::MAX`.
pub open spec fn size_of(input: Seq<char>) -> core::result::Result<u64, Seq<char>> {
    let s = text::trimmed(input);
    let n = number_length(s);
    let number = bare(s.take(n));
    let unit = lowered(text::trimmed(s.skip(n)));
    if s.len() == 0 {
        Err("empty size"@)
    } else if !is_decimal(number) {
        Err("invalid number in size '"@ + input + "'"@)
    } else {
        match multiplier(unit) {
            Some(factor) => Ok(
                rounding::scaled_size(
                    text::number(whole_part(number) + fraction(number)),
                    power_of_ten(fraction(number).len()),
                    factor as nat,
                ) as u64,
            ),
            None => Err("unknown size unit '"@ + unit + "' in '"@ + input + "'"@),
        }
    }
}

/// A result of parsing, with its message as a sequence of characters.
pub open spec fn size_result(r: core::result::Result<u64, String>) -> core::result::Result<
    u64,
    Seq<char>,
> {
    match r {
        Ok(n) => Ok(n),
        Err(message) => Err(message@),
    }
}

/// Where the number that `chars` begins with ends.
fn end_of_number(chars: &[char]) -> (r: usize)
    ensures
        r <= chars@.len(),
        r == number_length(chars@),
{
    let mut i: usize = 0;
    proof {
        assert(chars@.skip(0) =~= chars@);
    }
    while i < chars.len() && (('0' <= chars[i] && chars[i] <= '9') || chars[i] == '.' || chars[i]
        == '_')
        invariant
            i <= chars@.len(),
            number_length(chars@) == i + number_length(chars@.skip(i as int)),
        decreases chars@.len() - i,
    {
        proof {
            let here = chars@.skip(i as int);
            assert(here[0] == chars@[i as int]);
            assert(here.skip(1) =~= chars@.skip(i + 1));
        }
        i = i + 1;
    }
    proof {
        let here = chars@.skip(i as int);
        if i < chars@.len() {
            assert(here[0] == chars@[i as int]);
        }
    }
    i
}

/// `chars` without their underscores.
fn without_underscores(chars: &[char]) -> (r: Vec<char>)
    ensures
        r@ == bare(chars@),
{
    let mut out: Vec<char> = Vec::new();
    for i in 0..chars.len()
        invariant
            out@ == bare(chars@.take(i as int)),
    {
        proof {
            assert(chars@.take(i + 1).drop_last() =~= chars@.take(i as int));
            assert(chars@.take(i + 1).last() == chars@[i as int]);
        }
        if chars[i] != '_' {
            out.push(chars[i]);
        }
    }
    proof {
        assert(chars@.take(chars@.len() as int) =~= chars@);
    }
    out
}

/// `chars` in ASCII lower case.
fn to_lower(chars: &[char]) -> (r: Vec<char>)
    ensures
        r@ == lowered(chars@),
{
    let mut out: Vec<char> = Vec::new();
    for i in 0..chars.len()
        invariant
            out@.len() == i,
            forall|k: int| 0 <= k < i ==> out@[k] == lower(chars@[k]),
    {
        let c = chars[i];
        if 'A' <= c && c <= 'Z' {
            out.push((c as u8 + 32) as char);
        } else {
            out.push(c);
        }
    }
    assert(out@ =~= lowered(chars@));
    out
}

/// Whether `chars` spell `word`.
fn spells(chars: &[char], word: &str) -> (r: bool)
    ensures
        r == (chars@ == word@),
{
    let other = text::chars_of(word);
    if chars.len() != other.len() {
        return false;
    }
    for i in 0..chars.len()
        invariant
            other@ == word@,
            chars@.len() == other@.len(),
            forall|k: int| 0 <= k < i ==> chars@[k] == other@[k],
    {
        if chars[i] != other[i] {
            return false;
        }
    }
    assert(chars@ =~= word@);
    true
}

/// What a unit stands for.
fn unit_multiplier(unit: &[char]) -> (r: Option<u64>)
    ensures
        r == multiplier(unit@),
{
    if spells(unit, "") || spells(unit, "b") {
        Some(1)
    } else if spells(unit, "k") || spells(unit, "kib") {
        Some(1_024)
    } else if spells(unit, "m") || spells(unit, "mib") {
        Some(1_048_576)
    } else if spells(unit, "g") || spells(unit, "gib") {
        Some(1_073_741_824)
    } else if spells(unit, "t") || spells(unit, "tib") {
        Some(1_099_511_627_776)
    } else if spells(unit, "kb") {
        Some(1_000)
    } else if spells(unit, "mb") {
        Some(1_000_000)
    } else if spells(unit, "gb") {
        Some(1_000_000_000)
    } else if spells(unit, "tb") {
        Some(1_000_000_000_000)
    } else {
        None
    }
}

proof fn lemma_power_positive(k: nat)
    ensures
        power_of_ten(k) > 0,
    decreases k,
{
    if k > 0 {
        lemma_power_positive((k - 1) as nat);
    }
}

/// A decimal number as a ratio: all its digits over a power of ten. `None` where
/// it is no decimal number.
fn ratio(chars: &[char]) -> (r: Option<(Big, Big)>)
    ensures
        r is Some <==> is_decimal(chars@),
        r matches Some((n, d)) ==> n@ == text::number(whole_part(chars@) + fraction(chars@)) && d@
            == power_of_ten(fraction(chars@).len()),
{
    let ghost s = chars@;
    let ghost all = whole_part(s) + fraction(s);
    proof {
        assert(s.skip(0) =~= s);
        text::lemma_run_to(s, Stop::At('.'));
    }
    let point = text::find_stop(chars, 0, Stop::At('.'));
    let mut n = Big::zero();
    let mut d = Big::one();
    proof {
        assert(all.take(0) =~= Seq::<char>::empty());
    }
    for i in 0..point
        invariant
            s == chars@,
            point <= s.len(),
            whole_part(s) == s.take(point as int),
            all == whole_part(s) + fraction(s),
            forall|k: int| 0 <= k < i ==> text::digit_value(#[trigger] s[k]) is Some,
            n@ == text::number(all.take(i as int)),
    {
        let c = chars[i];
        if c < '0' || c > '9' {
            proof {
                assert(text::digit_value(whole_part(s)[i as int]) is None);
            }
            return None;
        }
        proof {
            assert(all.take(i + 1).drop_last() =~= all.take(i as int));
            assert(all.take(i + 1).last() == c);
        }
        n.mul_add(10, c as u64 - 48);
    }
    let from: usize = if point < chars.len() { point + 1 } else { point };
    proof {
        if point == s.len() {
            assert(s.skip(from as int) =~= Seq::<char>::empty());
        }
        assert(fraction(s) =~= s.skip(from as int));
    }
    for i in from..chars.len()
        invariant
            s == chars@,
            point <= from <= s.len(),
            whole_part(s) == s.take(point as int),
            fraction(s) == s.skip(from as int),
            all == whole_part(s) + fraction(s),
            forall|k: int| from <= k < i ==> text::digit_value(#[trigger] s[k]) is Some,
            n@ == text::number(all.take(point + (i - from))),
            d@ == power_of_ten((i - from) as nat),
    {
        let c = chars[i];
        if c < '0' || c > '9' {
            proof {
                assert(fraction(s)[i - from] == c);
                assert(text::digit_value(fraction(s)[i - from]) is None);
            }
            return None;
        }
        proof {
            let k = point + (i - from);
            assert(all.take(k + 1).drop_last() =~= all.take(k));
            assert(all.take(k + 1).last() == c);
        }
        n.mul_add(10, c as u64 - 48);
        d.mul_add(10, 0);
    }
    proof {
        assert(all.take(all.len() as int) =~= all);
        assert forall|i: int| 0 <= i < whole_part(s).len() implies #[trigger] text::digit_value(
            whole_part(s)[i],
        ) is Some by {
            assert(text::digit_value(s[i]) is Some);
        }
        assert forall|i: int| 0 <= i < fraction(s).len() implies #[trigger] text::digit_value(
            fraction(s)[i],
        ) is Some by {
            assert(text::digit_value(s[from + i]) is Some);
        }
    }
    if point == 0 && from == chars.len() {
        return None;
    }
    Some((n, d))
}

/// Parse a human-readable byte size. Bare numbers are bytes; `K/M/G/T` are
/// binary multiples (1024-based), the explicit `KiB/MiB/...` are too, and the
/// SI `KB/MB/...` are 1000-based. Fractional values (`1.5M`) are allowed. The
/// error is a human-readable message: the number is malformed, or the unit
/// suffix is unknown.
pub fn parse_size(input: &str) -> (r: core::result::Result<u64, String>)
    ensures
        size_result(r) == size_of(input@),
{
    let chars = text::chars_of(input);
    let s = text::trim(chars.as_slice());
    if s.len() == 0 {
        return Err("empty size".to_owned());
    }
    let split = end_of_number(s.as_slice());
    let number = without_underscores(&s[0..split]);
    let unit = to_lower(text::trim(&s[split..s.len()]).as_slice());
    proof {
        assert(s@.subrange(0, split as int) =~= s@.take(split as int));
        assert(s@.subrange(split as int, s@.len() as int) =~= s@.skip(split as int));
    }
    let (n, d) = match ratio(number.as_slice()) {
        Some(parts) => parts,
        None => {
            let mut out = "invalid number in size '".to_owned();
            out.append(input);
            out.append("'");
            return Err(out);
        },
    };
    let factor = match unit_multiplier(unit.as_slice()) {
        Some(factor) => factor,
        None => {
            let mut out = "unknown size unit '".to_owned();
            out.append(text::text_of(unit.as_slice()).as_str());
            out.append("' in '");
            out.append(input);
            out.append("'");
            return Err(out);
        },
    };
    proof {
        lemma_power_positive(fraction(number@).len());
    }
    Ok(rounding::scale(n, d, factor))
}

// ---------------------------------------------------------------------------
// Laws of sizes.

/// `unit` spells `name` (in small letters), in capital or small letters.
pub open spec fn is_spelling(unit: Seq<char>, name: Seq<char>) -> bool {
    &&& unit.len() == name.len()
    &&& forall|i: int|
        0 <= i < name.len() ==> #[trigger] unit[i] == name[i] || (unit[i] as int) + 32
            == name[i] as int
}

/// A name of ASCII letters, all small.
spec fn is_small(name: Seq<char>) -> bool {
    forall|i: int| 0 <= i < name.len() ==> 'a' <= #[trigger] name[i] && name[i] <= 'z'
}

proof fn lemma_spelled(unit: Seq<char>, name: Seq<char>)
    requires
        is_small(name),
        is_spelling(unit, name),
    ensures
        lowered(unit) == name,
        forall|i: int|
            0 <= i < unit.len() ==> !in_number(#[trigger] unit[i]) && !text::is_space(unit[i]),
{
    assert forall|i: int| 0 <= i < unit.len() implies !in_number(#[trigger] unit[i])
        && !text::is_space(unit[i]) && lower(unit[i]) == name[i] by {
        assert('a' <= name[i] && name[i] <= 'z');
    }
    assert(lowered(unit) =~= name);
}

proof fn lemma_number_length(a: Seq<char>, rest: Seq<char>)
    requires
        forall|i: int| 0 <= i < a.len() ==> in_number(#[trigger] a[i]),
        rest.len() > 0 ==> !in_number(rest[0]),
    ensures
        number_length(a + rest) == a.len(),
    decreases a.len(),
{
    let s = a + rest;
    if a.len() > 0 {
        let less = a.skip(1);
        assert forall|i: int| 0 <= i < less.len() implies in_number(#[trigger] less[i]) by {
            assert(less[i] == a[i + 1]);
        }
        lemma_number_length(less, rest);
        assert(s.skip(1) =~= less + rest);
        assert(s[0] == a[0]);
    } else {
        assert(s =~= rest);
    }
}

proof fn lemma_bare(s: Seq<char>)
    requires
        text::all_digits(s),
    ensures
        bare(s) == s,
    decreases s.len(),
{
    if s.len() > 0 {
        let front = s.drop_last();
        assert(text::digit_value(s[s.len() - 1]) is Some);
        assert forall|i: int| 0 <= i < front.len() implies #[trigger] text::digit_value(front[i])
            is Some by {
            assert(front[i] == s[i]);
            assert(text::digit_value(s[i]) is Some);
        }
        lemma_bare(front);
        assert(front.push(s.last()) =~= s);
    } else {
        assert(bare(s) =~= s);
    }
}

/// A whole number with a unit is that many units.
#[verifier::rlimit(40)]
proof fn lemma_size(n: nat, unit: Seq<char>, name: Seq<char>, factor: u64)
    requires
        0 < n,
        0 < factor,
        n * factor <= vstd::arithmetic::power2::pow2(53),
        is_small(name),
        is_spelling(unit, name),
        multiplier(name) == Some(factor),
    ensures
        size_of(text::decimal(n) + unit) == Ok::<u64, Seq<char>>((n * factor) as u64),
{
    let d = text::decimal(n);
    let s = d + unit;
    text::lemma_digits_read(n);
    lemma_spelled(unit, name);
    assert forall|i: int| 0 <= i < d.len() implies in_number(#[trigger] d[i]) && !text::is_space(
        d[i],
    ) && d[i] != '.' by {
        assert(text::digit_value(d[i]) is Some);
    }
    let none = Seq::<char>::empty();
    assert(none + s + none =~= s);
    assert(s[0] == d[0]);
    if unit.len() > 0 {
        assert(s[s.len() - 1] == unit[unit.len() - 1]);
    } else {
        assert(s[s.len() - 1] == d[d.len() - 1]);
    }
    text::law_trimmed(none, s, none);
    lemma_number_length(d, unit);
    assert(s.take(d.len() as int) =~= d);
    assert(s.skip(d.len() as int) =~= unit);
    assert(none + unit + none =~= unit);
    text::law_trimmed(none, unit, none);
    lemma_bare(d);
    assert(d + none =~= d);
    text::lemma_run_to_is(d, none, Stop::At('.'));
    assert(whole_part(d) =~= d);
    assert(fraction(d) =~= none);
    assert(whole_part(d) + fraction(d) =~= d);
    assert(power_of_ten(0) == 1);
    vstd::arithmetic::power2::lemma2_to64_rest();
    rounding::law_whole_sizes_are_exact(n, factor as nat);
}

/// Sizes mean what they say: a whole number of bytes, or of one of the units, in capital or
/// small letters. `K`, `M`, `G`, `T`, with `iB` or without, go up by 1024 each, and with a
/// `B` alone by 1000. This is exact up to `2^53`, as far as double precision is.
#[verifier::rlimit(40)]
pub proof fn law_sizes_mean_what_they_say(n: nat, unit: Seq<char>)
    requires
        0 < n,
        n <= 0x20_0000_0000_0000,
    ensures
        ({
            let size = size_of(text::decimal(n) + unit);
            let limit: int = 0x20_0000_0000_0000;
            &&& unit.len() == 0 || is_spelling(unit, "b"@) ==> size == Ok::<u64, Seq<char>>(n as u64)
            &&& (is_spelling(unit, "k"@) || is_spelling(unit, "kib"@)) && n * 1024 <= limit ==> size == Ok::<
                u64,
                Seq<char>,
            >((n * 1024) as u64)
            &&& (is_spelling(unit, "m"@) || is_spelling(unit, "mib"@)) && n * 1048576 <= limit ==> size
                == Ok::<u64, Seq<char>>((n * 1048576) as u64)
            &&& (is_spelling(unit, "g"@) || is_spelling(unit, "gib"@)) && n * 1073741824 <= limit ==> size
                == Ok::<u64, Seq<char>>((n * 1073741824) as u64)
            &&& (is_spelling(unit, "t"@) || is_spelling(unit, "tib"@)) && n * 1099511627776 <= limit
                ==> size == Ok::<u64, Seq<char>>((n * 1099511627776) as u64)
            &&& is_spelling(unit, "kb"@) && n * 1000 <= limit ==> size == Ok::<u64, Seq<char>>(
                (n * 1000) as u64,
            )
            &&& is_spelling(unit, "mb"@) && n * 1000000 <= limit ==> size == Ok::<u64, Seq<char>>(
                (n * 1000000) as u64,
            )
            &&& is_spelling(unit, "gb"@) && n * 1000000000 <= limit ==> size == Ok::<u64, Seq<char>>(
                (n * 1000000000) as u64,
            )
            &&& is_spelling(unit, "tb"@) && n * 1000000000000 <= limit ==> size == Ok::<
                u64,
                Seq<char>,
            >((n * 1000000000000) as u64)
        }),
{
    reveal_strlit("");
    reveal_strlit("b");
    reveal_strlit("k");
    reveal_strlit("kib");
    reveal_strlit("m");
    reveal_strlit("mib");
    reveal_strlit("g");
    reveal_strlit("gib");
    reveal_strlit("t");
    reveal_strlit("tib");
    reveal_strlit("kb");
    reveal_strlit("mb");
    reveal_strlit("gb");
    reveal_strlit("tb");
    vstd::arithmetic::power2::lemma2_to64_rest();
    assert(is_small(""@) && is_small("b"@) && is_small("k"@) && is_small("kib"@) && is_small("m"@)
        && is_small("mib"@) && is_small("g"@) && is_small("gib"@) && is_small("t"@) && is_small(
        "tib"@,
    ) && is_small("kb"@) && is_small("mb"@) && is_small("gb"@) && is_small("tb"@));
    lemma_units_differ();
    if unit.len() == 0 {
        assert(unit =~= ""@);
        lemma_size(n, unit, ""@, 1);
    }
    if is_spelling(unit, "b"@) {
        lemma_size(n, unit, "b"@, 1);
    }
    if is_spelling(unit, "k"@) && n * 1024 <= 0x20_0000_0000_0000 {
        lemma_size(n, unit, "k"@, 1024);
    }
    if is_spelling(unit, "kib"@) && n * 1024 <= 0x20_0000_0000_0000 {
        lemma_size(n, unit, "kib"@, 1024);
    }
    if is_spelling(unit, "m"@) && n * 1048576 <= 0x20_0000_0000_0000 {
        lemma_size(n, unit, "m"@, 1048576);
    }
    if is_spelling(unit, "mib"@) && n * 1048576 <= 0x20_0000_0000_0000 {
        lemma_size(n, unit, "mib"@, 1048576);
    }
    if is_spelling(unit, "g"@) && n * 1073741824 <= 0x20_0000_0000_0000 {
        lemma_size(n, unit, "g"@, 1073741824);
    }
    if is_spelling(unit, "gib"@) && n * 1073741824 <= 0x20_0000_0000_0000 {
        lemma_size(n, unit, "gib"@, 1073741824);
    }
    if is_spelling(unit, "t"@) && n * 1099511627776 <= 0x20_0000_0000_0000 {
        lemma_size(n, unit, "t"@, 1099511627776);
    }
    if is_spelling(unit, "tib"@) && n * 1099511627776 <= 0x20_0000_0000_0000 {
        lemma_size(n, unit, "tib"@, 1099511627776);
    }
    if is_spelling(unit, "kb"@) && n * 1000 <= 0x20_0000_0000_0000 {
        lemma_size(n, unit, "kb"@, 1000);
    }
    if is_spelling(unit, "mb"@) && n * 1000000 <= 0x20_0000_0000_0000 {
        lemma_size(n, unit, "mb"@, 1000000);
    }
    if is_spelling(unit, "gb"@) && n * 1000000000 <= 0x20_0000_0000_0000 {
        lemma_size(n, unit, "gb"@, 1000000000);
    }
    if is_spelling(unit, "tb"@) && n * 1000000000000 <= 0x20_0000_0000_0000 {
        lemma_size(n, unit, "tb"@, 1000000000000);
    }
}

/// No two of the names are alike.
#[verifier::rlimit(40)]
proof fn lemma_units_differ()
    ensures
        multiplier(""@) == Some(1u64),
        multiplier("b"@) == Some(1u64),
        multiplier("k"@) == Some(1024u64),
        multiplier("kib"@) == Some(1024u64),
        multiplier("m"@) == Some(1048576u64),
        multiplier("mib"@) == Some(1048576u64),
        multiplier("g"@) == Some(1073741824u64),
        multiplier("gib"@) == Some(1073741824u64),
        multiplier("t"@) == Some(1099511627776u64),
        multiplier("tib"@) == Some(1099511627776u64),
        multiplier("kb"@) == Some(1000u64),
        multiplier("mb"@) == Some(1000000u64),
        multiplier("gb"@) == Some(1000000000u64),
        multiplier("tb"@) == Some(1000000000000u64),
{
    reveal_strlit("");
    reveal_strlit("b");
    reveal_strlit("k");
    reveal_strlit("kib");
    reveal_strlit("m");
    reveal_strlit("mib");
    reveal_strlit("g");
    reveal_strlit("gib");
    reveal_strlit("t");
    reveal_strlit("tib");
    reveal_strlit("kb");
    reveal_strlit("mb");
    reveal_strlit("gb");
    reveal_strlit("tb");
    assert(""@.len() == 0);
    assert("b"@.len() == 1 && "b"@[0] == 'b');
    assert("k"@.len() == 1 && "k"@[0] == 'k');
    assert("kib"@.len() == 3 && "kib"@[0] == 'k' && "kib"@[1] == 'i' && "kib"@[2] == 'b');
    assert("m"@.len() == 1 && "m"@[0] == 'm');
    assert("mib"@.len() == 3 && "mib"@[0] == 'm' && "mib"@[1] == 'i' && "mib"@[2] == 'b');
    assert("g"@.len() == 1 && "g"@[0] == 'g');
    assert("gib"@.len() == 3 && "gib"@[0] == 'g' && "gib"@[1] == 'i' && "gib"@[2] == 'b');
    assert("t"@.len() == 1 && "t"@[0] == 't');
    assert("tib"@.len() == 3 && "tib"@[0] == 't' && "tib"@[1] == 'i' && "tib"@[2] == 'b');
    assert("kb"@.len() == 2 && "kb"@[0] == 'k' && "kb"@[1] == 'b');
    assert("mb"@.len() == 2 && "mb"@[0] == 'm' && "mb"@[1] == 'b');
    assert("gb"@.len() == 2 && "gb"@[0] == 'g' && "gb"@[1] == 'b');
    assert("tb"@.len() == 2 && "tb"@[0] == 't' && "tb"@[1] == 'b');
    assert("k"@ != "b"@);
    assert("m"@ != "b"@);
    assert("m"@ != "k"@);
    assert("mib"@ != "kib"@);
    assert("g"@ != "b"@);
    assert("g"@ != "k"@);
    assert("g"@ != "m"@);
    assert("gib"@ != "kib"@);
    assert("gib"@ != "mib"@);
    assert("t"@ != "b"@);
    assert("t"@ != "k"@);
    assert("t"@ != "m"@);
    assert("t"@ != "g"@);
    assert("tib"@ != "kib"@);
    assert("tib"@ != "mib"@);
    assert("tib"@ != "gib"@);
    assert("mb"@ != "kb"@);
    assert("gb"@ != "kb"@);
    assert("gb"@ != "mb"@);
    assert("tb"@ != "kb"@);
    assert("tb"@ != "mb"@);
    assert("tb"@ != "gb"@);
}

/// What is no size is refused: an empty text, one that does not begin with a digit, a point
/// or an underscore, and any unit of letters that is none of those.
#[verifier::rlimit(40)]
pub proof fn law_what_is_no_size_is_refused(s: Seq<char>, n: nat, unit: Seq<char>)
    requires
        unit.len() > 0,
        forall|i: int|
            0 <= i < unit.len() ==> ('a' <= #[trigger] unit[i] && unit[i] <= 'z') || ('A'
                <= unit[i] && unit[i] <= 'Z'),
    ensures
        (forall|i: int| 0 <= i < s.len() ==> text::is_space(#[trigger] s[i])) ==> size_of(s) is Err,
        s.len() > 0 && !text::is_space(s[0]) && !text::is_space(s[s.len() - 1]) && !(('0' <= s[0]
            && s[0] <= '9') || s[0] == '.' || s[0] == '_') ==> size_of(s) is Err,
        size_of(text::decimal(n) + unit) is Ok ==> is_spelling(unit, "b"@) || is_spelling(unit, "k"@)
            || is_spelling(unit, "kib"@) || is_spelling(unit, "kb"@) || is_spelling(unit, "m"@) || is_spelling(
            unit,
            "mib"@,
        ) || is_spelling(unit, "mb"@) || is_spelling(unit, "g"@) || is_spelling(unit, "gib"@) || is_spelling(
            unit,
            "gb"@,
        ) || is_spelling(unit, "t"@) || is_spelling(unit, "tib"@) || is_spelling(unit, "tb"@),
{
    let none = Seq::<char>::empty();
    if forall|i: int| 0 <= i < s.len() ==> text::is_space(#[trigger] s[i]) {
        assert(s + none + none =~= s);
        text::law_trimmed(s, none, none);
    }
    if s.len() > 0 && !text::is_space(s[0]) && !text::is_space(s[s.len() - 1]) {
        assert(none + s + none =~= s);
        text::law_trimmed(none, s, none);
        if !in_number(s[0]) {
            assert(s.take(0) =~= none);
            assert(bare(none) =~= none);
            text::lemma_run_to(none, Stop::At('.'));
            assert(whole_part(none) =~= none);
            assert(fraction(none) =~= none);
        }
    }
    let d = text::decimal(n);
    let t = d + unit;
    text::lemma_digits_read(n);
    assert forall|i: int| 0 <= i < d.len() implies in_number(#[trigger] d[i]) && !text::is_space(
        d[i],
    ) by {
        assert(text::digit_value(d[i]) is Some);
    }
    assert(none + t + none =~= t);
    assert(t[0] == d[0]);
    assert(t[t.len() - 1] == unit[unit.len() - 1]);
    text::law_trimmed(none, t, none);
    lemma_number_length(d, unit);
    assert(t.skip(d.len() as int) =~= unit);
    assert(none + unit + none =~= unit);
    text::law_trimmed(none, unit, none);
    if size_of(t) is Ok {
        let low = lowered(unit);
        assert(low.len() == unit.len());
        assert forall|name: Seq<char>| low == name implies #[trigger] is_spelling(unit, name) by {
            assert forall|i: int| 0 <= i < name.len() implies #[trigger] unit[i] == name[i] || (
            unit[i] as int) + 32 == name[i] as int by {
                assert(low[i] == lower(unit[i]));
            }
        }
        reveal_strlit("");
        assert(multiplier(low) is Some);
        assert(low != ""@);
    }
}

/// Underscores in a number do not matter.
#[verifier::rlimit(40)]
pub proof fn law_underscores_do_not_matter(a: Seq<char>, b: Seq<char>, unit: Seq<char>)
    requires
        text::all_digits(a),
        text::all_digits(b),
        a.len() > 0,
        forall|i: int|
            0 <= i < unit.len() ==> ('a' <= #[trigger] unit[i] && unit[i] <= 'z') || ('A'
                <= unit[i] && unit[i] <= 'Z'),
    ensures
        size_of(a + "_"@ + b + unit) is Ok <==> size_of(a + b + unit) is Ok,
        size_of(a + b + unit) is Ok ==> size_of(a + "_"@ + b + unit) == size_of(a + b + unit),
{
    reveal_strlit("_");
    let n1 = a + "_"@ + b;
    let n2 = a + b;
    assert forall|i: int| 0 <= i < a.len() implies in_number(#[trigger] a[i]) && !text::is_space(
        a[i],
    ) by {
        assert(text::digit_value(a[i]) is Some);
    }
    assert forall|i: int| 0 <= i < b.len() implies in_number(#[trigger] b[i]) && !text::is_space(
        b[i],
    ) by {
        assert(text::digit_value(b[i]) is Some);
    }
    assert forall|i: int| 0 <= i < n1.len() implies in_number(#[trigger] n1[i]) && !text::is_space(
        n1[i],
    ) by {
        if i > a.len() {
            assert(n1[i] == b[i - a.len() - 1]);
        } else if i < a.len() {
            assert(n1[i] == a[i]);
        }
    }
    assert forall|i: int| 0 <= i < n2.len() implies in_number(#[trigger] n2[i]) && !text::is_space(
        n2[i],
    ) && text::digit_value(n2[i]) is Some by {
        if i >= a.len() {
            assert(n2[i] == b[i - a.len()]);
            assert(text::digit_value(b[i - a.len()]) is Some);
        } else {
            assert(n2[i] == a[i]);
            assert(text::digit_value(a[i]) is Some);
        }
    }
    lemma_parts_of_a_size(n1, unit);
    lemma_parts_of_a_size(n2, unit);
    lemma_bare(n2);
    lemma_bare(a);
    lemma_bare(b);
    lemma_bare_sum(a + "_"@, b);
    assert((a + "_"@).drop_last() =~= a);
    assert(bare(a + "_"@) == a);
}

/// A number and a unit are told apart.
proof fn lemma_parts_of_a_size(n: Seq<char>, unit: Seq<char>)
    requires
        n.len() > 0,
        forall|i: int| 0 <= i < n.len() ==> in_number(#[trigger] n[i]) && !text::is_space(n[i]),
        forall|i: int|
            0 <= i < unit.len() ==> ('a' <= #[trigger] unit[i] && unit[i] <= 'z') || ('A'
                <= unit[i] && unit[i] <= 'Z'),
    ensures
        ({
            let s = text::trimmed(n + unit);
            &&& s == n + unit
            &&& number_length(s) == n.len()
            &&& s.take(n.len() as int) == n
            &&& text::trimmed(s.skip(n.len() as int)) == unit
        }),
{
    let s = n + unit;
    let none = Seq::<char>::empty();
    assert(none + s + none =~= s);
    assert(s[0] == n[0]);
    if unit.len() > 0 {
        assert(s[s.len() - 1] == unit[unit.len() - 1]);
    } else {
        assert(s[s.len() - 1] == n[n.len() - 1]);
    }
    text::law_trimmed(none, s, none);
    lemma_number_length(n, unit);
    assert(s.take(n.len() as int) =~= n);
    assert(s.skip(n.len() as int) =~= unit);
    assert(none + unit + none =~= unit);
    text::law_trimmed(none, unit, none);
}

proof fn lemma_bare_sum(a: Seq<char>, b: Seq<char>)
    ensures
        bare(a + b) == bare(a) + bare(b),
    decreases b.len(),
{
    if b.len() > 0 {
        lemma_bare_sum(a, b.drop_last());
        assert((a + b).drop_last() =~= a + b.drop_last());
        assert((a + b).last() == b.last());
        assert(bare(a + b) =~= bare(a) + bare(b));
    } else {
        assert(a + b =~= a);
        assert(bare(b) =~= Seq::<char>::empty());
        assert(bare(a) + bare(b) =~= bare(a));
    }
}

} // verus!
