//! Resolved run parameters.
//!
//! These describe *how* a copy runs and are persisted verbatim in the state
//! file's `[params]` section so a run can be repeated without re-specifying
//! anything. When resuming, the precedence is **CLI flag > state file >
//! built-in default**.

use crate::cli::Cli;
use crate::error::{Error, ErrorView, Result};
use crate::text;
use vstd::prelude::*;

verus! {

/// Default target when none is given on the command line.
pub const DEFAULT_TARGET: &'static str = "grave.img";

/// Hard fallback sector size, used only when the real one cannot be read (a
/// regular file, a pipe, or a failed probe). Block devices report their actual
/// logical sector size and never hit this. 512 is the universal floor: it never
/// over-aligns and never rejects a `skip` a device would accept.
pub const DEFAULT_SECTOR_SIZE: u64 = 512;

/// Desired I/O transfer size for healthy reads: 1 MiB. The effective size is
/// this aligned down to a multiple of the sector size. Pure throughput knob:
/// data loss on a read error is bounded by the sector size, not this.
pub const DESIRED_TRANSFER_SIZE: u64 = 1_048_576;

#[derive(Debug, PartialEq, Eq)]
pub struct RunParams {
    pub source: String,
    pub target: String,
    /// Logical sector size: the atomic unit of readability, the alignment unit,
    /// and the granularity of error isolation.
    pub sector_size: u64,
    /// Desired transfer size for healthy reads (aligned down to a sector
    /// multiple at use). Also the granularity of the `--skip-*` modes.
    pub transfer_size: u64,
    pub skip: u64,
    pub seek: u64,
    /// Maximum bytes to copy; `0` means "the whole source".
    pub length: u64,
    /// Only write blocks that differ from the current target contents.
    pub skip_unchanged: bool,
    /// Don't write all-zero source blocks, keeping the target sparse.
    pub skip_zeros: bool,
}

/// [`RunParams`] with its paths as sequences of characters.
pub struct ParamsView {
    pub source: Seq<char>,
    pub target: Seq<char>,
    pub sector_size: u64,
    pub transfer_size: u64,
    pub skip: u64,
    pub seek: u64,
    pub length: u64,
    pub skip_unchanged: bool,
    pub skip_zeros: bool,
}

impl View for RunParams {
    type V = ParamsView;

    open spec fn view(&self) -> ParamsView {
        ParamsView {
            source: self.source@,
            target: self.target@,
            sector_size: self.sector_size,
            transfer_size: self.transfer_size,
            skip: self.skip,
            seek: self.seek,
            length: self.length,
            skip_unchanged: self.skip_unchanged,
            skip_zeros: self.skip_zeros,
        }
    }
}

impl Clone for RunParams {
    fn clone(&self) -> (r: Self)
        ensures
            r@ == self@,
    {
        RunParams {
            source: self.source.clone(),
            target: self.target.clone(),
            sector_size: self.sector_size,
            transfer_size: self.transfer_size,
            skip: self.skip,
            seek: self.seek,
            length: self.length,
            skip_unchanged: self.skip_unchanged,
            skip_zeros: self.skip_zeros,
        }
    }
}

/// The first of: what the command line says, what the prior state says, the
/// default.
pub open spec fn first_of<T>(cli: Option<T>, prior: Option<T>, default: T) -> T {
    match (cli, prior) {
        (Some(value), _) => value,
        (None, Some(value)) => value,
        (None, None) => default,
    }
}

fn pick<T: Copy>(cli: Option<T>, prior: Option<T>, default: T) -> (r: T)
    ensures
        r == first_of(cli, prior, default),
{
    match cli {
        Some(value) => value,
        None => match prior {
            Some(value) => value,
            None => default,
        },
    }
}

/// What [`RunParams::resolve`] makes of the command line and a prior state.
pub open spec fn resolved(
    cli: Cli,
    target: Seq<char>,
    prior: Option<ParamsView>,
    detected_sector: u64,
) -> ParamsView {
    ParamsView {
        source: cli.source@,
        target,
        sector_size: first_of(
            cli.sector_size,
            match prior {
                Some(p) => Some(p.sector_size),
                None => None,
            },
            detected_sector,
        ),
        transfer_size: first_of(
            cli.transfer_size,
            match prior {
                Some(p) => Some(p.transfer_size),
                None => None,
            },
            DESIRED_TRANSFER_SIZE,
        ),
        skip: first_of(
            cli.skip,
            match prior {
                Some(p) => Some(p.skip),
                None => None,
            },
            0,
        ),
        seek: first_of(
            cli.seek,
            match prior {
                Some(p) => Some(p.seek),
                None => None,
            },
            0,
        ),
        length: first_of(
            cli.length,
            match prior {
                Some(p) => Some(p.length),
                None => None,
            },
            0,
        ),
        skip_unchanged: first_of(
            cli.skip_unchanged,
            match prior {
                Some(p) => Some(p.skip_unchanged),
                None => None,
            },
            false,
        ),
        skip_zeros: first_of(
            cli.skip_zeros,
            match prior {
                Some(p) => Some(p.skip_zeros),
                None => None,
            },
            false,
        ),
    }
}

/// The parameters of a prior state, if there is one.
pub open spec fn prior_view(prior: Option<&RunParams>) -> Option<ParamsView> {
    match prior {
        Some(p) => Some(p@),
        None => None,
    }
}

impl RunParams {
    /// Merge command-line arguments over any parameters loaded from a prior
    /// state file, falling back to defaults. The source path always comes from
    /// the command line; `target` has already been resolved by the caller.
    /// `detected_sector` is the sector size probed from the source, used as the
    /// fallback for `sector_size` when neither the CLI nor the state set it. The
    /// skip modes are sticky: a resume keeps the recorded mode unless the
    /// command line sets it one way or the other.
    ///
    /// Precedence: CLI flag > state file > detected (sector) / built-in default.
    pub fn resolve(
        cli: &Cli,
        target: String,
        prior: Option<&RunParams>,
        detected_sector: u64,
    ) -> (r: Self)
        ensures
            r@ == resolved(*cli, target@, prior_view(prior), detected_sector),
    {
        let (sector, transfer, skip, seek, length, unchanged, zeros) = match prior {
            Some(p) => (
                Some(p.sector_size),
                Some(p.transfer_size),
                Some(p.skip),
                Some(p.seek),
                Some(p.length),
                Some(p.skip_unchanged),
                Some(p.skip_zeros),
            ),
            None => (None, None, None, None, None, None, None),
        };
        RunParams {
            source: cli.source.clone(),
            target,
            sector_size: pick(cli.sector_size, sector, detected_sector),
            transfer_size: pick(cli.transfer_size, transfer, DESIRED_TRANSFER_SIZE),
            skip: pick(cli.skip, skip, 0),
            seek: pick(cli.seek, seek, 0),
            length: pick(cli.length, length, 0),
            skip_unchanged: pick(cli.skip_unchanged, unchanged, false),
            skip_zeros: pick(cli.skip_zeros, zeros, false),
        }
    }
}

/// A repeated run with nothing on the command line but the paths runs with the
/// recorded parameters.
pub proof fn law_bare_resume_keeps_the_parameters(
    cli: Cli,
    prior: ParamsView,
    detected_sector: u64,
)
    requires
        cli.source@ == prior.source,
        cli.sector_size is None,
        cli.transfer_size is None,
        cli.skip is None,
        cli.seek is None,
        cli.length is None,
        cli.skip_unchanged is None,
        cli.skip_zeros is None,
    ensures
        resolved(cli, prior.target, Some(prior), detected_sector) == prior,
{
}

/// The suggestion `102400 (up, 100K)`, with the short form only where exact.
pub open spec fn aligned_label_text(value: u64, dir: Seq<char>) -> Seq<char> {
    match human_form(value) {
        Some(h) => text::decimal(value as nat) + " ("@ + dir + ", "@ + h + ")"@,
        None => text::decimal(value as nat) + " ("@ + dir + ")"@,
    }
}

/// What a misaligned offset is answered.
pub open spec fn misaligned_text(label: Seq<char>, value: u64, sector: u64) -> Seq<char> {
    let down = (value as int / sector as int) * sector;
    let up = wrapped(down + sector);
    "--"@ + label + " "@ + text::decimal(value as nat) + " is not a multiple of the "@
        + text::decimal(sector as nat) + "-byte sector size; try "@ + aligned_label_text(
        down as u64,
        "down"@,
    ) + " or "@ + aligned_label_text(up as u64, "up"@)
}

/// A sum of two `u64` numbers, wrapped around at the end of the range.
pub open spec fn wrapped(sum: int) -> int {
    if sum > u64::MAX {
        sum - u64::MAX - 1
    } else {
        sum
    }
}

/// Require that a byte offset `value` (the `--{label}` flag) is a whole number
/// of `sector`-sized blocks. Offsets must sit on the sector grid so the region
/// map stays aligned; `--length` is exempt (its tail simply rounds up). On a
/// violation the error suggests the nearest aligned values as bare integers,
/// with a human form appended only when it is exact.
pub fn require_sector_aligned(label: &str, value: u64, sector: u64) -> (r: Result<()>)
    ensures
        r is Ok <==> sector == 0 || value as int % sector as int == 0,
        r matches Err(e) ==> e@ == ErrorView::Misaligned(misaligned_text(label@, value, sector)),
{
    if sector == 0 || value % sector == 0 {
        return Ok(());
    }
    proof {
        crate::hash::lemma_within_chunk(sector as int, value as int, 0);
    }
    let down = value - value % sector;
    let up = down.wrapping_add(sector);
    let mut out = "--".to_owned();
    out.append(label);
    out.append(" ");
    out.append(text::decimal_text(value).as_str());
    out.append(" is not a multiple of the ");
    out.append(text::decimal_text(sector).as_str());
    out.append("-byte sector size; try ");
    out.append(aligned_label(down, "down").as_str());
    out.append(" or ");
    out.append(aligned_label(up, "up").as_str());
    Err(Error::Misaligned(out))
}

/// Render an aligned suggestion like `102400 (up, 100K)`: the bare byte value,
/// the direction, and a human-readable form only when it divides exactly.
fn aligned_label(value: u64, dir: &str) -> (r: String)
    ensures
        r@ == aligned_label_text(value, dir@),
{
    let mut out = text::decimal_text(value);
    out.append(" (");
    out.append(dir);
    if let Some(human) = human_if_exact(value) {
        out.append(", ");
        out.append(human.as_str());
    }
    out.append(")");
    out
}

/// The largest binary unit that divides `n`, with its suffix.
pub open spec fn largest_unit(n: int) -> Option<(int, Seq<char>)> {
    if n % 1_073_741_824 == 0 {
        Some((1_073_741_824, "G"@))
    } else if n % 1_048_576 == 0 {
        Some((1_048_576, "M"@))
    } else if n % 1_024 == 0 {
        Some((1_024, "K"@))
    } else {
        None
    }
}

/// `n` in its largest exact binary unit, when that is a multiple below 1000.
pub open spec fn human_form(n: u64) -> Option<Seq<char>> {
    if n == 0 {
        None
    } else {
        match largest_unit(n as int) {
            Some((unit, suffix)) => if n as int / unit < 1000 {
                Some(text::decimal((n as int / unit) as nat) + suffix)
            } else {
                None
            },
            None => None,
        }
    }
}

/// A short binary human-readable rendering (`1K`, `4M`, `2G`) of `n`, only when
/// it divides cleanly into a small multiple of a unit. The quotient bound keeps
/// the hint tidy: every sector-aligned value is a multiple of 1024, so without
/// it a value like 12345344 would render as the unhelpful `12056K`.
pub fn human_if_exact(n: u64) -> (r: Option<String>)
    ensures
        r is Some <==> human_form(n) is Some,
        r matches Some(text) ==> human_form(n) == Some(text@),
{
    if n == 0 {
        return None;
    }
    let (unit, suffix) = if n % 1_073_741_824 == 0 {
        (1_073_741_824u64, "G")
    } else if n % 1_048_576 == 0 {
        (1_048_576u64, "M")
    } else if n % 1_024 == 0 {
        (1_024u64, "K")
    } else {
        return None;
    };
    let quotient = n / unit;
    if quotient < 1000 {
        let mut out = text::decimal_text(quotient);
        out.append(suffix);
        Some(out)
    } else {
        None
    }
}

/// A short form says the same: read as a size, it is the number itself.
#[verifier::rlimit(40)]
pub proof fn law_short_forms_read_back(n: u64)
    ensures
        human_form(n) matches Some(h) ==> crate::cli::size_of(h) == Ok::<u64, Seq<char>>(n),
        human_form(n) is Some <==> 0 < n && n as int % 1024 == 0 && (n < 1024000 || (n as int
            % 1048576 == 0 && n < 1048576000) || (n as int % 1073741824 == 0 && n
            < 1073741824000)),
{
    reveal_strlit("k");
    reveal_strlit("m");
    reveal_strlit("g");
    reveal_strlit("K");
    reveal_strlit("M");
    reveal_strlit("G");
    if human_form(n) is Some {
        let (unit, suffix) = largest_unit(n as int)->0;
        let q = (n as int / unit) as nat;
        assert(q * unit == n);
        crate::cli::law_sizes_mean_what_they_say(q, suffix);
        assert(crate::cli::is_spelling("K"@, "k"@));
        assert(crate::cli::is_spelling("M"@, "m"@));
        assert(crate::cli::is_spelling("G"@, "g"@));
    }
}

/// What a misaligned offset is answered helps: the answer names the option, the offset and
/// the sector size, and then the two multiples of the sector size on either side of the
/// offset, the lower one first.
#[verifier::rlimit(40)]
pub proof fn law_misaligned_offers_the_nearest(
    label: Seq<char>,
    value: u64,
    sector: u64,
    down: u64,
    up: u64,
)
    requires
        down < value < up,
        up - down == sector,
        down as int % sector as int == 0,
    ensures
        text::tells(
            misaligned_text(label, value, sector),
            seq![
                label,
                text::decimal(value as nat),
                text::decimal(sector as nat),
                text::decimal(down as nat),
                "down"@,
                text::decimal(up as nat),
                "up"@,
            ],
        ),
{
    let q = down as int / sector as int;
    vstd::arithmetic::div_mod::lemma_fundamental_div_mod(down as int, sector as int);
    assert(sector * q == q * sector) by (nonlinear_arith);
    vstd::arithmetic::div_mod::lemma_fundamental_div_mod_converse(
        value as int,
        sector as int,
        q,
        value - down,
    );
    let none = Seq::<char>::empty();
    let nothing = Seq::<Seq<char>>::empty();
    assert(text::tells(none, nothing));
    let v = text::decimal(value as nat);
    let s = text::decimal(sector as nat);
    let d = text::decimal(down as nat);
    let u = text::decimal(up as nat);
    text::lemma_told(none, nothing, "--"@, label, none);
    assert(none + "--"@ =~= "--"@);
    let p1 = nothing.push(label);
    let t1 = "--"@ + label;
    text::lemma_told(t1, p1, " "@, v, none);
    let p2 = p1.push(v);
    let t2 = t1 + " "@ + v;
    text::lemma_told(t2, p2, " is not a multiple of the "@, s, none);
    let p3 = p2.push(s);
    let t3 = t2 + " is not a multiple of the "@ + s;
    lemma_label_told(t3, p3, "-byte sector size; try "@, down, "down"@);
    let p5 = p3.push(d).push("down"@);
    let t5 = t3 + "-byte sector size; try "@ + aligned_label_text(down, "down"@);
    lemma_label_told(t5, p5, " or "@, up, "up"@);
    assert(p5.push(u).push("up"@) =~= seq![label, v, s, d, "down"@, u, "up"@]);
}

/// A suggestion tells its value and its direction.
proof fn lemma_label_told(
    a: Seq<char>,
    parts: Seq<Seq<char>>,
    words: Seq<char>,
    value: u64,
    dir: Seq<char>,
)
    requires
        text::tells(a, parts),
    ensures
        text::tells(
            a + words + aligned_label_text(value, dir),
            parts.push(text::decimal(value as nat)).push(dir),
        ),
{
    let v = text::decimal(value as nat);
    let more = match human_form(value) {
        Some(h) => ", "@ + h + ")"@,
        None => ")"@,
    };
    text::lemma_told(a, parts, words, v, Seq::empty());
    text::lemma_told(a + words + v, parts.push(v), " ("@, dir, more);
    assert(a + words + aligned_label_text(value, dir) =~= a + words + v + " ("@ + dir + more);
}

} // verus!
