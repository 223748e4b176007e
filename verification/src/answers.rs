//! What the user is answered: a refusal names what it is about, in an order that tells which
//! is which.

use crate::cli;
use crate::cli::Cli;
use crate::engine;
use crate::error::ErrorView;
use crate::params::ParamsView;
use crate::path;
use crate::safety;
use crate::state::Hashes;
use crate::text;
use vstd::prelude::*;

verus! {

proof fn lemma_tells_one(a: Seq<char>, x: Seq<char>, b: Seq<char>)
    ensures
        text::tells(a + x + b, seq![x]),
        text::tells(a + x, seq![x]),
{
    let none = Seq::<char>::empty();
    let nothing = Seq::<Seq<char>>::empty();
    text::lemma_told(none, nothing, a, x, b);
    assert(none + a =~= a);
    assert(nothing.push(x) =~= seq![x]);
}

proof fn lemma_tells_two(a: Seq<char>, x: Seq<char>, b: Seq<char>, y: Seq<char>, c: Seq<char>)
    ensures
        text::tells(a + x + b + y + c, seq![x, y]),
        text::tells(a + x + b + y, seq![x, y]),
{
    lemma_tells_one(a, x, b);
    text::lemma_told(a + x, seq![x], b, y, c);
    assert(seq![x].push(y) =~= seq![x, y]);
}

proof fn lemma_tells_four(
    a: Seq<char>,
    x: Seq<char>,
    b: Seq<char>,
    y: Seq<char>,
    c: Seq<char>,
    z: Seq<char>,
    d: Seq<char>,
    w: Seq<char>,
    e: Seq<char>,
)
    ensures
        text::tells(a + x + b + y + c + z + d + w + e, seq![x, y, z, w]),
{
    lemma_tells_two(a, x, b, y, c);
    let t = a + x + b + y;
    text::lemma_told(t, seq![x, y], c, z, d);
    assert(seq![x, y].push(z) =~= seq![x, y, z]);
    text::lemma_told(t + c + z, seq![x, y, z], d, w, e);
    assert(seq![x, y, z].push(w) =~= seq![x, y, z, w]);
}

/// An offset that conflicts with the record is answered with the option, what it was given,
/// and what is recorded of it.
pub proof fn law_offset_conflicts_are_named(label: Seq<char>, value: u64, recorded: u64)
    requires
        value != recorded,
    ensures
        engine::offset_conflict(label, Some(value), recorded) matches Some(
            ErrorView::StateConflict(t),
        ) && text::begins(t, "--"@) && text::tells(
            t,
            seq![label, text::decimal(value as nat), label, text::decimal(recorded as nat)],
        ),
{
    let v = text::decimal(value as nat);
    let n = text::decimal(recorded as nat);
    let end = " (the region map is relative to it; remove the state file to start over)"@;
    lemma_tells_four(
        "--"@,
        label,
        " "@,
        v,
        " conflicts with the resumed state's "@,
        label,
        " "@,
        n,
        end,
    );
    let t = "--"@ + label + " "@ + v + " conflicts with the resumed state's "@ + label + " "@ + n
        + end;
    assert(t.take("--"@.len() as int) =~= "--"@);
}

/// Another target is answered with the recorded one and the present one; another sector size
/// with the one asked for and the recorded one.
#[verifier::rlimit(40)]
pub proof fn law_state_conflicts_are_named(cli: Cli, target: Seq<char>, prev: ParamsView)
    ensures
        !path::paths_equal(prev.target, target) ==> (engine::resume_conflict(cli, target, prev)
            matches Some(ErrorView::StateConflict(t)) && text::tells(
            t,
            seq![prev.target, target],
        )),
        path::paths_equal(prev.target, target) && cli.sector_size is Some && cli.sector_size->0
            != prev.sector_size ==> (engine::resume_conflict(cli, target, prev) matches Some(
            ErrorView::StateConflict(t),
        ) && text::begins(t, "--sector-size "@) && text::tells(
            t,
            seq![
                text::decimal(cli.sector_size->0 as nat),
                text::decimal(prev.sector_size as nat),
            ],
        )),
{
    if !path::paths_equal(prev.target, target) {
        lemma_tells_two(
            "the state file records target '"@,
            prev.target,
            "' but the current target is '"@,
            target,
            "'; use the recorded target or a different (or no) state file"@,
        );
    } else if cli.sector_size is Some && cli.sector_size->0 != prev.sector_size {
        let a = "--sector-size "@;
        let x = text::decimal(cli.sector_size->0 as nat);
        let b = " conflicts with the resumed state's sector size "@;
        let y = text::decimal(prev.sector_size as nat);
        let c =
            " (the region map is aligned to the latter; edit or remove the state file to change it)"@;
        lemma_tells_two(a, x, b, y, c);
        assert((a + x + b + y + c).take(a.len() as int) =~= a);
    }
}

/// A manifest that does not suit is answered with what it was asked for and what it is: the
/// algorithm, the two chunk sizes, or the chunk size and the sector size.
#[verifier::rlimit(40)]
pub proof fn law_manifest_conflicts_are_named(
    cli_chunk: Option<u64>,
    prior: Option<&Hashes>,
    sector: u64,
)
    ensures
        engine::hashing_conflict(cli_chunk, prior, sector) matches Some(
            ErrorView::StateConflict(t),
        ) ==> prior is Some && if prior->0.algorithm@ != "blake3"@ {
            text::tells(t, seq![prior->0.algorithm@, "blake3"@])
        } else {
            cli_chunk is Some && text::begins(t, "--hash-chunk "@) && text::tells(
                t,
                seq![
                    text::decimal(cli_chunk->0 as nat),
                    text::decimal(prior->0.chunk_size as nat),
                ],
            )
        },
        engine::hashing_conflict(cli_chunk, prior, sector) matches Some(ErrorView::InvalidSize(t))
            ==> text::begins(t, "--hash-chunk "@) && text::tells(
            t,
            seq![
                text::decimal(
                    (if prior is Some {
                        prior->0.chunk_size
                    } else if cli_chunk is Some {
                        cli_chunk->0
                    } else {
                        67108864
                    }) as nat,
                ),
                text::decimal(sector as nat),
            ],
        ),
{
    let a = "--hash-chunk "@;
    if prior is Some {
        lemma_tells_two(
            "the state file's hash manifest uses '"@,
            prior->0.algorithm@,
            "'; this exhume only supports '"@,
            "blake3"@,
            "' (remove the [hashes] section to re-create the manifest)"@,
        );
        if cli_chunk is Some {
            let x = text::decimal(cli_chunk->0 as nat);
            let b = " conflicts with the manifest's chunk size "@;
            let y = text::decimal(prior->0.chunk_size as nat);
            let c = " (the grid is fixed once recorded; remove the [hashes] section to re-grid)"@;
            lemma_tells_two(a, x, b, y, c);
            assert((a + x + b + y + c).take(a.len() as int) =~= a);
        }
    }
    let size = engine::chunk_size_for(cli_chunk, prior);
    let x = text::decimal(size as nat);
    let b = " must be a positive multiple of the "@;
    let y = text::decimal(sector as nat);
    let c = "-byte sector size"@;
    lemma_tells_two(a, x, b, y, c);
    assert((a + x + b + y + c).take(a.len() as int) =~= a);
}

/// A sector size that does not suit direct reads is named.
pub proof fn law_direct_conflicts_are_named(
    wanted: bool,
    domain: u64,
    supported: bool,
    sector: u64,
)
    ensures
        engine::direct_conflict(wanted, domain, supported, sector) matches Some(e) ==> (
        e matches ErrorView::InvalidSize(t) && text::begins(t, "--direct "@) && text::tells(
            t,
            seq![text::decimal(sector as nat)],
        )),
{
    let long =
        "--direct requires a power-of-two sector size (O_DIRECT alignment), but the effective sector size is "@;
    reveal_strlit("--direct ");
    reveal_strlit(
        "--direct requires a power-of-two sector size (O_DIRECT alignment), but the effective sector size is ",
    );
    let x = text::decimal(sector as nat);
    lemma_tells_one(long, x, Seq::empty());
    assert((long + x).take("--direct "@.len() as int) =~= "--direct "@);
}

/// What is refused for safety is named: the source, the target, and how large it is and would
/// have to be.
#[verifier::rlimit(40)]
pub proof fn law_safety_answers_name_their_subject(
    source: Seq<char>,
    target: Seq<char>,
    kind: Seq<char>,
    capacity: u64,
    needed: u64,
)
    ensures
        text::tells(safety::stream_text(source, kind), seq![source, kind]),
        text::tells(safety::same_file_text(source, target), seq![source, target]),
        text::tells(safety::mounted_text(target), seq![target]),
        text::tells(
            safety::too_small_text(target, capacity, needed),
            seq![
                target,
                text::human_bytes(capacity),
                text::decimal(capacity as nat),
                text::human_bytes(needed),
                text::decimal(needed as nat),
            ],
        ),
{
    lemma_tells_two(
        "source '"@,
        source,
        "' is a "@,
        kind,
        " — exhume copies block devices and regular files, not streams (use cat or dd for those)"@,
    );
    lemma_tells_two(
        "source '"@,
        source,
        "' and target '"@,
        target,
        "' are the same file; refusing to copy it onto itself"@,
    );
    lemma_tells_one(
        "target '"@,
        target,
        "' (or a partition / stacked device on it) is mounted; writing to it would corrupt the live filesystem — unmount it first, or pass --allow-mounted at your own risk"@,
    );
    let has = text::human_bytes(capacity);
    let exactly = text::decimal(capacity as nat);
    let wants = text::human_bytes(needed);
    let all = text::decimal(needed as nat);
    let end = " bytes); refusing before writing anything"@;
    lemma_tells_four(
        "target '"@,
        target,
        "' holds "@,
        has,
        " ("@,
        exactly,
        " bytes) but the copy needs "@,
        wants,
        Seq::empty(),
    );
    let t = "target '"@ + target + "' holds "@ + has + " ("@ + exactly
        + " bytes) but the copy needs "@ + wants;
    assert(t + Seq::<char>::empty() =~= t);
    text::lemma_told(t, seq![target, has, exactly, wants], " ("@, all, end);
    assert(seq![target, has, exactly, wants].push(all) =~= seq![
        target,
        has,
        exactly,
        wants,
        all,
    ]);
}

/// What is shown of an error holds all that it carries; where it carries a message, it is
/// that message, or ends with it.
#[verifier::rlimit(40)]
pub proof fn law_errors_show_what_they_carry(e: ErrorView)
    ensures
        e matches ErrorView::Io { context, source } ==> text::begins(e.message(), context)
            && text::tells(e.message(), seq![context, source]),
        e matches ErrorView::InvalidSize(t) ==> text::tells(e.message(), seq!["size"@, t]),
        e matches ErrorView::Misaligned(t) ==> e.message() == t,
        e matches ErrorView::TargetExists(p) ==> text::tells(e.message(), seq![p, "--force"@]),
        e matches ErrorView::Refused(t) ==> e.message() == t,
        e matches ErrorView::StateConflict(t) ==> e.message() == t,
        e matches ErrorView::StateParse { path, source } ==> text::tells(
            e.message(),
            seq!["parse"@, path, source],
        ),
        e matches ErrorView::StateSerialise(t) ==> text::tells(
            e.message(),
            seq!["serialise"@, t],
        ),
        e matches ErrorView::Signal(t) ==> text::tells(e.message(), seq!["signal handler"@, t]),
{
    let none = Seq::<char>::empty();
    match e {
        ErrorView::Io { context, source } => {
            lemma_tells_two(none, context, ": "@, source, none);
            assert(none + context =~= context);
            assert(e.message().take(context.len() as int) =~= context);
        },
        ErrorView::InvalidSize(t) => {
            reveal_strlit("invalid size: ");
            reveal_strlit("size");
            let a = "invalid size: "@;
            lemma_tells_two(a.take(8), "size"@, a.skip(12), t, none);
            assert(a =~= a.take(8) + "size"@ + a.skip(12));
        },
        ErrorView::TargetExists(p) => {
            reveal_strlit(
                "' already exists; pass --force to overwrite (a matching state file enables resume instead)",
            );
            reveal_strlit("--force");
            let b =
                "' already exists; pass --force to overwrite (a matching state file enables resume instead)"@;
            let before = b.take(23);
            let after = b.skip(30);
            assert(b =~= before + "--force"@ + after);
            lemma_tells_two("target '"@, p, before, "--force"@, after);
            assert(e.message() =~= "target '"@ + p + before + "--force"@ + after);
        },
        ErrorView::StateParse { path, source } => {
            reveal_strlit("failed to parse state file '");
            reveal_strlit("parse");
            let a = "failed to parse state file '"@;
            lemma_tells_two(a.take(10), "parse"@, a.skip(15), path, none);
            assert(a =~= a.take(10) + "parse"@ + a.skip(15));
            text::lemma_told(a + path, seq!["parse"@, path], "': "@, source, none);
            assert(seq!["parse"@, path].push(source) =~= seq!["parse"@, path, source]);
        },
        ErrorView::StateSerialise(t) => {
            reveal_strlit("failed to serialise state: ");
            reveal_strlit("serialise");
            let a = "failed to serialise state: "@;
            lemma_tells_two(a.take(10), "serialise"@, a.skip(19), t, none);
            assert(a =~= a.take(10) + "serialise"@ + a.skip(19));
        },
        ErrorView::Signal(t) => {
            reveal_strlit("failed to install signal handler: ");
            reveal_strlit("signal handler");
            let a = "failed to install signal handler: "@;
            lemma_tells_two(a.take(18), "signal handler"@, a.skip(32), t, none);
            assert(a =~= a.take(18) + "signal handler"@ + a.skip(32));
        },
        _ => {},
    }
}

/// A size that is refused is quoted as it was given, whatever is wrong with it.
pub proof fn law_refused_sizes_are_quoted(input: Seq<char>)
    ensures
        cli::size_of(input) matches Err(t) ==> t == "empty size"@ || text::tells(t, seq![input]),
        cli::size_of(input) == Err::<u64, Seq<char>>("empty size"@) || cli::size_of(input) is Ok
            || text::trimmed(input).len() > 0,
        text::trimmed(input).len() == 0 ==> cli::size_of(input) == Err::<u64, Seq<char>>(
            "empty size"@,
        ),
{
    let s = text::trimmed(input);
    let unit = cli::lowered(text::trimmed(s.skip(cli::number_length(s))));
    lemma_tells_one("invalid number in size '"@, input, "'"@);
    lemma_tells_one("unknown size unit '"@ + unit + "' in '"@, input, "'"@);
}

} // verus!
