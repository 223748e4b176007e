//! Export the region map as a GNU ddrescue mapfile.
//!
//! exhume is for sunny days and light rain; ddrescue is built for the storm.
//! This module makes the handover real: `--export-map` writes the state's
//! region map in ddrescue's mapfile format, so `ddrescue <source> <target>
//! <mapfile>` picks up exactly where exhume left off: everything already copied
//! is skipped, the bad and untried parts are rescued with the heavy machinery.
//!
//! Status mapping: `untried` is `?` (non-tried), `done` is `+` (finished), `bad`
//! is `-` (bad sector; exhume isolates read errors down to sectors, which is
//! what ddrescue's `-` means). Positions are absolute source offsets, i.e.
//! domain position plus `skip`.

use crate::region;
use crate::region::{Region, RegionMap, RegionStatus};
use crate::state::{PROGRAM, PROGRAM_VERSION};
use crate::text;
use crate::text::Stop;
use vstd::prelude::*;

verus! {

/// The ddrescue status character for a region status.
pub open spec fn status_text(status: RegionStatus) -> Seq<char> {
    match status {
        RegionStatus::Untried => "?"@,
        RegionStatus::Done => "+"@,
        RegionStatus::Bad => "-"@,
    }
}

fn status_char(status: RegionStatus) -> (r: &'static str)
    ensures
        r@ == status_text(status),
{
    match status {
        RegionStatus::Untried => "?",
        RegionStatus::Done => "+",
        RegionStatus::Bad => "-",
    }
}

/// Where a rescuer should continue: the first position that is not done, or the
/// end of the map.
pub open spec fn first_open(rs: Seq<Region>) -> int
    decreases rs.len(),
{
    if rs.len() == 0 {
        0
    } else if rs[0].status != RegionStatus::Done {
        rs[0].start as int
    } else if rs.len() == 1 {
        rs[0].spec_end()
    } else {
        first_open(rs.drop_first())
    }
}

/// One extent line.
pub open spec fn extent_line(r: Region, skip: u64) -> Seq<char> {
    "0x"@ + text::hex8((r.start + skip) as nat) + "  0x"@ + text::hex8(r.length as nat) + "  "@
        + status_text(r.status) + "\n"@
}

/// The extent lines of a list of regions.
pub open spec fn extent_lines(rs: Seq<Region>, skip: u64) -> Seq<char>
    decreases rs.len(),
{
    if rs.len() == 0 {
        Seq::empty()
    } else {
        extent_lines(rs.drop_last(), skip) + extent_line(rs.last(), skip)
    }
}

/// The mapfile text: a provenance comment, the `current_pos` line, and one
/// extent line per region.
pub open spec fn mapfile_text(rs: Seq<Region>, skip: u64) -> Seq<char> {
    let finished = region::bytes_in(rs, RegionStatus::Untried) == 0 && region::bytes_in(
        rs,
        RegionStatus::Bad,
    ) == 0;
    "# Mapfile. Created by "@ + PROGRAM@ + " "@ + PROGRAM_VERSION@
        + "\n# current_pos  current_status  current_pass\n0x"@ + text::hex8(
        (first_open(rs) + skip) as nat,
    ) + "     "@ + (if finished {
        "+"@
    } else {
        "?"@
    }) + "               1\n#      pos        size  status\n"@ + extent_lines(rs, skip)
}

/// The first open position lies in the map.
proof fn lemma_first_open(rs: Seq<Region>)
    requires
        region::ordered(rs),
    ensures
        0 <= first_open(rs) <= region::end_of(rs),
    decreases rs.len(),
{
    if rs.len() > 0 {
        assert(rs[0].valid());
        if rs.len() > 1 {
            assert(rs[0].spec_end() <= rs[rs.len() - 1].start);
            assert(rs[rs.len() - 1].valid());
            let rest = rs.drop_first();
            assert forall|i: int| 0 <= i < rest.len() implies (#[trigger] rest[i]).valid() by {
                assert(rs[i + 1].valid());
            }
            assert forall|i: int, j: int|
                0 <= i < j < rest.len() implies (#[trigger] rest[i]).spec_end() <= (
            #[trigger] rest[j]).start by {
                assert(rs[i + 1].spec_end() <= rs[j + 1].start);
            }
            lemma_first_open(rest);
        }
    }
}

fn find_first_open(map: &RegionMap) -> (r: u64)
    requires
        map.wf(),
    ensures
        r == first_open(map@),
{
    let regions = map.regions();
    let mut i: usize = 0;
    proof {
        assert(map@.skip(0) =~= map@);
    }
    while i < regions.len()
        invariant
            map.wf(),
            regions@ == map@,
            i <= regions@.len(),
            i < regions@.len() || i == 0 ==> first_open(map@) == first_open(map@.skip(i as int)),
            i > 0 && i == regions@.len() ==> first_open(map@) == region::end_of(map@),
        decreases regions@.len() - i,
    {
        let ghost rest = map@.skip(i as int);
        let current = regions[i];
        match current.status {
            RegionStatus::Done => {},
            _ => {
                return current.start;
            },
        }
        proof {
            assert(rest[0] == map@[i as int]);
            assert(rest.drop_first() =~= map@.skip(i + 1));
        }
        i = i + 1;
    }
    map.covered_end()
}

/// Render the mapfile text. `skip` is the domain's offset into the source, added
/// to every position.
pub fn render(map: &RegionMap, skip: u64) -> (r: String)
    requires
        map.wf(),
        region::end_of(map@) + skip <= u64::MAX,
    ensures
        r@ == mapfile_text(map@, skip),
{
    let current = find_first_open(map);
    let finished = map.bytes_with(RegionStatus::Untried) == 0 && map.bytes_with(RegionStatus::Bad)
        == 0;
    proof {
        lemma_first_open(map@);
    }
    let mut out = "# Mapfile. Created by ".to_owned();
    out.append(PROGRAM);
    out.append(" ");
    out.append(PROGRAM_VERSION);
    out.append("\n# current_pos  current_status  current_pass\n0x");
    out.append(text::hex8_text(current + skip).as_str());
    out.append("     ");
    out.append(if finished { "+" } else { "?" });
    out.append("               1\n#      pos        size  status\n");
    let ghost head = out@;
    let regions = map.regions();
    proof {
        assert(head + extent_lines(map@.take(0), skip) =~= head);
    }
    for i in 0..regions.len()
        invariant
            map.wf(),
            regions@ == map@,
            region::end_of(map@) + skip <= u64::MAX,
            out@ == head + extent_lines(map@.take(i as int), skip),
    {
        let current = regions[i];
        proof {
            assert(map@[i as int].valid());
            if i < map@.len() - 1 {
                assert(map@[i as int].spec_end() <= map@[map@.len() - 1].start);
            }
            assert(map@.take(i + 1).drop_last() =~= map@.take(i as int));
        }
        let ghost so_far = out@;
        let mut line = "0x".to_owned();
        line.append(text::hex8_text(current.start + skip).as_str());
        line.append("  0x");
        line.append(text::hex8_text(current.length).as_str());
        line.append("  ");
        line.append(status_char(current.status));
        line.append("\n");
        out.append(line.as_str());
        proof {
            assert(out@ =~= head + extent_lines(map@.take(i + 1), skip));
        }
    }
    proof {
        assert(map@.take(map@.len() as int) =~= map@);
    }
    out
}

/// The position a rescuer continues at is right: everything the map covers below
/// it is done, and if it lies inside the map, it is not.
pub proof fn law_everything_before_is_done(rs: Seq<Region>, p: int)
    requires
        region::ordered(rs),
        p <= first_open(rs),
    ensures
        p < first_open(rs) ==> region::status_in(rs, p) is None || region::status_in(rs, p) == Some(
            RegionStatus::Done,
        ),
        p == first_open(rs) && p < region::end_of(rs) ==> region::status_in(rs, p) is Some
            && region::status_in(rs, p) != Some(RegionStatus::Done),
    decreases rs.len(),
{
    if rs.len() > 0 {
        assert(rs[0].valid());
        let rest = rs.drop_first();
        assert forall|i: int| 0 <= i < rest.len() implies (#[trigger] rest[i]).valid() by {
            assert(rs[i + 1].valid());
        }
        assert forall|i: int, j: int|
            0 <= i < j < rest.len() implies (#[trigger] rest[i]).spec_end() <= (
        #[trigger] rest[j]).start by {
            assert(rs[i + 1].spec_end() <= rs[j + 1].start);
        }
        if rs[0].status != RegionStatus::Done {
            if p == rs[0].start {
                region::lemma_status_of(rs, 0, p);
            } else if region::is_covered(rs, p) {
                let i = region::lemma_region_of(rs, p);
                if i > 0 {
                    assert(rs[0].spec_end() <= rs[i].start);
                }
            }
        } else if rs.len() == 1 {
            if region::is_covered(rs, p) {
                let i = region::lemma_region_of(rs, p);
            }
        } else {
            law_everything_before_is_done(rest, p);
            lemma_first_open(rest);
            assert(rs[0].spec_end() <= rs[1].start);
            if region::is_covered(rs, p) {
                let i = region::lemma_region_of(rs, p);
                region::lemma_status_of(rs, i, p);
                if i > 0 {
                    assert(rest[i - 1].has(p));
                    region::lemma_status_of(rest, i - 1, p);
                }
            } else if region::is_covered(rest, p) {
                let i = region::lemma_region_of(rest, p);
                assert(rs[i + 1].has(p));
            }
        }
    }
}

// ---------------------------------------------------------------------------
// A mapfile, read back.

/// The number that a word like `0x0000AB00` stands for.
pub open spec fn read_address(word: Seq<char>) -> Option<nat> {
    if word.len() > 2 && word[0] == '0' && word[1] == 'x' {
        text::read_hex(word.skip(2))
    } else {
        None
    }
}

proof fn lemma_hex_is_a_word(s: Seq<char>)
    requires
        text::read_hex(s) is Some,
    ensures
        text::lacks(s, Stop::Space),
        text::lacks(s, Stop::At('\n')),
    decreases s.len(),
{
    if s.len() > 0 {
        let front = s.drop_last();
        lemma_hex_is_a_word(front);
        assert(text::hex_value(s.last()) is Some);
        assert forall|i: int| 0 <= i < s.len() implies !text::is_space(#[trigger] s[i]) && s[i]
            != '\n' by {
            if i < front.len() {
                assert(s[i] == front[i]);
                assert(!Stop::Space.stops(front[i]) && !Stop::At('\n').stops(front[i]));
            }
        }
    }
}

/// An address reads back, and is a word.
proof fn lemma_address(n: nat)
    ensures
        ({
            let word = "0x"@ + text::hex8(n);
            &&& read_address(word) == Some(n)
            &&& text::lacks(word, Stop::Space)
            &&& text::lacks(word, Stop::At('\n'))
            &&& word.len() > 0
        }),
{
    reveal_strlit("0x");
    text::law_hex_reads_back(n);
    let h = text::hex8(n);
    lemma_hex_is_a_word(h);
    let word = "0x"@ + h;
    assert(word.skip(2) =~= h);
    assert forall|i: int| 0 <= i < word.len() implies !text::is_space(#[trigger] word[i]) && word[i]
        != '\n' by {
        if i >= 2 {
            assert(word[i] == h[i - 2]);
            assert(!Stop::Space.stops(h[i - 2]) && !Stop::At('\n').stops(h[i - 2]));
        }
    }
}

/// Three words with white space between them.
proof fn lemma_three_words(
    a: Seq<char>,
    gap: Seq<char>,
    b: Seq<char>,
    space: Seq<char>,
    c: Seq<char>,
)
    requires
        a.len() > 0,
        b.len() > 0,
        c.len() > 0,
        text::lacks(a, Stop::Space),
        text::lacks(b, Stop::Space),
        text::lacks(c, Stop::Space),
        gap.len() > 0,
        space.len() > 0,
        text::lacks(gap, Stop::Word),
        text::lacks(space, Stop::Word),
    ensures
        text::words(a + gap + b + space + c) == seq![a, b, c],
{
    let none = Seq::<char>::empty();
    text::law_words(a, gap, b + space + c);
    text::law_words(b, space, c);
    text::law_words(c, none, none);
    assert(c + none + none =~= c);
    assert(a + gap + b + space + c =~= a + gap + (b + space + c));
    assert(seq![a] + (seq![b] + (seq![c] + Seq::<Seq<char>>::empty())) =~= seq![a, b, c]);
}

/// An extent line without its line feed.
spec fn extent(r: Region, skip: u64) -> Seq<char> {
    ("0x"@ + text::hex8((r.start + skip) as nat)) + "  "@ + ("0x"@ + text::hex8(r.length as nat))
        + "  "@ + status_text(r.status)
}

proof fn lemma_lacks_sum(a: Seq<char>, b: Seq<char>, stop: Stop)
    requires
        text::lacks(a, stop),
        text::lacks(b, stop),
    ensures
        text::lacks(a + b, stop),
{
    let s = a + b;
    assert forall|i: int| 0 <= i < s.len() implies !stop.stops(#[trigger] s[i]) by {
        if i < a.len() {
            assert(s[i] == a[i]);
        } else {
            assert(s[i] == b[i - a.len()]);
        }
    }
}

proof fn lemma_extent(r: Region, skip: u64)
    ensures
        extent_line(r, skip) == extent(r, skip) + seq!['\n'],
        text::lacks(extent(r, skip), Stop::At('\n')),
        text::words(extent(r, skip)) == seq![
            "0x"@ + text::hex8((r.start + skip) as nat),
            "0x"@ + text::hex8(r.length as nat),
            status_text(r.status),
        ],
        status_text(r.status).len() == 1,
        r.status == RegionStatus::Untried ==> status_text(r.status)[0] == '?',
        r.status == RegionStatus::Done ==> status_text(r.status)[0] == '+',
        r.status == RegionStatus::Bad ==> status_text(r.status)[0] == '-',
{
    reveal_strlit("0x");
    reveal_strlit("  0x");
    reveal_strlit("  ");
    reveal_strlit("\n");
    reveal_strlit("?");
    reveal_strlit("+");
    reveal_strlit("-");
    let a = "0x"@ + text::hex8((r.start + skip) as nat);
    let b = "0x"@ + text::hex8(r.length as nat);
    let c = status_text(r.status);
    let gap = "  "@;
    lemma_address((r.start + skip) as nat);
    lemma_address(r.length as nat);
    lemma_three_words(a, gap, b, gap, c);
    lemma_lacks_sum(a, gap, Stop::At('\n'));
    lemma_lacks_sum(a + gap, b, Stop::At('\n'));
    lemma_lacks_sum(a + gap + b, gap, Stop::At('\n'));
    lemma_lacks_sum(a + gap + b + gap, c, Stop::At('\n'));
    assert("  0x"@ =~= "  "@ + "0x"@);
    assert("\n"@ =~= seq!['\n']);
    assert(extent_line(r, skip) =~= extent(r, skip) + seq!['\n']);
}

proof fn lemma_extent_lines_from_the_front(rs: Seq<Region>, skip: u64)
    requires
        rs.len() > 0,
    ensures
        extent_lines(rs, skip) == extent_line(rs[0], skip) + extent_lines(rs.skip(1), skip),
    decreases rs.len(),
{
    let front = rs.drop_last();
    if rs.len() > 1 {
        lemma_extent_lines_from_the_front(front, skip);
        assert(front.skip(1) =~= rs.skip(1).drop_last());
        assert(front[0] == rs[0]);
        assert(rs.skip(1).last() == rs.last());
        assert(extent_lines(rs, skip) =~= extent_line(rs[0], skip) + extent_lines(
            rs.skip(1),
            skip,
        ));
    } else {
        assert(rs.skip(1) =~= Seq::<Region>::empty());
        assert(front =~= Seq::<Region>::empty());
        assert(extent_lines(front, skip) =~= Seq::<char>::empty());
        assert(extent_lines(rs.skip(1), skip) =~= Seq::<char>::empty());
        assert(extent_lines(rs, skip) =~= extent_line(rs[0], skip) + extent_lines(
            rs.skip(1),
            skip,
        ));
    }
}

#[verifier::rlimit(40)]
proof fn lemma_extents_read_back(rs: Seq<Region>, skip: u64)
    ensures
        ({
            let ls = text::lines(extent_lines(rs, skip));
            &&& ls.len() == rs.len()
            &&& forall|i: int| 0 <= i < rs.len() ==> #[trigger] ls[i] == extent(rs[i], skip)
        }),
    decreases rs.len(),
{
    if rs.len() > 0 {
        let rest = rs.skip(1);
        lemma_extents_read_back(rest, skip);
        lemma_extent_lines_from_the_front(rs, skip);
        lemma_extent(rs[0], skip);
        let line = extent(rs[0], skip);
        let more = extent_lines(rest, skip);
        text::law_lines(line, more);
        reveal_strlit("-");
        reveal_strlit("+");
        reveal_strlit("?");
        assert(line[line.len() - 1] == status_text(rs[0].status)[0]);
        assert(line + seq!['\n'] + more =~= extent_line(rs[0], skip) + more);
        let ls = text::lines(extent_lines(rs, skip));
        assert(ls == seq![line] + text::lines(more));
        assert forall|i: int| 0 <= i < rs.len() implies #[trigger] ls[i] == extent(rs[i], skip) by {
            if i > 0 {
                assert(rest[i - 1] == rs[i]);
                assert(ls[i] == text::lines(more)[i - 1]);
            }
        }
    } else {
        text::law_lines(Seq::empty(), Seq::empty());
    }
}

proof fn lemma_finished(rs: Seq<Region>, status: RegionStatus)
    requires
        forall|i: int| 0 <= i < rs.len() ==> (#[trigger] rs[i]).valid(),
    ensures
        region::bytes_in(rs, status) == 0 <==> forall|i: int|
            0 <= i < rs.len() ==> (#[trigger] rs[i]).status != status,
    decreases rs.len(),
{
    if rs.len() > 0 {
        let front = rs.drop_last();
        assert forall|i: int| 0 <= i < front.len() implies (#[trigger] front[i]).valid() by {
            assert(rs[i].valid());
        }
        lemma_finished(front, status);
        assert(rs[rs.len() - 1].valid());
        if forall|i: int| 0 <= i < front.len() ==> (#[trigger] front[i]).status != status {
            assert forall|i: int|
                0 <= i < rs.len() && rs.last().status != status implies (#[trigger] rs[i]).status
                != status by {
                if i < front.len() {
                    assert(front[i].status != status);
                }
            }
        } else {
            let i = choose|i: int|
                0 <= i < front.len() && (#[trigger] front[i]).status == status;
            assert(rs[i].status == status);
        }
    }
}

/// A mapfile reads back: four lines of heading and one line for each region, in order, of
/// three words: where in the source the region begins, how many bytes it is of, and `?`, `+`
/// or `-`. The heading gives the position to continue at, and `+` if every region is done.
#[verifier::rlimit(40)]
pub proof fn law_mapfile_reads_back(rs: Seq<Region>, skip: u64)
    requires
        region::ordered(rs),
        region::end_of(rs) + skip <= u64::MAX,
    ensures
        ({
            let ls = text::lines(mapfile_text(rs, skip));
            let current = text::words(ls[2]);
            &&& ls.len() == 4 + rs.len()
            &&& ls[0].len() > 0 && ls[0][0] == '#'
            &&& ls[1].len() > 0 && ls[1][0] == '#'
            &&& ls[3].len() > 0 && ls[3][0] == '#'
            &&& current.len() == 3
            &&& read_address(current[0]) == Some((first_open(rs) + skip) as nat)
            &&& current[1] == if forall|i: int|
                0 <= i < rs.len() ==> (#[trigger] rs[i]).status == RegionStatus::Done {
                "+"@
            } else {
                "?"@
            }
            &&& current[2] == "1"@
            &&& forall|i: int|
                0 <= i < rs.len() ==> {
                    let extent = text::words(#[trigger] ls[4 + i]);
                    &&& extent.len() == 3
                    &&& read_address(extent[0]) == Some((rs[i].start + skip) as nat)
                    &&& read_address(extent[1]) == Some(rs[i].length as nat)
                    &&& extent[2] == match rs[i].status {
                        RegionStatus::Untried => seq!['?'],
                        RegionStatus::Done => seq!['+'],
                        RegionStatus::Bad => seq!['-'],
                    }
                }
        }),
{
    lemma_first_open(rs);
    lemma_done(rs);
    lemma_first_line();
    lemma_titles();
    lemma_columns();
    let at = (first_open(rs) + skip) as nat;
    let finished = region::bytes_in(rs, RegionStatus::Untried) == 0 && region::bytes_in(
        rs,
        RegionStatus::Bad,
    ) == 0;
    let mark = if finished {
        "+"@
    } else {
        "?"@
    };
    lemma_current_line(at, mark);
    let line = current_line(at, mark);
    let more = extent_lines(rs, skip);
    let whole = mapfile_text(rs, skip);
    lemma_regrouped(
        first_line(),
        titles(),
        "0x"@,
        text::hex8(at),
        "     "@,
        mark,
        wide(),
        "1"@,
        columns(),
        more,
    );
    lemma_four_lines(first_line(), titles(), line, columns(), more);
    lemma_extents_read_back(rs, skip);
    let extents = text::lines(more);
    let ls = text::lines(whole);
    let heading = seq![first_line(), titles(), line, columns()];
    assert(ls == heading + extents);
    assert(ls[0] == first_line() && ls[1] == titles() && ls[2] == line && ls[3] == columns());
    assert forall|i: int| 0 <= i < rs.len() implies ({
        let extent = text::words(#[trigger] ls[4 + i]);
        &&& extent.len() == 3
        &&& read_address(extent[0]) == Some((rs[i].start + skip) as nat)
        &&& read_address(extent[1]) == Some(rs[i].length as nat)
        &&& extent[2] == match rs[i].status {
            RegionStatus::Untried => seq!['?'],
            RegionStatus::Done => seq!['+'],
            RegionStatus::Bad => seq!['-'],
        }
    }) by {
        assert(ls[4 + i] == extents[i]);
        lemma_extent(rs[i], skip);
        lemma_address((rs[i].start + skip) as nat);
        lemma_address(rs[i].length as nat);
        let c = status_text(rs[i].status);
        assert(c =~= seq![c[0]]);
    }
}

/// The lines of a text of four lines and more.
proof fn lemma_four_lines(
    a: Seq<char>,
    b: Seq<char>,
    c: Seq<char>,
    d: Seq<char>,
    more: Seq<char>,
)
    requires
        is_line(a),
        is_line(b),
        is_line(c),
        is_line(d),
    ensures
        ({
            let nl = seq!['\n'];
            text::lines(a + nl + (b + nl + (c + nl + (d + nl + more)))) == seq![a, b, c, d]
                + text::lines(more)
        }),
{
    let nl = seq!['\n'];
    let t3 = d + nl + more;
    let t2 = c + nl + t3;
    let t1 = b + nl + t2;
    text::law_lines(a, t1);
    text::law_lines(b, t2);
    text::law_lines(c, t3);
    text::law_lines(d, more);
    assert(seq![a] + (seq![b] + (seq![c] + (seq![d] + text::lines(more)))) =~= seq![a, b, c, d]
        + text::lines(more));
}

/// The pieces of a mapfile, put together by lines.
#[verifier::spinoff_prover]
#[verifier::rlimit(40)]
proof fn lemma_regrouped(
    a: Seq<char>,
    b: Seq<char>,
    x: Seq<char>,
    hex: Seq<char>,
    gap: Seq<char>,
    mark: Seq<char>,
    space: Seq<char>,
    one: Seq<char>,
    c: Seq<char>,
    more: Seq<char>,
)
    ensures
        ({
            let nl = seq!['\n'];
            a + (nl + b + nl + x) + hex + gap + mark + (space + one + nl + c + nl) + more == a + nl
                + (b + nl + ((x + hex) + gap + mark + space + one + nl + (c + nl + more)))
        }),
{
    let nl = seq!['\n'];
    let line = (x + hex) + gap + mark + space + one;
    let end = nl + c + nl;
    assert((space + one + nl + c + nl) =~= (space + one) + end);
    assert(a + (nl + b + nl + x) + hex + gap + mark =~= (a + nl + b + nl) + ((x + hex) + gap
        + mark));
    let head = a + nl + b + nl;
    let front = (x + hex) + gap + mark;
    assert(head + front + ((space + one) + end) =~= head + (front + space + one) + end);
    assert(head + line + end + more =~= a + nl + (b + nl + (line + nl + (c + nl + more))));
}

/// A text that is one line.
spec fn is_line(line: Seq<char>) -> bool {
    &&& line.len() > 0
    &&& line[line.len() - 1] != '\r'
    &&& text::lacks(line, Stop::At('\n'))
}

/// The lines of the heading.
spec fn first_line() -> Seq<char> {
    "# Mapfile. Created by "@ + PROGRAM@ + " "@ + PROGRAM_VERSION@
}

spec fn titles() -> Seq<char> {
    let second = "\n# current_pos  current_status  current_pass\n0x"@;
    second.subrange(1, second.len() - 3)
}

spec fn current_line(at: nat, mark: Seq<char>) -> Seq<char> {
    ("0x"@ + text::hex8(at)) + "     "@ + mark + wide() + "1"@
}

spec fn wide() -> Seq<char> {
    "               1\n#      pos        size  status\n"@.take(15)
}

spec fn columns() -> Seq<char> {
    let tail = "               1\n#      pos        size  status\n"@;
    tail.subrange(17, tail.len() - 1)
}

/// A line that is a comment.
spec fn is_comment(line: Seq<char>) -> bool {
    is_line(line) && line[0] == '#'
}

proof fn lemma_first_line()
    ensures
        is_comment(first_line()),
{
    reveal_strlit("# Mapfile. Created by ");
    reveal_strlit(" ");
    reveal_strlit("exhume");
    reveal_strlit("0.1.0");
    lemma_lacks_sum("# Mapfile. Created by "@, PROGRAM@, Stop::At('\n'));
    lemma_lacks_sum("# Mapfile. Created by "@ + PROGRAM@, " "@, Stop::At('\n'));
    lemma_lacks_sum(
        "# Mapfile. Created by "@ + PROGRAM@ + " "@,
        PROGRAM_VERSION@,
        Stop::At('\n'),
    );
}

proof fn lemma_titles()
    ensures
        is_comment(titles()),
        "\n# current_pos  current_status  current_pass\n0x"@ == seq!['\n'] + titles() + seq!['\n']
            + "0x"@,
{
    reveal_strlit("\n# current_pos  current_status  current_pass\n0x");
    reveal_strlit("0x");
    let second = "\n# current_pos  current_status  current_pass\n0x"@;
    assert(second =~= seq!['\n'] + titles() + seq!['\n'] + "0x"@);
}

proof fn lemma_columns()
    ensures
        is_comment(columns()),
        wide().len() > 0,
        text::lacks(wide(), Stop::Word),
        text::lacks(wide(), Stop::At('\n')),
        "               1\n#      pos        size  status\n"@ == wide() + "1"@ + seq!['\n']
            + columns() + seq!['\n'],
{
    reveal_strlit("               1\n#      pos        size  status\n");
    reveal_strlit("1");
    let tail = "               1\n#      pos        size  status\n"@;
    assert(tail =~= wide() + "1"@ + seq!['\n'] + columns() + seq!['\n']);
}

proof fn lemma_current_line(at: nat, mark: Seq<char>)
    requires
        mark == "+"@ || mark == "?"@,
    ensures
        ({
            let line = current_line(at, mark);
            let ws = text::words(line);
            &&& is_line(line)
            &&& ws.len() == 3
            &&& read_address(ws[0]) == Some(at)
            &&& ws[1] == mark
            &&& ws[2] == "1"@
        }),
{
    reveal_strlit("     ");
    reveal_strlit("+");
    reveal_strlit("?");
    reveal_strlit("1");
    let word = "0x"@ + text::hex8(at);
    lemma_columns();
    lemma_address(at);
    lemma_three_words(word, "     "@, mark, wide(), "1"@);
    lemma_lacks_sum(word, "     "@, Stop::At('\n'));
    lemma_lacks_sum(word + "     "@, mark, Stop::At('\n'));
    lemma_lacks_sum(word + "     "@ + mark, wide(), Stop::At('\n'));
    lemma_lacks_sum(word + "     "@ + mark + wide(), "1"@, Stop::At('\n'));
    let line = current_line(at, mark);
    assert(line[line.len() - 1] == '1');
}

proof fn lemma_done(rs: Seq<Region>)
    requires
        region::ordered(rs),
    ensures
        (region::bytes_in(rs, RegionStatus::Untried) == 0 && region::bytes_in(
            rs,
            RegionStatus::Bad,
        ) == 0) == (forall|i: int|
            0 <= i < rs.len() ==> (#[trigger] rs[i]).status == RegionStatus::Done),
{
    lemma_finished(rs, RegionStatus::Untried);
    lemma_finished(rs, RegionStatus::Bad);
    if region::bytes_in(rs, RegionStatus::Untried) == 0 && region::bytes_in(rs, RegionStatus::Bad)
        == 0 {
        assert forall|i: int| 0 <= i < rs.len() implies (#[trigger] rs[i]).status
            == RegionStatus::Done by {
            assert(rs[i].status != RegionStatus::Untried && rs[i].status != RegionStatus::Bad);
        }
    }
}

} // verus!
