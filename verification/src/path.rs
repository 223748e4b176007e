//! Paths as Unix reads them: components between slashes. Repeated and trailing
//! slashes do not matter, nor does a `.` that is not at the beginning; `..` is a
//! component like any other.

use crate::text;
use crate::text::Stop;
use vstd::prelude::*;

verus! {

/// Whether a path starts at the root.
pub open spec fn is_absolute(s: Seq<char>) -> bool {
    s.len() > 0 && s[0] == '/'
}

/// The components of the rest `s` of a path; `first` says whether it is all of
/// it.
pub open spec fn components_from(s: Seq<char>, first: bool) -> Seq<Seq<char>>
    decreases s.len(),
{
    if s.len() == 0 {
        Seq::empty()
    } else {
        let n = text::run_to(s, Stop::At('/'));
        proof {
            text::lemma_run_to(s, Stop::At('/'));
        }
        let piece = s.take(n);
        let rest = if n < s.len() {
            components_from(s.skip(n + 1), false)
        } else {
            Seq::empty()
        };
        if piece.len() == 0 || (piece == "."@ && !first) {
            rest
        } else {
            seq![piece] + rest
        }
    }
}

/// The components of a path, the root aside.
pub open spec fn components(s: Seq<char>) -> Seq<Seq<char>> {
    components_from(s, true)
}

/// Two paths are equal if they agree in the root and in every component.
pub open spec fn paths_equal(a: Seq<char>, b: Seq<char>) -> bool {
    is_absolute(a) == is_absolute(b) && components(a) == components(b)
}

/// The final component of a path, if it has one that is a name.
pub open spec fn path_file_name(s: Seq<char>) -> Option<Seq<char>> {
    let all = components(s);
    if all.len() == 0 || all.last() == "."@ || all.last() == ".."@ {
        None
    } else {
        Some(all.last())
    }
}

fn is_dot(chars: &[char]) -> (r: bool)
    ensures
        r == (chars@ == "."@),
{
    proof {
        reveal_strlit(".");
        if chars@.len() == 1 && chars@[0] == '.' {
            assert(chars@ =~= "."@);
        }
    }
    chars.len() == 1 && chars[0] == '.'
}

fn is_dot_dot(chars: &[char]) -> (r: bool)
    ensures
        r == (chars@ == ".."@),
{
    proof {
        reveal_strlit("..");
        if chars@.len() == 2 && chars@[0] == '.' && chars@[1] == '.' {
            assert(chars@ =~= ".."@);
        }
    }
    chars.len() == 2 && chars[0] == '.' && chars[1] == '.'
}

/// The components of a path, the root aside.
fn split_path(chars: &[char]) -> (r: Vec<Vec<char>>)
    ensures
        r@.len() == components(chars@).len(),
        forall|i: int| 0 <= i < r@.len() ==> (#[trigger] r@[i])@ == components(chars@)[i],
{
    let mut out: Vec<Vec<char>> = Vec::new();
    let mut i: usize = 0;
    let ghost all = components(chars@);
    proof {
        assert(chars@.skip(0) =~= chars@);
        assert(all.skip(0) =~= all);
    }
    while i < chars.len()
        invariant
            i <= chars@.len(),
            all == components(chars@),
            out@.len() <= all.len(),
            forall|k: int| 0 <= k < out@.len() ==> (#[trigger] out@[k])@ == all[k],
            components_from(chars@.skip(i as int), i == 0) =~= all.skip(out@.len() as int),
        decreases chars@.len() - i,
    {
        let ghost here = chars@.skip(i as int);
        let ghost first = i == 0;
        let ghost before = out@.len() as int;
        let end = text::find_stop(chars, i, Stop::At('/'));
        let mut piece: Vec<char> = Vec::new();
        piece.extend_from_slice(&chars[i..end]);
        let next: usize = if end < chars.len() { end + 1 } else { end };
        let ghost rest = components_from(chars@.skip(next as int), false);
        proof {
            text::lemma_run_to(here, Stop::At('/'));
            assert(piece@ =~= here.take(end - i));
            if end < chars@.len() {
                assert(here.skip(end - i + 1) =~= chars@.skip(next as int));
            } else {
                assert(chars@.skip(next as int) =~= Seq::<char>::empty());
            }
        }
        if piece.len() == 0 || (is_dot(piece.as_slice()) && i > 0) {
            assert(components_from(here, first) =~= rest);
        } else {
            proof {
                assert(components_from(here, first) =~= seq![piece@] + rest);
                assert(all.skip(before)[0] == all[before]);
                assert(components_from(here, first)[0] == piece@);
                assert(all.skip(before + 1) =~= components_from(here, first).skip(1));
                assert(rest =~= (seq![piece@] + rest).skip(1));
            }
            out.push(piece);
        }
        i = next;
    }
    out
}

/// Whether two lists of characters are the same.
fn same_chars(a: &[char], b: &[char]) -> (r: bool)
    ensures
        r == (a@ == b@),
{
    if a.len() != b.len() {
        return false;
    }
    for i in 0..a.len()
        invariant
            a@.len() == b@.len(),
            forall|k: int| 0 <= k < i ==> #[trigger] a@[k] == b@[k],
    {
        if a[i] != b[i] {
            return false;
        }
    }
    assert(a@ =~= b@);
    true
}

/// Whether two paths are equal.
pub fn same_path(a: &str, b: &str) -> (r: bool)
    ensures
        r == paths_equal(a@, b@),
{
    let one = text::chars_of(a);
    let two = text::chars_of(b);
    let root_of_one = one.len() > 0 && one[0] == '/';
    let root_of_two = two.len() > 0 && two[0] == '/';
    let left = split_path(one.as_slice());
    let right = split_path(two.as_slice());
    if root_of_one != root_of_two || left.len() != right.len() {
        return false;
    }
    for i in 0..left.len()
        invariant
            left@.len() == right@.len() == components(a@).len() == components(b@).len(),
            forall|k: int| 0 <= k < left@.len() ==> (#[trigger] left@[k])@ == components(a@)[k],
            forall|k: int| 0 <= k < right@.len() ==> (#[trigger] right@[k])@ == components(b@)[k],
            forall|k: int|
                0 <= k < i ==> #[trigger] components(a@)[k] == components(b@)[k],
    {
        if !same_chars(left[i].as_slice(), right[i].as_slice()) {
            assert(components(a@)[i as int] != components(b@)[i as int]);
            return false;
        }
    }
    assert(components(a@) =~= components(b@));
    true
}

/// The final component of a path, if it has one that is a name.
pub fn file_name(path: &str) -> (r: Option<String>)
    ensures
        r is Some <==> path_file_name(path@) is Some,
        r matches Some(name) ==> path_file_name(path@) == Some(name@),
{
    let chars = text::chars_of(path);
    let parts = split_path(chars.as_slice());
    let n: usize = parts.len();
    if n == 0 {
        return None;
    }
    let last = parts[n - 1].as_slice();
    if is_dot(last) || is_dot_dot(last) {
        None
    } else {
        Some(text::text_of(last))
    }
}

// ---------------------------------------------------------------------------
// Laws of paths.

/// A component: something between slashes that is not nothing, and not `.`.
pub open spec fn is_component(name: Seq<char>) -> bool {
    name.len() > 0 && text::lacks(name, Stop::At('/')) && name != "."@
}

/// What is before a slash and what is behind it are read apart.
#[verifier::rlimit(40)]
proof fn lemma_joined(a: Seq<char>, b: Seq<char>, first: bool)
    ensures
        components_from(a + seq!['/'] + b, first) == components_from(a, first) + components_from(
            b,
            false,
        ),
    decreases a.len(),
{
    let s = a + seq!['/'] + b;
    let none = Seq::<Seq<char>>::empty();
    let stop = Stop::At('/');
    text::lemma_run_to(a, stop);
    let n = text::run_to(a, stop);
    let piece = a.take(n);
    assert forall|i: int| 0 <= i < piece.len() implies !stop.stops(#[trigger] piece[i]) by {
        assert(piece[i] == a[i]);
    }
    if n < a.len() {
        let rest = a.skip(n + 1);
        lemma_joined(rest, b, false);
        let tail = a.skip(n) + seq!['/'] + b;
        assert(s =~= piece + tail);
        assert(tail[0] == a[n]);
        text::lemma_run_to_is(piece, tail, stop);
        assert(s.skip(n + 1) =~= rest + seq!['/'] + b);
        let inner = components_from(rest, false);
        let behind = components_from(b, false);
        assert(seq![piece] + (inner + behind) =~= (seq![piece] + inner) + behind);
        assert(components_from(s, first) =~= components_from(a, first) + behind);
    } else {
        assert(piece =~= a);
        let tail = seq!['/'] + b;
        assert(s =~= a + tail);
        text::lemma_run_to_is(a, tail, stop);
        assert(s.skip(n + 1) =~= b);
        let behind = components_from(b, false);
        if a.len() == 0 {
            assert(components_from(a, first) =~= none);
            assert(none + behind =~= behind);
        } else {
            assert(seq![piece] + none =~= seq![piece]);
            assert(components_from(s, first) =~= components_from(a, first) + behind);
        }
    }
}

proof fn lemma_one_component(name: Seq<char>, first: bool)
    requires
        name.len() > 0,
        text::lacks(name, Stop::At('/')),
    ensures
        components_from(name, first) == if name == "."@ && !first {
            Seq::<Seq<char>>::empty()
        } else {
            seq![name]
        },
{
    let none = Seq::<char>::empty();
    assert(name + none =~= name);
    text::lemma_run_to_is(name, none, Stop::At('/'));
    assert(name.take(name.len() as int) =~= name);
    assert(seq![name] + Seq::<Seq<char>>::empty() =~= seq![name]);
}

/// What does not matter in a path: slashes at its end, slashes that are repeated, and a `.`
/// between slashes or behind the last.
#[verifier::rlimit(40)]
pub proof fn law_same_paths(a: Seq<char>, b: Seq<char>)
    ensures
        paths_equal(a, a),
        a.len() > 0 ==> paths_equal(a + "/"@, a),
        paths_equal(a + "//"@ + b, a + "/"@ + b),
        paths_equal(a + "/./"@ + b, a + "/"@ + b),
        a.len() > 0 ==> paths_equal(a + "/."@, a),
{
    reveal_strlit("/");
    reveal_strlit("//");
    reveal_strlit("/./");
    reveal_strlit("/.");
    reveal_strlit(".");
    let none = Seq::<char>::empty();
    let dot = "."@;
    let slash = seq!['/'];
    assert("/"@ =~= slash);
    lemma_joined(a, none, true);
    assert(a + slash + none =~= a + "/"@);
    assert(components_from(none, false) =~= Seq::<Seq<char>>::empty());
    assert(components(a) + Seq::<Seq<char>>::empty() =~= components(a));
    lemma_joined(a, b, true);
    lemma_joined(none, b, false);
    lemma_joined(a, none + slash + b, true);
    assert(a + slash + (none + slash + b) =~= a + "//"@ + b);
    assert(components_from(none, false) + components_from(b, false) =~= components_from(b, false));
    lemma_one_component(dot, false);
    lemma_joined(dot, b, false);
    lemma_joined(a, dot + slash + b, true);
    assert(a + slash + (dot + slash + b) =~= a + "/./"@ + b);
    lemma_joined(a, dot, true);
    assert(a + slash + dot =~= a + "/."@);
    if a.len() > 0 {
        assert((a + "/"@)[0] == a[0]);
        assert((a + "/."@)[0] == a[0]);
    }
    assert((a + "//"@ + b)[0] == (a + "/"@ + b)[0]);
    assert((a + "/./"@ + b)[0] == (a + "/"@ + b)[0]);
}

/// What does matter: the components, in their order, and whether a path begins at the root.
#[verifier::rlimit(40)]
pub proof fn law_different_paths(a: Seq<char>, b: Seq<char>, x: Seq<char>, y: Seq<char>)
    requires
        is_component(x),
        is_component(y),
    ensures
        paths_equal(a + "/"@ + x, a + "/"@ + y) <==> x == y,
        paths_equal(a + "/"@ + x, b + "/"@ + x) ==> paths_equal(a + "/"@, b + "/"@),
        paths_equal(x, y) <==> x == y,
        !paths_equal("/"@ + x, x),
        !paths_equal(a + "/"@ + x + "/"@ + y, a + "/"@ + x),
        paths_equal(a, b) ==> paths_equal(b, a),
{
    reveal_strlit("/");
    let slash = seq!['/'];
    let none = Seq::<char>::empty();
    assert("/"@ =~= slash);
    lemma_one_component(x, false);
    lemma_one_component(y, false);
    lemma_one_component(x, true);
    lemma_one_component(y, true);
    lemma_joined(a, x, true);
    lemma_joined(a, y, true);
    lemma_joined(b, x, true);
    let ca = components(a);
    let cb = components(b);
    assert(components(a + "/"@ + x) == ca.push(x)) by {
        assert(ca + seq![x] =~= ca.push(x));
    }
    assert(components(a + "/"@ + y) == ca.push(y)) by {
        assert(ca + seq![y] =~= ca.push(y));
    }
    assert(components(b + "/"@ + x) == cb.push(x)) by {
        assert(cb + seq![x] =~= cb.push(x));
    }
    assert(ca.push(x).last() == x && ca.push(y).last() == y);
    assert((a + "/"@ + x)[0] == (a + "/"@ + y)[0]);
    assert(seq![x][0] == x && seq![y][0] == y);
    assert(is_absolute("/"@ + x)) by {
        assert(("/"@ + x)[0] == '/');
    }
    assert(!is_absolute(x)) by {
        assert(!Stop::At('/').stops(x[0]));
    }
    lemma_joined(a + "/"@ + x, y, true);
    assert(components(a + "/"@ + x + "/"@ + y).len() == ca.len() + 2);
    if paths_equal(a + "/"@ + x, b + "/"@ + x) {
        assert(ca.push(x).drop_last() =~= ca);
        assert(cb.push(x).drop_last() =~= cb);
        lemma_joined(a, none, true);
        lemma_joined(b, none, true);
        assert(a + slash + none =~= a + "/"@);
        assert(b + slash + none =~= b + "/"@);
        assert((a + "/"@ + x)[0] == (a + "/"@)[0]);
        assert((b + "/"@ + x)[0] == (b + "/"@)[0]);
    }
}

/// The name of a file is what stands behind the last slash, slashes at the end aside; `..`
/// is no name, and neither the root nor nothing has one.
#[verifier::rlimit(40)]
pub proof fn law_file_names(a: Seq<char>, x: Seq<char>)
    requires
        is_component(x),
    ensures
        x != ".."@ ==> path_file_name(a + "/"@ + x) == Some(x) && path_file_name(
            a + "/"@ + x + "/"@,
        ) == Some(x) && path_file_name(x) == Some(x),
        x == ".."@ ==> path_file_name(a + "/"@ + x) is None && path_file_name(x) is None,
        path_file_name("/"@) is None,
        path_file_name(Seq::<char>::empty()) is None,
        path_file_name("."@) is None,
{
    reveal_strlit("/");
    reveal_strlit(".");
    let slash = seq!['/'];
    let none = Seq::<char>::empty();
    let ca = components(a);
    assert("/"@ =~= slash);
    lemma_one_component(x, false);
    lemma_one_component(x, true);
    lemma_one_component("."@, true);
    lemma_joined(a, x, true);
    lemma_joined(a + "/"@ + x, none, true);
    assert(a + "/"@ + x + slash + none =~= a + "/"@ + x + "/"@);
    assert(ca + seq![x] =~= ca.push(x));
    assert(ca.push(x) + Seq::<Seq<char>>::empty() =~= ca.push(x));
    assert(ca.push(x).last() == x);
    assert(seq![x].last() == x);
    assert(seq!["."@].last() == "."@);
    lemma_joined(none, none, true);
    assert(none + slash + none =~= "/"@);
}

} // verus!
