//! Workspace paths: text with `/` between its parts, relative to the root.
//!
//! A path means the parts that survive folding: empty runs and `.` are dropped,
//! and `..` cancels the name before it. A leading `/` is kept as an empty first
//! part, so a path that leaves the workspace stays recognisable as one.

use crate::text::{chars_of, join_text, split_text, text_of};
use vstd::prelude::*;

verus! {

/// A part that names a file or directory, rather than the root or a climb.
pub open spec fn is_name(part: Seq<char>) -> bool {
    part.len() > 0 && part != ".."@
}

/// The parts after one more run of path text.
pub open spec fn step(parts: Seq<Seq<char>>, run: Seq<char>) -> Seq<Seq<char>> {
    if run.len() == 0 || run == "."@ {
        parts
    } else if run == ".."@ && parts.len() > 0 && is_name(parts.last()) {
        parts.drop_last()
    } else {
        parts.push(run)
    }
}

/// The parts after all of `runs`, starting at `base`.
pub open spec fn fold(base: Seq<Seq<char>>, runs: Seq<Seq<char>>) -> Seq<Seq<char>>
    decreases runs.len(),
{
    if runs.len() == 0 {
        base
    } else {
        step(fold(base, runs.drop_last()), runs.last())
    }
}

/// Whether the path starts at the root of the file system.
pub open spec fn is_absolute(path: Seq<char>) -> bool {
    path.len() > 0 && path[0] == '/'
}

/// Where folding starts: nowhere, or at the root of the file system.
pub open spec fn origin(path: Seq<char>) -> Seq<Seq<char>> {
    if is_absolute(path) {
        seq![Seq::empty()]
    } else {
        Seq::empty()
    }
}

/// The parts that `path` means.
pub open spec fn parts(path: Seq<char>) -> Seq<Seq<char>> {
    fold(origin(path), crate::text::split(path, '/'))
}

/// The text of a path with these parts.
pub open spec fn spell(parts: Seq<Seq<char>>) -> Seq<char> {
    if parts.len() == 1 && parts[0].len() == 0 {
        seq!['/']
    } else {
        crate::text::joined(parts, '/')
    }
}

/// The one spelling of what `path` means.
pub open spec fn normalized(path: Seq<char>) -> Seq<char> {
    spell(parts(path))
}

/// Parts as folding leaves them: the root at most first, climbs only before
/// any name.
pub open spec fn is_normal(ps: Seq<Seq<char>>) -> bool {
    forall|i: int| 0 <= i < ps.len() ==> normal_at(ps, i)
}

/// What [`is_normal`] asks of the part at `i`.
pub open spec fn normal_at(ps: Seq<Seq<char>>, i: int) -> bool {
    &&& !ps[i].contains('/')
    &&& ps[i] != "."@
    &&& ps[i].len() == 0 ==> i == 0
    &&& ps[i] == ".."@ && i > 0 ==> !is_name(ps[i - 1])
}

/// Parts that all name something: a place inside the workspace.
pub open spec fn all_names(ps: Seq<Seq<char>>) -> bool {
    forall|i: int| 0 <= i < ps.len() ==> is_name(#[trigger] ps[i])
}

/// A path written the one normal way.
pub open spec fn is_canonical(path: Seq<char>) -> bool {
    normalized(path) == path
}

/// A normal path to something inside the workspace.
pub open spec fn is_inside(path: Seq<char>) -> bool {
    is_canonical(path) && all_names(parts(path))
}

/// The path of the directory that holds `path`.
pub open spec fn parent_of(path: Seq<char>) -> Seq<char> {
    if parts(path).len() == 0 {
        Seq::empty()
    } else {
        spell(parts(path).drop_last())
    }
}

/// The last part of `path`, where it is a name.
pub open spec fn name_of(path: Seq<char>) -> Option<Seq<char>> {
    if parts(path).len() > 0 && is_name(parts(path).last()) {
        Some(parts(path).last())
    } else {
        None
    }
}

/// The last position of `c` in `s`.
pub open spec fn last_mark(s: Seq<char>, c: char) -> Option<int>
    decreases s.len(),
{
    if s.len() == 0 {
        None
    } else if s.last() == c {
        Some(s.len() - 1)
    } else {
        last_mark(s.drop_last(), c)
    }
}

/// A file name without its extension. A name whose only dot comes first has
/// none.
pub open spec fn stem_of_name(name: Seq<char>) -> Seq<char> {
    match last_mark(name, '.') {
        Some(i) if i > 0 => name.take(i),
        _ => name,
    }
}

/// The extension of a file name.
pub open spec fn ext_of_name(name: Seq<char>) -> Option<Seq<char>> {
    match last_mark(name, '.') {
        Some(i) if i > 0 => Some(name.skip(i + 1)),
        _ => None,
    }
}

/// The file name of `path` without its extension.
pub open spec fn stem_of(path: Seq<char>) -> Option<Seq<char>> {
    match name_of(path) {
        Some(name) => Some(stem_of_name(name)),
        None => None,
    }
}

/// The extension of the file name of `path`.
pub open spec fn ext_of(path: Seq<char>) -> Option<Seq<char>> {
    match name_of(path) {
        Some(name) => ext_of_name(name),
        None => None,
    }
}

/// `path` with its file name replaced; one without a file name gains it.
pub open spec fn renamed(path: Seq<char>, name: Seq<char>) -> Seq<char> {
    let base = if name_of(path) is Some {
        parts(path).drop_last()
    } else {
        parts(path)
    };
    if name.len() == 0 {
        spell(base)
    } else {
        spell(base.push(name))
    }
}

/// `path` with the extension of its file name replaced.
pub open spec fn with_ext(path: Seq<char>, ext: Seq<char>) -> Seq<char> {
    match name_of(path) {
        Some(name) => {
            let stem = stem_of_name(name);
            renamed(
                path,
                if ext.len() == 0 {
                    stem
                } else {
                    stem.push('.') + ext
                },
            )
        },
        None => path,
    }
}

/// What `raw` means when it is read in the directory `dir`.
pub open spec fn under(dir: Seq<char>, raw: Seq<char>) -> Seq<char> {
    if is_absolute(raw) {
        normalized(raw)
    } else {
        spell(fold(parts(dir), crate::text::split(raw, '/')))
    }
}

/// Whether a path leaves the workspace.
pub open spec fn escapes(path: Seq<char>) -> bool {
    parts(path).len() > 0 && !is_name(parts(path)[0])
}

/// Whether `path` is `dir` or lies below it.
pub open spec fn is_within(path: Seq<char>, dir: Seq<char>) -> bool {
    &&& parts(dir).len() <= parts(path).len()
    &&& parts(path).take(parts(dir).len() as int) == parts(dir)
}

/// How many leading parts `a` and `b` share.
pub open spec fn shared(a: Seq<Seq<char>>, b: Seq<Seq<char>>) -> int
    decreases a.len(),
{
    if a.len() == 0 || b.len() == 0 || a[0] != b[0] {
        0
    } else {
        1 + shared(a.drop_first(), b.drop_first())
    }
}

/// `n` climbs.
pub open spec fn climbs(n: int) -> Seq<Seq<char>> {
    Seq::new(n as nat, |i: int| ".."@)
}

/// The parts that lead from the directory `from` to `to`.
pub open spec fn route(from: Seq<Seq<char>>, to: Seq<Seq<char>>) -> Seq<Seq<char>> {
    climbs(from.len() - shared(from, to)) + to.skip(shared(from, to))
}

/// The relative path from the directory `from` to `to`.
pub open spec fn relative_to(from: Seq<char>, to: Seq<char>) -> Seq<char> {
    let way = route(parts(from), parts(to));
    if way.len() == 0 {
        "."@
    } else {
        crate::text::joined(way, '/')
    }
}

proof fn lemma_dots()
    ensures
        "."@ == seq!['.'],
        ".."@ == seq!['.', '.'],
{
    reveal_strlit(".");
    reveal_strlit("..");
    assert("."@ =~= seq!['.']);
    assert(".."@ =~= seq!['.', '.']);
}

proof fn lemma_step_normal(ps: Seq<Seq<char>>, run: Seq<char>)
    requires
        is_normal(ps),
        !run.contains('/'),
    ensures
        is_normal(step(ps, run)),
{
    let out = step(ps, run);
    assert forall|i: int| 0 <= i < out.len() implies normal_at(out, i) by {
        if i < ps.len() {
            assert(normal_at(ps, i));
        }
    }
}

proof fn lemma_fold_normal(base: Seq<Seq<char>>, runs: Seq<Seq<char>>)
    requires
        is_normal(base),
        forall|i: int| 0 <= i < runs.len() ==> !(#[trigger] runs[i]).contains('/'),
    ensures
        is_normal(fold(base, runs)),
    decreases runs.len(),
{
    if runs.len() > 0 {
        assert forall|i: int| 0 <= i < runs.drop_last().len() implies !(
        #[trigger] runs.drop_last()[i]).contains('/') by {
            assert(runs.drop_last()[i] == runs[i]);
        }
        lemma_fold_normal(base, runs.drop_last());
        assert(!runs[runs.len() - 1].contains('/'));
        lemma_step_normal(fold(base, runs.drop_last()), runs.last());
    }
}

/// Folding always leaves normal parts.
pub proof fn lemma_parts_normal(path: Seq<char>)
    ensures
        is_normal(parts(path)),
{
    crate::text::lemma_split_runs(path, '/');
    lemma_dots();
    assert(is_normal(origin(path))) by {
        let o = origin(path);
        assert forall|i: int| 0 <= i < o.len() implies normal_at(o, i) by {
            assert(o[i].len() == 0);
        }
    }
    lemma_fold_normal(origin(path), crate::text::split(path, '/'));
}

/// Folding in two goes is folding once.
pub proof fn lemma_fold_add(base: Seq<Seq<char>>, a: Seq<Seq<char>>, b: Seq<Seq<char>>)
    ensures
        fold(base, a + b) == fold(fold(base, a), b),
    decreases b.len(),
{
    if b.len() == 0 {
        assert(a + b =~= a);
    } else {
        assert((a + b).drop_last() =~= a + b.drop_last());
        lemma_fold_add(base, a, b.drop_last());
    }
}

/// Normal parts fold to themselves.
proof fn lemma_fold_fixed(base: Seq<Seq<char>>, ps: Seq<Seq<char>>, from: int, to: int)
    requires
        is_normal(ps),
        0 <= from <= to <= ps.len(),
        base == ps.take(from),
        from == 0 ==> ps.len() == 0 || ps[0].len() > 0,
    ensures
        fold(base, ps.subrange(from, to)) == ps.take(to),
    decreases to - from,
{
    if from == to {
        assert(ps.subrange(from, to) =~= Seq::empty());
    } else {
        lemma_fold_fixed(base, ps, from, to - 1);
        assert(ps.subrange(from, to).drop_last() =~= ps.subrange(from, to - 1));
        assert(normal_at(ps, to - 1));
        let before = ps.take(to - 1);
        assert(before.len() > 0 ==> before.last() == ps[to - 2]);
        assert(ps.take(to) =~= before.push(ps[to - 1]));
    }
}

proof fn lemma_joined_first(ps: Seq<Seq<char>>)
    requires
        ps.len() > 0,
        ps[0].len() > 0,
    ensures
        crate::text::joined(ps, '/').len() > 0,
        crate::text::joined(ps, '/')[0] == ps[0][0],
    decreases ps.len(),
{
    if ps.len() > 1 {
        lemma_joined_first(ps.drop_last());
    }
}

proof fn lemma_joined_root(ps: Seq<Seq<char>>)
    requires
        ps.len() > 1,
        ps[0].len() == 0,
    ensures
        crate::text::joined(ps, '/').len() > 0,
        crate::text::joined(ps, '/')[0] == '/',
    decreases ps.len(),
{
    if ps.len() > 2 {
        lemma_joined_root(ps.drop_last());
    } else {
        assert(ps.drop_last().len() == 1);
        assert(crate::text::joined(ps.drop_last(), '/') =~= Seq::empty());
    }
}

/// Spelling normal parts and reading them back changes nothing.
pub proof fn lemma_parts_spell(ps: Seq<Seq<char>>)
    requires
        is_normal(ps),
    ensures
        parts(spell(ps)) == ps,
{
    let s = spell(ps);
    assert forall|i: int| 0 <= i < ps.len() implies !(#[trigger] ps[i]).contains('/') by {
        assert(normal_at(ps, i));
    }
    if ps.len() == 0 {
        assert(s =~= Seq::empty());
        assert(crate::text::split(s, '/') =~= seq![Seq::<char>::empty()]);
        reveal_with_fuel(fold, 2);
        assert(parts(s) =~= ps);
    } else if ps.len() == 1 && ps[0].len() == 0 {
        assert(s.drop_last() =~= Seq::empty());
        reveal_with_fuel(crate::text::split, 2);
        assert(crate::text::split(s, '/') =~= seq![Seq::<char>::empty(), Seq::<char>::empty()]);
        reveal_with_fuel(fold, 3);
        assert(ps[0] =~= Seq::empty());
        assert(ps =~= seq![Seq::<char>::empty()]);
        assert(parts(s) =~= ps);
    } else {
        crate::text::lemma_split_joined(ps, '/');
        if ps[0].len() == 0 {
            lemma_joined_root(ps);
            assert(ps[0] =~= Seq::empty());
            assert(origin(s) =~= ps.take(1));
            lemma_fold_add(origin(s), ps.take(1), ps.skip(1));
            assert(ps.take(1) + ps.skip(1) =~= ps);
            assert(ps.take(1).drop_last() =~= Seq::empty());
            reveal_with_fuel(fold, 2);
            assert(fold(origin(s), ps.take(1)) =~= origin(s));
            lemma_fold_fixed(origin(s), ps, 1, ps.len() as int);
            assert(ps.subrange(1, ps.len() as int) =~= ps.skip(1));
        } else {
            lemma_joined_first(ps);
            assert(ps[0].contains(ps[0][0]));
            assert(normal_at(ps, 0));
            assert(s[0] != '/');
            assert(origin(s) =~= ps.take(0));
            lemma_fold_fixed(origin(s), ps, 0, ps.len() as int);
            assert(ps.subrange(0, ps.len() as int) =~= ps);
        }
        assert(ps.take(ps.len() as int) =~= ps);
    }
}

/// Normalizing is idempotent, and keeps what a path means.
pub proof fn law_normalize_idempotent(path: Seq<char>)
    ensures
        parts(normalized(path)) == parts(path),
        is_canonical(normalized(path)),
{
    lemma_parts_normal(path);
    lemma_parts_spell(parts(path));
}

proof fn lemma_shared(a: Seq<Seq<char>>, b: Seq<Seq<char>>)
    ensures
        0 <= shared(a, b) <= a.len(),
        shared(a, b) <= b.len(),
        a.take(shared(a, b)) == b.take(shared(a, b)),
    decreases a.len(),
{
    if a.len() == 0 || b.len() == 0 || a[0] != b[0] {
        assert(a.take(0) =~= b.take(0));
    } else {
        let (x, y) = (a.drop_first(), b.drop_first());
        lemma_shared(x, y);
        let n = shared(x, y);
        assert forall|i: int| 0 <= i < n + 1 implies a[i] == b[i] by {
            if i > 0 {
                assert(x.take(n)[i - 1] == a[i]);
                assert(y.take(n)[i - 1] == b[i]);
            }
        }
        assert(a.take(n + 1) =~= b.take(n + 1));
    }
}

proof fn lemma_fold_climbs(ps: Seq<Seq<char>>, n: int)
    requires
        all_names(ps),
        0 <= n <= ps.len(),
    ensures
        fold(ps, climbs(n)) == ps.take(ps.len() - n),
    decreases n,
{
    lemma_dots();
    if n == 0 {
        assert(climbs(0) =~= Seq::empty());
        assert(ps.take(ps.len() as int) =~= ps);
    } else {
        lemma_fold_climbs(ps, n - 1);
        assert(climbs(n).drop_last() =~= climbs(n - 1));
        let before = ps.take(ps.len() - n + 1);
        assert(is_name(ps[ps.len() - n]));
        assert(before.last() == ps[ps.len() - n]);
        assert(before.drop_last() =~= ps.take(ps.len() - n));
    }
}

/// A route leads where it says: followed from its start, it arrives.
pub proof fn lemma_route_arrives(from: Seq<Seq<char>>, to: Seq<Seq<char>>)
    requires
        all_names(from),
        all_names(to),
        is_normal(to),
    ensures
        fold(from, route(from, to)) == to,
{
    let k = shared(from, to);
    lemma_shared(from, to);
    lemma_fold_add(from, climbs(from.len() - k), to.skip(k));
    lemma_fold_climbs(from, from.len() - k);
    if to.len() > 0 {
        assert(is_name(to[0]));
    }
    lemma_fold_fixed(to.take(k), to, k, to.len() as int);
    assert(to.subrange(k, to.len() as int) =~= to.skip(k));
    assert(to.take(to.len() as int) =~= to);
}

/// A relative path between two places inside the workspace, read in the
/// directory it starts from, reaches the place it was written for.
pub proof fn law_relative_arrives(from: Seq<char>, to: Seq<char>)
    requires
        is_inside(from),
        is_inside(to),
    ensures
        under(from, relative_to(from, to)) == to,
        !is_absolute(relative_to(from, to)),
{
    let (a, b) = (parts(from), parts(to));
    let way = route(a, b);
    lemma_parts_normal(from);
    lemma_parts_normal(to);
    lemma_shared(a, b);
    lemma_route_arrives(a, b);
    lemma_dots();
    if way.len() == 0 {
        let dot = "."@;
        assert(!dot.contains('/')) by {
            if dot.contains('/') {
                let i = choose|i: int| 0 <= i < dot.len() && dot[i] == '/';
                assert(dot[i] == '.');
            }
        }
        crate::text::lemma_split_plain(dot, '/');
        assert(crate::text::split(dot, '/').drop_last() =~= Seq::empty());
        reveal_with_fuel(fold, 2);
        assert(fold(a, crate::text::split(dot, '/')) == a);
        assert(way =~= Seq::empty());
        assert(a == b);
    } else {
        assert forall|i: int| 0 <= i < way.len() implies !(#[trigger] way[i]).contains('/')
            && way[i].len() > 0 by {
            let k = shared(a, b);
            if i < a.len() - k {
                assert(way[i] == seq!['.', '.']);
            } else {
                let j = i - (a.len() - k) + k;
                assert(way[i] == b[j]);
                assert(normal_at(b, j));
                assert(is_name(b[j]));
            }
        }
        crate::text::lemma_split_joined(way, '/');
        assert(way[0].len() > 0);
        lemma_joined_first(way);
        assert(way[0].contains(way[0][0]));
    }
}

/// The parts that `path` means.
pub fn path_parts(path: &str) -> (r: Vec<String>)
    ensures
        crate::text::texts(r@) == parts(path@),
{
    let runs = split_text(path, '/');
    let cs = chars_of(path);
    let mut out: Vec<String> = Vec::new();
    if cs.len() > 0 && cs[0] == '/' {
        out.push(String::new());
    }
    proof {
        assert(crate::text::texts(out@) =~= origin(path@));
        assert(crate::text::texts(runs@).take(0) =~= Seq::empty());
    }
    fold_runs(&mut out, &runs);
    out
}

/// Folds `runs` onto the parts in `out`.
fn fold_runs(out: &mut Vec<String>, runs: &Vec<String>)
    ensures
        crate::text::texts(final(out)@) == fold(
            crate::text::texts(old(out)@),
            crate::text::texts(runs@),
        ),
{
    let ghost base = crate::text::texts(out@);
    let ghost all = crate::text::texts(runs@);
    let mut i: usize = 0;
    proof {
        assert(all.take(0) =~= Seq::empty());
    }
    while i < runs.len()
        invariant
            i <= runs@.len(),
            all == crate::text::texts(runs@),
            crate::text::texts(out@) == fold(base, all.take(i as int)),
        decreases runs@.len() - i,
    {
        let ghost before = crate::text::texts(out@);
        proof {
            assert(all.take(i + 1).drop_last() =~= all.take(i as int));
            assert(all.take(i + 1).last() == runs@[i as int]@);
        }
        let run = &runs[i];
        if run.as_str().is_empty() || crate::text::same_text(run, ".") {
        } else if crate::text::same_text(run, "..") && out.len() > 0 && is_part_name(
            &out[out.len() - 1],
        ) {
            out.pop();
            proof {
                assert(crate::text::texts(out@) =~= before.drop_last());
            }
        } else {
            out.push(run.clone());
            proof {
                assert(crate::text::texts(out@) =~= before.push(run@));
            }
        }
        i = i + 1;
    }
    proof {
        assert(all.take(i as int) =~= all);
    }
}

fn is_part_name(part: &str) -> (r: bool)
    ensures
        r == is_name(part@),
{
    !part.is_empty() && !crate::text::same_text(part, "..")
}

/// The text of a path with these parts.
pub fn spell_path(ps: &Vec<String>) -> (r: String)
    ensures
        r@ == spell(crate::text::texts(ps@)),
{
    if ps.len() == 1 && ps[0].as_str().is_empty() {
        let mut s = String::new();
        s.push('/');
        proof {
            assert(s@ =~= seq!['/']);
        }
        s
    } else {
        join_text(ps, '/')
    }
}

/// The one spelling of what `path` means: `.` and empty runs dropped, and each
/// `..` cancelled against the name before it.
pub fn normalize(path: &str) -> (r: String)
    ensures
        r@ == normalized(path@),
        is_canonical(r@),
{
    proof {
        law_normalize_idempotent(path@);
    }
    spell_path(&path_parts(path))
}

/// Whether `path` leaves the workspace.
pub fn escapes_root(path: &str) -> (r: bool)
    ensures
        r == escapes(path@),
{
    let ps = path_parts(path);
    ps.len() > 0 && !is_part_name(&ps[0])
}

/// The path of the directory that holds `path`; empty at the root.
pub fn parent(path: &str) -> (r: String)
    ensures
        r@ == parent_of(path@),
{
    let mut ps = path_parts(path);
    if ps.len() == 0 {
        return String::new();
    }
    let ghost all = crate::text::texts(ps@);
    ps.pop();
    proof {
        assert(crate::text::texts(ps@) =~= all.drop_last());
    }
    spell_path(&ps)
}

/// The last part of `path`, where it is a name.
pub fn file_name(path: &str) -> (r: Option<String>)
    ensures
        opt_text(r) == name_of(path@),
{
    let ps = path_parts(path);
    if ps.len() > 0 && is_part_name(&ps[ps.len() - 1]) {
        Some(ps[ps.len() - 1].clone())
    } else {
        None
    }
}

/// The text an optional string holds.
pub open spec fn opt_text(s: Option<String>) -> Option<Seq<char>> {
    match s {
        Some(s) => Some(s@),
        None => None,
    }
}

/// The position of the dot that starts the extension of `name`.
fn dot_of(name: &[char]) -> (r: Option<usize>)
    ensures
        r is Some <==> (last_mark(name@, '.') matches Some(i) && i > 0),
        r matches Some(i) ==> last_mark(name@, '.') == Some(i as int) && 0 < i < name@.len(),
{
    let mut i: usize = name.len();
    proof {
        assert(name@.take(i as int) =~= name@);
    }
    while i > 0
        invariant
            i <= name@.len(),
            last_mark(name@, '.') == last_mark(name@.take(i as int), '.'),
        decreases i,
    {
        proof {
            assert(name@.take(i as int).last() == name@[i - 1]);
            assert(name@.take(i as int).drop_last() =~= name@.take(i - 1));
        }
        if name[i - 1] == '.' {
            return if i > 1 {
                Some(i - 1)
            } else {
                None
            };
        }
        i = i - 1;
    }
    None
}

/// The file name of `path` without its extension.
pub fn file_stem(path: &str) -> (r: Option<String>)
    ensures
        opt_text(r) == stem_of(path@),
{
    match file_name(path) {
        Some(name) => {
            let cs = chars_of(&name);
            match dot_of(&cs) {
                Some(i) => {
                    proof {
                        assert(cs@.subrange(0, i as int) =~= cs@.take(i as int));
                    }
                    Some(text_of(&cs, 0, i))
                },
                None => Some(name),
            }
        },
        None => None,
    }
}

/// The extension of the file name of `path`.
pub fn extension(path: &str) -> (r: Option<String>)
    ensures
        opt_text(r) == ext_of(path@),
{
    match file_name(path) {
        Some(name) => {
            let cs = chars_of(&name);
            match dot_of(&cs) {
                Some(i) => {
                    proof {
                        assert(cs@.subrange(i + 1, cs@.len() as int) =~= cs@.skip(i + 1));
                    }
                    let end: usize = cs.len();
                    Some(text_of(&cs, i + 1, end))
                },
                None => None,
            }
        },
        None => None,
    }
}

/// `path` with its file name replaced.
pub fn with_file_name(path: &str, name: &str) -> (r: String)
    ensures
        r@ == renamed(path@, name@),
{
    let mut ps = path_parts(path);
    let ghost all = crate::text::texts(ps@);
    if ps.len() > 0 && is_part_name(&ps[ps.len() - 1]) {
        ps.pop();
        proof {
            assert(crate::text::texts(ps@) =~= all.drop_last());
        }
    }
    let ghost base = crate::text::texts(ps@);
    if !name.is_empty() {
        ps.push(name.to_owned());
        proof {
            assert(crate::text::texts(ps@) =~= base.push(name@));
        }
    }
    spell_path(&ps)
}

/// `path` with the extension of its file name replaced.
pub fn with_extension(path: &str, ext: &str) -> (r: String)
    ensures
        r@ == with_ext(path@, ext@),
{
    match file_stem(path) {
        Some(stem) => {
            let mut name = stem;
            if !ext.is_empty() {
                name.push('.');
                name.append(ext);
            }
            with_file_name(path, &name)
        },
        None => path.to_owned(),
    }
}

/// What `raw` means when it is read in the directory `dir`.
pub fn read_in(dir: &str, raw: &str) -> (r: String)
    ensures
        r@ == under(dir@, raw@),
        is_canonical(r@),
{
    proof {
        lemma_under_canonical(dir@, raw@);
    }
    let cs = chars_of(raw);
    if cs.len() > 0 && cs[0] == '/' {
        return normalize(raw);
    }
    let mut ps = path_parts(dir);
    fold_runs(&mut ps, &split_text(raw, '/'));
    spell_path(&ps)
}

proof fn lemma_under_canonical(dir: Seq<char>, raw: Seq<char>)
    ensures
        is_canonical(under(dir, raw)),
        !is_absolute(raw) ==> parts(under(dir, raw)) == fold(
            parts(dir),
            crate::text::split(raw, '/'),
        ),
{
    if is_absolute(raw) {
        law_normalize_idempotent(raw);
    } else {
        let runs = crate::text::split(raw, '/');
        crate::text::lemma_split_runs(raw, '/');
        lemma_parts_normal(dir);
        lemma_fold_normal(parts(dir), runs);
        lemma_parts_spell(fold(parts(dir), runs));
    }
}

/// Whether `path` is `dir` or lies below it.
pub fn lies_within(path: &str, dir: &str) -> (r: bool)
    ensures
        r == is_within(path@, dir@),
{
    let ps = path_parts(path);
    let ds = path_parts(dir);
    if ds.len() > ps.len() {
        return false;
    }
    let mut i: usize = 0;
    while i < ds.len()
        invariant
            i <= ds@.len() <= ps@.len(),
            crate::text::texts(ps@) == parts(path@),
            crate::text::texts(ds@) == parts(dir@),
            forall|j: int| 0 <= j < i ==> ps@[j]@ == ds@[j]@,
        decreases ds@.len() - i,
    {
        if ps[i] != ds[i] {
            proof {
                assert(parts(path@).take(ds@.len() as int)[i as int] == ps@[i as int]@);
                assert(parts(dir@)[i as int] == ds@[i as int]@);
            }
            return false;
        }
        i = i + 1;
    }
    proof {
        assert(parts(path@).take(ds@.len() as int) =~= parts(dir@));
    }
    true
}

/// `path` moved from below `from` to the same place below `to`.
pub open spec fn rebased(path: Seq<char>, from: Seq<char>, to: Seq<char>) -> Seq<char> {
    spell(parts(to) + parts(path).skip(parts(from).len() as int))
}

/// `path` moved from below `from` to the same place below `to`.
pub fn rebase(path: &str, from: &str, to: &str) -> (r: String)
    requires
        is_within(path@, from@),
    ensures
        r@ == rebased(path@, from@, to@),
{
    let ps = path_parts(path);
    let fs = path_parts(from);
    let mut out = path_parts(to);
    let ghost base = crate::text::texts(out@);
    let mut i: usize = fs.len();
    proof {
        assert(base + parts(path@).subrange(fs@.len() as int, i as int) =~= base);
        assert(parts(from@).len() == fs@.len());
        assert(parts(path@).len() == ps@.len());
    }
    while i < ps.len()
        invariant
            fs@.len() <= i <= ps@.len(),
            crate::text::texts(ps@) == parts(path@),
            crate::text::texts(out@) == base + parts(path@).subrange(fs@.len() as int, i as int),
        decreases ps@.len() - i,
    {
        let ghost before = crate::text::texts(out@);
        out.push(ps[i].clone());
        proof {
            assert(crate::text::texts(out@) =~= before.push(ps@[i as int]@));
            assert(parts(path@)[i as int] == ps@[i as int]@);
            assert(parts(path@).subrange(fs@.len() as int, i + 1) =~= parts(path@).subrange(
                fs@.len() as int,
                i as int,
            ).push(ps@[i as int]@));
            assert(crate::text::texts(out@) =~= base + parts(path@).subrange(
                fs@.len() as int,
                i + 1,
            ));
        }
        i = i + 1;
    }
    proof {
        assert(parts(path@).subrange(fs@.len() as int, i as int) =~= parts(path@).skip(
            fs@.len() as int,
        ));
    }
    spell_path(&out)
}

/// How many leading parts `a` and `b` share.
fn shared_parts(a: &Vec<String>, b: &Vec<String>) -> (r: usize)
    ensures
        r == shared(crate::text::texts(a@), crate::text::texts(b@)),
        r <= a@.len(),
        r <= b@.len(),
{
    let ghost (x, y) = (crate::text::texts(a@), crate::text::texts(b@));
    let mut i: usize = 0;
    proof {
        assert(x.skip(0) =~= x);
        assert(y.skip(0) =~= y);
    }
    while i < a.len() && i < b.len() && a[i] == b[i]
        invariant
            i <= a@.len(),
            i <= b@.len(),
            x == crate::text::texts(a@),
            y == crate::text::texts(b@),
            shared(x, y) == i + shared(x.skip(i as int), y.skip(i as int)),
        decreases a@.len() - i,
    {
        proof {
            assert(x.skip(i as int)[0] == a@[i as int]@);
            assert(y.skip(i as int)[0] == b@[i as int]@);
            assert(x.skip(i as int).drop_first() =~= x.skip(i + 1));
            assert(y.skip(i as int).drop_first() =~= y.skip(i + 1));
        }
        i = i + 1;
    }
    proof {
        let (p, q) = (x.skip(i as int), y.skip(i as int));
        if p.len() > 0 && q.len() > 0 {
            assert(p[0] == a@[i as int]@);
            assert(q[0] == b@[i as int]@);
        }
    }
    i
}

/// The relative path that reaches `to` from the directory `from`.
pub fn relative(from: &str, to: &str) -> (r: String)
    ensures
        r@ == relative_to(from@, to@),
{
    let fs = path_parts(from);
    let ts = path_parts(to);
    let k = shared_parts(&fs, &ts);
    let mut way: Vec<String> = Vec::new();
    let mut i: usize = k;
    proof {
        assert(crate::text::texts(way@) =~= climbs(0));
    }
    while i < fs.len()
        invariant
            k <= i <= fs@.len(),
            crate::text::texts(way@) == climbs(i - k),
        decreases fs@.len() - i,
    {
        let ghost before = crate::text::texts(way@);
        way.push("..".to_owned());
        proof {
            assert(crate::text::texts(way@) =~= before.push(".."@));
            assert(climbs(i - k).push(".."@) =~= climbs(i + 1 - k));
        }
        i = i + 1;
    }
    let ghost up = climbs(fs@.len() - k);
    let ghost target = crate::text::texts(ts@);
    let mut j: usize = k;
    proof {
        assert(crate::text::texts(way@) =~= up + target.subrange(k as int, j as int));
    }
    while j < ts.len()
        invariant
            k <= j <= ts@.len(),
            target == crate::text::texts(ts@),
            crate::text::texts(way@) == up + target.subrange(k as int, j as int),
        decreases ts@.len() - j,
    {
        let ghost before = crate::text::texts(way@);
        way.push(ts[j].clone());
        proof {
            assert(crate::text::texts(way@) =~= before.push(ts@[j as int]@));
            assert(target.subrange(k as int, j + 1) =~= target.subrange(k as int, j as int).push(
                ts@[j as int]@,
            ));
            assert(crate::text::texts(way@) =~= up + target.subrange(k as int, j + 1));
        }
        j = j + 1;
    }
    proof {
        assert(target.subrange(k as int, j as int) =~= target.skip(k as int));
        assert(crate::text::texts(way@) == route(parts(from@), parts(to@)));
    }
    if way.len() == 0 {
        ".".to_owned()
    } else {
        join_text(&way, '/')
    }
}

/// A name that can stand in a path and be read back from it.
pub open spec fn is_plain(name: Seq<char>) -> bool {
    is_name(name) && !name.contains('/') && name != "."@
}

proof fn lemma_plain_parts(ps: Seq<Seq<char>>)
    requires
        forall|i: int| 0 <= i < ps.len() ==> is_plain(#[trigger] ps[i]),
    ensures
        is_normal(ps),
        parts(spell(ps)) == ps,
        is_inside(spell(ps)),
{
    assert forall|i: int| 0 <= i < ps.len() implies normal_at(ps, i) by {
        assert(is_plain(ps[i]));
    }
    lemma_parts_spell(ps);
}

proof fn lemma_inside_parts(path: Seq<char>)
    requires
        is_inside(path),
    ensures
        forall|i: int| 0 <= i < parts(path).len() ==> is_plain(#[trigger] parts(path)[i]),
        spell(parts(path)) == path,
{
    lemma_parts_normal(path);
    assert forall|i: int| 0 <= i < parts(path).len() implies is_plain(#[trigger] parts(path)[i]) by {
        assert(normal_at(parts(path), i));
        assert(is_name(parts(path)[i]));
    }
}

/// The name of a file inside the workspace can stand in a path.
pub proof fn lemma_inside_name(path: Seq<char>)
    requires
        is_inside(path),
    ensures
        name_of(path) matches Some(name) ==> is_plain(name),
{
    lemma_inside_parts(path);
    if parts(path).len() > 0 {
        assert(is_plain(parts(path)[parts(path).len() - 1]));
    }
}

/// The last position of a character holds it, and none after it does.
proof fn lemma_last_mark(s: Seq<char>, c: char)
    ensures
        last_mark(s, c) matches Some(i) ==> 0 <= i < s.len() && s[i] == c && (forall|j: int|
            i < j < s.len() ==> s[j] != c),
        last_mark(s, c) is None ==> !s.contains(c),
    decreases s.len(),
{
    if s.len() > 0 {
        let p = s.drop_last();
        lemma_last_mark(p, c);
        if s.last() != c {
            match last_mark(p, c) {
                Some(i) => {
                    assert forall|j: int| i < j < s.len() implies s[j] != c by {
                        if j < p.len() {
                            assert(p[j] == s[j]);
                        }
                    }
                },
                None => {
                    if s.contains(c) {
                        let j = choose|j: int| 0 <= j < s.len() && s[j] == c;
                        assert(p[j] == c);
                    }
                },
            }
        }
    }
}

/// The extension of a name holds no dot.
pub proof fn lemma_ext_has_no_dot(name: Seq<char>)
    ensures
        ext_of_name(name) matches Some(ext) ==> !ext.contains('.') && (!name.contains('/')
            ==> !ext.contains('/')),
        !name.contains('/') ==> !stem_of_name(name).contains('/'),
        name.len() > 0 ==> stem_of_name(name).len() > 0,
{
    lemma_last_mark(name, '.');
    match last_mark(name, '.') {
        Some(i) => {
            let ext = name.skip(i + 1);
            if ext.contains('.') {
                let j = choose|j: int| 0 <= j < ext.len() && ext[j] == '.';
                assert(name[i + 1 + j] == '.');
            }
            if ext.contains('/') {
                let j = choose|j: int| 0 <= j < ext.len() && ext[j] == '/';
                assert(name[i + 1 + j] == '/');
            }
            let stem = name.take(i);
            if stem.contains('/') {
                let j = choose|j: int| 0 <= j < stem.len() && stem[j] == '/';
                assert(name[j] == '/');
            }
        },
        None => {},
    }
}

/// A name that is put together of a stem and an extension comes apart into them.
pub proof fn law_name_comes_apart(stem: Seq<char>, ext: Seq<char>)
    requires
        stem.len() > 0,
        !ext.contains('.'),
    ensures
        stem_of_name(stem.push('.') + ext) == stem,
        ext_of_name(stem.push('.') + ext) == Some(ext),
{
    let name = stem.push('.') + ext;
    lemma_last_mark(name, '.');
    assert(name[stem.len() as int] == '.');
    match last_mark(name, '.') {
        Some(i) => {
            if i > stem.len() {
                assert(ext[i - stem.len() - 1] == '.');
                assert(ext.contains('.'));
            }
            assert(i == stem.len());
            assert(name.take(i) =~= stem);
            assert(name.skip(i + 1) =~= ext);
        },
        None => {
            assert(name.contains('.'));
        },
    }
}

/// A file renamed in place stays in its directory, has its new name, and is what
/// that name means there.
pub proof fn law_renamed_in_place(path: Seq<char>, name: Seq<char>)
    requires
        is_inside(path),
        parts(path).len() > 0,
        is_plain(name),
    ensures
        is_inside(renamed(path, name)),
        parent_of(renamed(path, name)) == parent_of(path),
        name_of(renamed(path, name)) == Some(name),
        under(parent_of(path), name) == renamed(path, name),
        under(parent_of(path), parts(path).last()) == path,
{
    lemma_inside_parts(path);
    let ps = parts(path);
    let dir = ps.drop_last();
    assert forall|i: int| 0 <= i < dir.len() implies is_plain(#[trigger] dir[i]) by {
        assert(is_plain(ps[i]));
    }
    assert(is_plain(ps[ps.len() - 1]));
    lemma_plain_parts(dir);
    let out = dir.push(name);
    assert forall|i: int| 0 <= i < out.len() implies is_plain(#[trigger] out[i]) by {
        if i < dir.len() {
            assert(is_plain(dir[i]));
        }
    }
    lemma_plain_parts(out);
    assert(out.drop_last() =~= dir);
    lemma_read_plain(dir, name);
    lemma_read_plain(dir, ps.last());
    assert(dir.push(ps.last()) =~= ps);
}

proof fn lemma_read_plain(dir: Seq<Seq<char>>, name: Seq<char>)
    requires
        forall|i: int| 0 <= i < dir.len() ==> is_plain(#[trigger] dir[i]),
        is_plain(name),
    ensures
        under(spell(dir), name) == spell(dir.push(name)),
{
    lemma_plain_parts(dir);
    crate::text::lemma_split_plain(name, '/');
    let runs = crate::text::split(name, '/');
    assert(runs =~= seq![name]);
    assert(runs.drop_last() =~= Seq::empty());
    reveal_with_fuel(fold, 2);
    assert(fold(dir, runs) == step(dir, name));
    assert(!is_absolute(name)) by {
        if is_absolute(name) {
            assert(name.contains(name[0]));
        }
    }
}

/// A file that moves with its directory is inside the new one, keeps its place
/// there, and comes back by the move back.
#[verifier::spinoff_prover]
#[verifier::rlimit(40)]
pub proof fn law_rebased(path: Seq<char>, from: Seq<char>, to: Seq<char>)
    requires
        is_inside(path),
        is_inside(from),
        is_inside(to),
        is_within(path, from),
    ensures
        is_inside(rebased(path, from, to)),
        is_within(rebased(path, from, to), to),
        parts(rebased(path, from, to)) == parts(to) + parts(path).skip(
            parts(from).len() as int,
        ),
        rebased(rebased(path, from, to), to, from) == path,
{
    lemma_inside_parts(path);
    lemma_inside_parts(from);
    lemma_inside_parts(to);
    let (p, f, t) = (parts(path), parts(from), parts(to));
    let out = t + p.skip(f.len() as int);
    assert forall|i: int| 0 <= i < out.len() implies is_plain(#[trigger] out[i]) by {
        if i < t.len() {
            assert(is_plain(t[i]));
        } else {
            assert(out[i] == p[i - t.len() + f.len()]);
        }
    }
    lemma_plain_parts(out);
    assert(out.take(t.len() as int) =~= t);
    assert(out.skip(t.len() as int) =~= p.skip(f.len() as int));
    assert(f + p.skip(f.len() as int) =~= p) by {
        assert(p.take(f.len() as int) == f);
        assert forall|i: int| 0 <= i < f.len() implies f[i] == p[i] by {
            assert(p.take(f.len() as int)[i] == p[i]);
        }
    }
}

} // verus!
