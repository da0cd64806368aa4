//! Which files go by a name, when files leave a workspace.

use crate::files::{stored, without, FileSeq, FileView};
use crate::walk::{declared_title, going_by, is_nameable, named_files};
use vstd::prelude::*;

verus! {

/// Whether the file at `path` goes by this name.
pub open spec fn goes_by(files: FileSeq, path: Seq<char>, name: Seq<char>) -> bool {
    is_nameable(path) && (crate::path::stem_of(path) == Some(name) || declared_title(files, path)
        == Some(name))
}

/// The paths of the files of which something holds, in order.
pub open spec fn those(files: FileSeq, holds: spec_fn(Seq<char>) -> bool) -> Seq<Seq<char>>
    decreases files.len(),
{
    if files.len() == 0 {
        Seq::empty()
    } else {
        let rest = those(files.drop_last(), holds);
        if holds(files.last().0) {
            rest.push(files.last().0)
        } else {
            rest
        }
    }
}

proof fn lemma_going_by(files: FileSeq, n: int, name: Seq<char>)
    requires
        0 <= n <= files.len(),
    ensures
        going_by(named_files(files, n), name) == those(
            files.take(n),
            |path: Seq<char>| goes_by(files, path, name),
        ),
    decreases n,
{
    if n > 0 {
        lemma_going_by(files, n - 1, name);
        let path = files[n - 1].0;
        assert(files.take(n).drop_last() =~= files.take(n - 1));
        assert(files.take(n).last() == files[n - 1]);
        if is_nameable(path) {
            assert(named_files(files, n).drop_last() =~= named_files(files, n - 1));
        }
    } else {
        assert(files.take(0) =~= Seq::empty());
    }
}

proof fn lemma_those_without(files: FileSeq, gone: Seq<char>, holds: spec_fn(Seq<char>) -> bool)
    ensures
        those(without(files, gone), holds) == those(
            files,
            |path: Seq<char>| holds(path) && path != gone,
        ),
    decreases files.len(),
{
    if files.len() > 0 {
        lemma_those_without(files.drop_last(), gone, holds);
        if files.last().0 != gone {
            let rest = without(files.drop_last(), gone);
            assert(rest.push(files.last()).drop_last() =~= rest);
        }
    }
}

proof fn lemma_those_fewer(
    files: FileSeq,
    holds: spec_fn(Seq<char>) -> bool,
    fewer: spec_fn(Seq<char>) -> bool,
)
    requires
        forall|path: Seq<char>| #[trigger] fewer(path) ==> holds(path),
    ensures
        those(files, holds).len() == 0 ==> those(files, fewer).len() == 0,
        those(files, holds).len() == 1 ==> those(files, fewer) == (if fewer(
            those(files, holds)[0],
        ) {
            those(files, holds)
        } else {
            Seq::empty()
        }),
    decreases files.len(),
{
    if files.len() > 0 {
        let rest = files.drop_last();
        lemma_those_fewer(rest, holds, fewer);
        let last = files.last().0;
        if holds(last) && those(files, holds).len() == 1 {
            assert(those(rest, holds).len() == 0);
            assert(those(rest, fewer) =~= Seq::empty());
            assert(those(files, holds)[0] == last);
            if fewer(last) {
                assert(those(files, fewer) =~= those(files, holds));
            }
        }
    } else {
        assert(those(files, fewer) =~= Seq::empty());
    }
}

proof fn lemma_those_same(
    files: FileSeq,
    holds: spec_fn(Seq<char>) -> bool,
    other: spec_fn(Seq<char>) -> bool,
)
    requires
        forall|path: Seq<char>| #[trigger] other(path) == holds(path),
    ensures
        those(files, holds) == those(files, other),
    decreases files.len(),
{
    if files.len() > 0 {
        lemma_those_same(files.drop_last(), holds, other);
    }
}

/// What a workspace's files are when some leave it and one is written.
pub open spec fn left(
    files: FileSeq,
    gone: Seq<char>,
    along: Option<Seq<char>>,
    written: Option<(Seq<char>, FileView)>,
) -> FileSeq {
    let first = without(files, gone);
    let both = match along {
        Some(path) => without(first, path),
        None => first,
    };
    match written {
        Some((path, data)) => stored(both, path, data),
        None => both,
    }
}

/// A name by which one file goes still leads to it when other files leave, and a name by
/// which none goes leads to none. What is written was there, and declares the title it
/// declared.
pub proof fn law_name_still_leads(
    files: FileSeq,
    gone: Seq<char>,
    along: Option<Seq<char>>,
    written: Option<(Seq<char>, FileView)>,
    name: Seq<char>,
)
    requires
        written matches Some((path, _)) ==> path != gone && along != Some(path) && declared_title(
            left(files, gone, along, written),
            path,
        ) == declared_title(files, path) && (exists|i: int|
            0 <= i < files.len() && (#[trigger] files[i]).0 == path),
    ensures
        ({
            let before = going_by(crate::walk::all_named(files), name);
            let after = going_by(
                crate::walk::all_named(left(files, gone, along, written)),
                name,
            );
            &&& before.len() == 0 ==> after.len() == 0
            &&& before.len() == 1 && before[0] != gone && along != Some(before[0]) ==> after
                == before
        }),
{
    let now = left(files, gone, along, written);
    let holds = |path: Seq<char>| goes_by(files, path, name);
    let holds_now = |path: Seq<char>| goes_by(now, path, name);
    lemma_going_by(files, files.len() as int, name);
    lemma_going_by(now, now.len() as int, name);
    assert(files.take(files.len() as int) =~= files);
    assert(now.take(now.len() as int) =~= now);
    let first = without(files, gone);
    let both = match along {
        Some(path) => without(first, path),
        None => first,
    };
    assert forall|q: Seq<char>| q != gone && along != Some(q) implies #[trigger] holds_now(q)
        == holds(q) by {
        crate::files::law_without(files, gone, q);
        match along {
            Some(path) => {
                crate::files::law_without(first, path, q);
            },
            None => {},
        }
        match written {
            Some((path, data)) => {
                crate::files::law_stored(both, path, data, q);
            },
            None => {},
        }
    }
    let apart = |path: Seq<char>| holds(path) && path != gone && along != Some(path);
    let stays = |path: Seq<char>| apart(path) && (written matches Some(w) ==> w.0 != path);
    let base = match written {
        Some((path, _)) => |q: Seq<char>| holds_now(q) && q != path,
        None => holds_now,
    };
    let base_along = match along {
        Some(path) => |q: Seq<char>| base(q) && q != path,
        None => base,
    };
    let base_gone = |q: Seq<char>| base_along(q) && q != gone;
    match along {
        Some(path) => {
            lemma_those_without(first, path, base);
        },
        None => {},
    }
    lemma_those_without(files, gone, base_along);
    assert(those(both, base) == those(files, base_gone));
    assert forall|q: Seq<char>| #[trigger] base_gone(q) == stays(q) by {
        assert(q != gone && along != Some(q) ==> holds_now(q) == holds(q));
    }
    lemma_those_same(files, stays, base_gone);
    lemma_those_fewer(files, holds, stays);
    match written {
        Some((path, data)) => {
            lemma_those_without(both, path, holds_now);
            assert(now.drop_last() =~= without(both, path));
            assert(now.last() == (path, data));
            assert(holds_now(path) == holds(path));
            let i = choose|i: int| 0 <= i < files.len() && (#[trigger] files[i]).0 == path;
            if holds(path) {
                lemma_those_has(files, holds, i);
            }
        },
        None => {},
    }
    if those(files, holds).len() == 1 {
        assert(holds(those(files, holds)[0])) by {
            lemma_those_hold(files, holds, 0);
        }
        assert(those(now, holds_now) =~= those(files, holds) || those(files, holds)[0] == gone
            || along == Some(those(files, holds)[0]));
    }
}

proof fn lemma_those_has(files: FileSeq, holds: spec_fn(Seq<char>) -> bool, i: int)
    requires
        0 <= i < files.len(),
        holds(files[i].0),
    ensures
        those(files, holds).contains(files[i].0),
        those(files, holds).len() > 0,
        those(files, holds).len() == 1 ==> those(files, holds)[0] == files[i].0,
    decreases files.len(),
{
    let rest = files.drop_last();
    let all = those(files, holds);
    if i < rest.len() {
        lemma_those_has(rest, holds, i);
        let k = choose|k: int|
            0 <= k < those(rest, holds).len() && those(rest, holds)[k] == files[i].0;
        assert(all[k] == files[i].0);
    } else {
        assert(all.last() == files[i].0);
    }
}

proof fn lemma_those_hold(files: FileSeq, holds: spec_fn(Seq<char>) -> bool, k: int)
    requires
        0 <= k < those(files, holds).len(),
    ensures
        holds(those(files, holds)[k]),
    decreases files.len(),
{
    let rest = files.drop_last();
    if k < those(rest, holds).len() {
        lemma_those_hold(rest, holds, k);
    }
}

/// The first of the files of which something holds comes before all others of them.
pub proof fn lemma_those_first(files: FileSeq, holds: spec_fn(Seq<char>) -> bool, n: int) -> (i: int)
    requires
        0 <= n <= files.len(),
    ensures
        ({
            let paths = those(files.take(n), holds);
            if paths.len() > 0 {
                &&& 0 <= i < n
                &&& holds(files[i].0)
                &&& paths[0] == files[i].0
                &&& forall|j: int| 0 <= j < i ==> !holds((#[trigger] files[j]).0)
            } else {
                forall|j: int| 0 <= j < n ==> !holds((#[trigger] files[j]).0)
            }
        }),
    decreases n,
{
    if n <= 0 {
        0
    } else {
        let i = lemma_those_first(files, holds, n - 1);
        assert(files.take(n).drop_last() =~= files.take(n - 1));
        assert(files.take(n).last() == files[n - 1]);
        if those(files.take(n - 1), holds).len() > 0 {
            i
        } else {
            n - 1
        }
    }
}

/// The paths of which something holds, in order.
pub open spec fn picked(paths: Seq<Seq<char>>, holds: spec_fn(Seq<char>) -> bool) -> Seq<Seq<char>>
    decreases paths.len(),
{
    if paths.len() == 0 {
        Seq::empty()
    } else {
        let rest = picked(paths.drop_last(), holds);
        if holds(paths.last()) {
            rest.push(paths.last())
        } else {
            rest
        }
    }
}

/// What holds of some files is picked from more of them.
pub proof fn lemma_those_picked(
    files: FileSeq,
    more: spec_fn(Seq<char>) -> bool,
    holds: spec_fn(Seq<char>) -> bool,
)
    requires
        forall|path: Seq<char>| #[trigger] holds(path) ==> more(path),
    ensures
        those(files, holds) == picked(those(files, more), holds),
    decreases files.len(),
{
    if files.len() > 0 {
        let rest = files.drop_last();
        lemma_those_picked(rest, more, holds);
        if more(files.last().0) {
            assert(those(files, more).drop_last() =~= those(rest, more));
        }
    }
}

/// What holds of the same paths is picked from them.
pub proof fn lemma_picked_same(
    paths: Seq<Seq<char>>,
    holds: spec_fn(Seq<char>) -> bool,
    other: spec_fn(Seq<char>) -> bool,
)
    requires
        forall|i: int| 0 <= i < paths.len() ==> other(#[trigger] paths[i]) == holds(paths[i]),
    ensures
        picked(paths, holds) == picked(paths, other),
    decreases paths.len(),
{
    if paths.len() > 0 {
        let rest = paths.drop_last();
        assert forall|i: int| 0 <= i < rest.len() implies other(#[trigger] rest[i]) == holds(
            rest[i],
        ) by {
            assert(paths[i] == rest[i]);
        }
        lemma_picked_same(rest, holds, other);
        assert(other(paths[paths.len() - 1]) == holds(paths[paths.len() - 1]));
    }
}

} // verus!
