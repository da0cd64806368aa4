//! What a survey of a workspace covers, and how that goes along with a move.

use crate::maintain::{landing_or_same, MovesView};
use crate::walk::{all_named, children_of, descent, surveyed, unseen, NamedView};
use crate::workspace::WsView;
use vstd::prelude::*;

verus! {

/// Whether the document `child` is listed by the one at `path`.
pub open spec fn lists(
    ws: WsView,
    named: Option<Seq<NamedView>>,
    path: Seq<char>,
    child: Seq<char>,
) -> bool {
    children_of(ws, named, path) matches Some(children) && children.contains(child)
}

/// Whether these documents are all that are listed by them and can be read.
pub open spec fn is_closed(ws: WsView, named: Option<Seq<NamedView>>, docs: Seq<Seq<char>>) -> bool {
    forall|path: Seq<char>, child: Seq<char>|
        docs.contains(path) && #[trigger] lists(ws, named, path, child) && children_of(
            ws,
            named,
            child,
        ) is Some ==> docs.contains(child)
}

/// What a walk has still to come to: all that its documents list, it has seen or has
/// on its stack; and all that it has seen and can be read is among its documents.
spec fn in_hand(
    ws: WsView,
    named: Option<Seq<NamedView>>,
    stack: Seq<Seq<char>>,
    seen: Seq<Seq<char>>,
    out: Seq<Seq<char>>,
) -> bool {
    &&& forall|path: Seq<char>, child: Seq<char>|
        out.contains(path) && #[trigger] lists(ws, named, path, child) ==> seen.contains(child)
            || stack.contains(child)
    &&& forall|path: Seq<char>| #[trigger]
        seen.contains(path) && children_of(ws, named, path) is Some ==> out.contains(path)
}

proof fn lemma_descent_closed(
    ws: WsView,
    named: Option<Seq<NamedView>>,
    stack: Seq<Seq<char>>,
    seen: Seq<Seq<char>>,
    out: Seq<Seq<char>>,
)
    requires
        in_hand(ws, named, stack, seen, out),
    ensures
        is_closed(ws, named, descent(ws, named, stack, seen, out)),
        forall|path: Seq<char>|
            out.contains(path) ==> #[trigger] descent(ws, named, stack, seen, out).contains(path),
        forall|path: Seq<char>|
            stack.contains(path) && children_of(ws, named, path) is Some ==> #[trigger] descent(
                ws,
                named,
                stack,
                seen,
                out,
            ).contains(path),
    decreases unseen(ws.files, seen), stack.len(),
{
    if stack.len() > 0 {
        let path = stack.last();
        let rest = stack.drop_last();
        crate::walk::lemma_unseen(ws.files, seen, path);
        assert forall|p: Seq<char>| #[trigger] stack.contains(p) implies p == path || rest.contains(
            p,
        ) by {
            let i = choose|i: int| 0 <= i < stack.len() && stack[i] == p;
            if i < rest.len() {
                assert(rest[i] == p);
            }
        }
        let more = seen.push(path);
        assert forall|p: Seq<char>| #[trigger] more.contains(p) == (seen.contains(p) || p
            == path) by {
            if seen.contains(p) {
                let i = choose|i: int| 0 <= i < seen.len() && seen[i] == p;
                assert(more[i] == p);
            }
            assert(more[seen.len() as int] == path);
        }
        if seen.contains(path) {
            lemma_descent_closed(ws, named, rest, seen, out);
        } else {
            match children_of(ws, named, path) {
                None => {
                    lemma_descent_closed(ws, named, rest, more, out);
                },
                Some(children) => {
                    let longer = out.push(path);
                    let next = rest + children;
                    assert forall|p: Seq<char>| #[trigger] longer.contains(p) == (out.contains(p)
                        || p == path) by {
                        if out.contains(p) {
                            let i = choose|i: int| 0 <= i < out.len() && out[i] == p;
                            assert(longer[i] == p);
                        }
                        assert(longer[out.len() as int] == path);
                    }
                    assert forall|p: Seq<char>| rest.contains(p) || children.contains(
                        p,
                    ) implies #[trigger] next.contains(p) by {
                        if rest.contains(p) {
                            let i = choose|i: int| 0 <= i < rest.len() && rest[i] == p;
                            assert(next[i] == p);
                        } else {
                            let i = choose|i: int| 0 <= i < children.len() && children[i] == p;
                            assert(next[rest.len() + i] == p);
                        }
                    }
                    lemma_descent_closed(ws, named, next, more, longer);
                },
            }
        }
    }
}

proof fn lemma_descent_holds(
    ws: WsView,
    named: Option<Seq<NamedView>>,
    stack: Seq<Seq<char>>,
    seen: Seq<Seq<char>>,
    out: Seq<Seq<char>>,
    holds: spec_fn(Seq<char>) -> bool,
)
    requires
        forall|path: Seq<char>| #[trigger] stack.contains(path) ==> holds(path),
        forall|path: Seq<char>| #[trigger] out.contains(path) ==> holds(path),
        forall|path: Seq<char>, child: Seq<char>|
            holds(path) && #[trigger] lists(ws, named, path, child) ==> holds(child),
    ensures
        forall|path: Seq<char>| #[trigger]
            descent(ws, named, stack, seen, out).contains(path) ==> holds(path),
    decreases unseen(ws.files, seen), stack.len(),
{
    if stack.len() > 0 {
        let path = stack.last();
        let rest = stack.drop_last();
        crate::walk::lemma_unseen(ws.files, seen, path);
        assert(stack.contains(path));
        assert forall|p: Seq<char>| #[trigger] rest.contains(p) implies holds(p) by {
            let i = choose|i: int| 0 <= i < rest.len() && rest[i] == p;
            assert(stack[i] == p);
            assert(stack.contains(p));
        }
        if seen.contains(path) {
            lemma_descent_holds(ws, named, rest, seen, out, holds);
            assert(descent(ws, named, stack, seen, out) == descent(ws, named, rest, seen, out));
        } else {
            match children_of(ws, named, path) {
                None => {
                    lemma_descent_holds(ws, named, rest, seen.push(path), out, holds);
                    assert(descent(ws, named, stack, seen, out) == descent(
                        ws,
                        named,
                        rest,
                        seen.push(path),
                        out,
                    ));
                },
                Some(children) => {
                    let longer = out.push(path);
                    let next = rest + children;
                    assert forall|p: Seq<char>| #[trigger] longer.contains(p) implies holds(p) by {
                        let i = choose|i: int| 0 <= i < longer.len() && longer[i] == p;
                        if i < out.len() {
                            assert(out[i] == p);
                            assert(out.contains(p));
                        }
                    }
                    assert forall|p: Seq<char>| #[trigger] next.contains(p) implies holds(p) by {
                        let i = choose|i: int| 0 <= i < next.len() && next[i] == p;
                        if i < rest.len() {
                            assert(rest[i] == p);
                            assert(rest.contains(p));
                        } else {
                            assert(children[i - rest.len()] == p);
                            assert(lists(ws, named, path, p));
                        }
                    }
                    lemma_descent_holds(ws, named, next, seen.push(path), longer, holds);
                    assert(descent(ws, named, stack, seen, out) == descent(
                        ws,
                        named,
                        next,
                        seen.push(path),
                        longer,
                    ));
                },
            }
        }
    } else {
        assert(descent(ws, named, stack, seen, out) == out);
    }
}

/// A survey covers its start where that can be read, and whatever can be read of what a
/// document that it covers lists.
pub proof fn law_survey_is_closed(ws: WsView, root: Seq<char>)
    ensures
        is_closed(ws, Some(all_named(ws.files)), surveyed(ws, root)),
        crate::workspace::loaded(ws.files, root) is Ok ==> surveyed(ws, root).contains(root),
{
    let none = Seq::<Seq<char>>::empty();
    let stack = seq![root];
    assert(stack[0] == root);
    assert(stack.contains(root));
    lemma_descent_closed(ws, Some(all_named(ws.files)), stack, none, none);
}

/// A survey covers nothing else: what holds of its start, and of whatever is listed by
/// a document of which it holds, holds of all that it covers.
pub proof fn law_survey_is_least(
    ws: WsView,
    root: Seq<char>,
    holds: spec_fn(Seq<char>) -> bool,
)
    requires
        holds(root),
        forall|path: Seq<char>, child: Seq<char>|
            holds(path) && #[trigger] lists(ws, Some(all_named(ws.files)), path, child)
                ==> holds(child),
    ensures
        forall|path: Seq<char>| #[trigger] surveyed(ws, root).contains(path) ==> holds(path),
{
    let none = Seq::<Seq<char>>::empty();
    lemma_descent_holds(ws, Some(all_named(ws.files)), seq![root], none, none, holds);
}

/// Whether each document that a survey covers lists, where it landed, what it listed,
/// where that landed, as far as that could be read; and that can be read there.
pub open spec fn lists_along(ws: WsView, after: WsView, moves: MovesView, root: Seq<char>) -> bool {
    &&& crate::workspace::loaded(after.files, landing_or_same(moves, root)) is Ok
    &&& forall|path: Seq<char>, child: Seq<char>|
        surveyed(ws, root).contains(path) && crate::workspace::loaded(ws.files, child) is Ok
            && #[trigger] lists(ws, Some(all_named(ws.files)), path, child) ==> lists(
            after,
            Some(all_named(after.files)),
            landing_or_same(moves, path),
            landing_or_same(moves, child),
        ) && crate::workspace::loaded(after.files, landing_or_same(moves, child)) is Ok
}

/// A survey goes along with a move: where each document lists what it listed, a survey
/// from where the root landed covers all that was covered, where it landed.
pub proof fn law_survey_goes_along(
    ws: WsView,
    after: WsView,
    moves: MovesView,
    root: Seq<char>,
    path: Seq<char>,
)
    requires
        lists_along(ws, after, moves, root),
        surveyed(ws, root).contains(path),
    ensures
        surveyed(after, landing_or_same(moves, root)).contains(landing_or_same(moves, path)),
{
    let docs = surveyed(ws, root);
    let then = surveyed(after, landing_or_same(moves, root));
    law_survey_is_closed(ws, root);
    law_survey_is_closed(after, landing_or_same(moves, root));
    crate::landing::law_walk(ws, Some(all_named(ws.files)), root);
    let holds = |p: Seq<char>|
        crate::workspace::loaded(ws.files, p) is Ok ==> docs.contains(p) && then.contains(
            landing_or_same(moves, p),
        );
    assert forall|p: Seq<char>, child: Seq<char>|
        holds(p) && #[trigger] lists(ws, Some(all_named(ws.files)), p, child) implies holds(
        child,
    ) by {
        if crate::workspace::loaded(ws.files, child) is Ok {
            assert(docs.contains(child));
            assert(lists(
                after,
                Some(all_named(after.files)),
                landing_or_same(moves, p),
                landing_or_same(moves, child),
            ));
        }
    }
    law_survey_is_least(ws, root, holds);
    assert(holds(path));
    let i = choose|i: int| 0 <= i < docs.len() && docs[i] == path;
    assert(crate::workspace::loaded(ws.files, docs[i]) is Ok);
}

/// What a reference reaches is among what the references reach.
proof fn lemma_reached_by(
    ws: WsView,
    named: Option<Seq<NamedView>>,
    source: Seq<char>,
    raws: Seq<Seq<char>>,
    k: int,
    place: Seq<char>,
)
    requires
        0 <= k < raws.len(),
        crate::walk::raw_reach(ws, named, source, raws[k]) == Some(place),
    ensures
        crate::walk::raws_reach(ws, named, source, raws).contains(place),
    decreases raws.len(),
{
    let rest = raws.drop_last();
    let all = crate::walk::raws_reach(ws, named, source, raws);
    if k < rest.len() {
        lemma_reached_by(ws, named, source, rest, k, place);
        let few = crate::walk::raws_reach(ws, named, source, rest);
        let j = choose|j: int| 0 <= j < few.len() && few[j] == place;
        assert(all[j] == place);
    } else {
        assert(all.last() == place);
    }
}

/// What references reach, one of them reaches.
proof fn lemma_reached_from(
    ws: WsView,
    named: Option<Seq<NamedView>>,
    source: Seq<char>,
    raws: Seq<Seq<char>>,
    place: Seq<char>,
) -> (k: int)
    requires
        crate::walk::raws_reach(ws, named, source, raws).contains(place),
    ensures
        0 <= k < raws.len(),
        crate::walk::raw_reach(ws, named, source, raws[k]) == Some(place),
    decreases raws.len(),
{
    let rest = raws.drop_last();
    let few = crate::walk::raws_reach(ws, named, source, rest);
    let all = crate::walk::raws_reach(ws, named, source, raws);
    if few.contains(place) {
        lemma_reached_from(ws, named, source, rest, place)
    } else {
        let j = choose|j: int| 0 <= j < all.len() && all[j] == place;
        if j < few.len() {
            assert(few[j] == place);
        }
        raws.len() - 1
    }
}

/// Whether a reference is a path, and no bare name.
pub open spec fn is_plain_path(raw: Seq<char>) -> bool {
    let target = crate::link::parse_link(raw).target;
    crate::link::is_path_target(target) && !crate::link::is_alias_shaped(
        crate::link::addressed(target),
    )
}

/// A document that lists another by a path lists it by that path wherever it reads that
/// reference, from the same directory, and there is a file there.
pub proof fn law_path_lists(
    ws: WsView,
    after: WsView,
    path: Seq<char>,
    now: Seq<char>,
    child: Seq<char>,
)
    requires
        lists(ws, Some(all_named(ws.files)), path, child),
        ws.relations == after.relations,
        crate::path::parent_of(path) == crate::path::parent_of(now),
        crate::workspace::loaded(ws.files, path) matches Ok((_, doc)) && (
        crate::workspace::loaded(after.files, now) matches Ok((_, doc_now)) && ({
            let raws = crate::workspace::child_references(ws.relations, doc.meta);
            let raws_now = crate::workspace::child_references(ws.relations, doc_now.meta);
            &&& forall|k: int| 0 <= k < raws.len() ==> is_plain_path(#[trigger] raws[k])
            &&& raws == raws_now
        })),
        crate::files::lookup(after.files, child) is Some,
    ensures
        lists(after, Some(all_named(after.files)), now, child),
{
    let doc = (crate::workspace::loaded(ws.files, path)->Ok_0).1;
    let raws = crate::workspace::child_references(ws.relations, doc.meta);
    let k = lemma_reached_from(ws, Some(all_named(ws.files)), path, raws, child);
    assert(is_plain_path(raws[k]));
    crate::landing::law_file_is_taken(after.files, child);
    lemma_reached_by(after, Some(all_named(after.files)), now, raws, k, child);
}

/// What is listed by a path is where that path leads.
pub proof fn law_listed_place(ws: WsView, path: Seq<char>, child: Seq<char>) -> (k: int)
    requires
        lists(ws, Some(all_named(ws.files)), path, child),
        crate::workspace::loaded(ws.files, path) matches Ok((_, doc)) && (forall|k: int|
            0 <= k < crate::workspace::child_references(ws.relations, doc.meta).len()
                ==> is_plain_path(
                #[trigger] crate::workspace::child_references(ws.relations, doc.meta)[k],
            )),
    ensures
        crate::workspace::loaded(ws.files, path) matches Ok((_, doc)) && 0 <= k
            < crate::workspace::child_references(ws.relations, doc.meta).len()
            && crate::landing::place_of(
            path,
            crate::workspace::child_references(ws.relations, doc.meta)[k],
        ) == child,
{
    let doc = (crate::workspace::loaded(ws.files, path)->Ok_0).1;
    let raws = crate::workspace::child_references(ws.relations, doc.meta);
    let k = lemma_reached_from(ws, Some(all_named(ws.files)), path, raws, child);
    assert(is_plain_path(raws[k]));
    k
}

} // verus!
