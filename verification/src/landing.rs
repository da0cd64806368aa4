//! What holds of a workspace after an operation: which files are where, and which
//! are as they were.

use crate::change::{rewrite_ops, RewriteView};
use crate::field::{rewrites_among, Movers};
use crate::files::{changed, changed_all, lookup, FileSeq, FileView, OpView};
use crate::maintain::MovesView;
use crate::walk::{descent, unseen, NamedView};
use crate::workspace::WsView;
use vstd::prelude::*;

verus! {

/// Whether a change can bear on the file at `path`.
pub open spec fn touches(op: OpView, path: Seq<char>) -> bool {
    match op {
        OpView::Expect(_, _) | OpView::ExpectAbsent(_) => false,
        OpView::Write(p, _) | OpView::Remove(p) => p == path,
        OpView::Rename(a, b) => a == path || b == path,
    }
}

/// Whether any of the changes can bear on the file at `path`.
pub open spec fn any_touches(ops: Seq<OpView>, path: Seq<char>) -> bool {
    exists|i: int| 0 <= i < ops.len() && touches(#[trigger] ops[i], path)
}

/// A file that no change bears on is as it was.
pub proof fn law_untouched(files: FileSeq, ops: Seq<OpView>, path: Seq<char>)
    requires
        !any_touches(ops, path),
    ensures
        changed_all(files, ops) matches Ok(after) ==> lookup(after, path) == lookup(files, path),
    decreases ops.len(),
{
    if ops.len() > 0 {
        let rest = ops.drop_last();
        assert(!any_touches(rest, path)) by {
            if any_touches(rest, path) {
                let i = choose|i: int| 0 <= i < rest.len() && touches(#[trigger] rest[i], path);
                assert(touches(ops[i], path));
            }
        }
        law_untouched(files, rest, path);
        assert(!touches(ops[ops.len() - 1], path));
        match changed_all(files, rest) {
            Ok(f) => match ops.last() {
                OpView::Write(p, d) => {
                    crate::files::law_stored(f, p, d, path);
                },
                OpView::Remove(p) => {
                    crate::files::law_without(f, p, path);
                },
                OpView::Rename(a, b) => match lookup(f, a) {
                    Some(d) => {
                        crate::files::law_without(f, a, path);
                        crate::files::law_stored(crate::files::without(f, a), b, d, path);
                    },
                    None => {},
                },
                _ => {},
            },
            Err(_) => {},
        }
    }
}

/// Changes in two parts are made one part after the other.
pub proof fn lemma_changed_add(files: FileSeq, a: Seq<OpView>, b: Seq<OpView>)
    ensures
        changed_all(files, a + b) == (match changed_all(files, a) {
            Ok(f) => changed_all(f, b),
            Err(e) => Err(e),
        }),
    decreases b.len(),
{
    if b.len() == 0 {
        assert(a + b =~= a);
    } else {
        lemma_changed_add(files, a, b.drop_last());
        assert((a + b).drop_last() =~= a + b.drop_last());
        assert((a + b).last() == b.last());
    }
}

pub proof fn lemma_changed_push(files: FileSeq, a: Seq<OpView>, op: OpView)
    ensures
        changed_all(files, a.push(op)) == (match changed_all(files, a) {
            Ok(f) => changed(f, op),
            Err(e) => Err(e),
        }),
{
    assert(a.push(op).drop_last() =~= a);
}

/// A file is a path that is taken.
pub proof fn law_file_is_taken(files: FileSeq, path: Seq<char>)
    requires
        lookup(files, path) is Some,
    ensures
        crate::files::occupied(files, path),
    decreases files.len(),
{
    let n = files.len() - 1;
    if files.last().0 == path {
        assert(crate::path::parts(path).take(crate::path::parts(path).len() as int)
            =~= crate::path::parts(path));
        assert(crate::path::is_within(files[n].0, path));
    } else {
        law_file_is_taken(files.drop_last(), path);
        let i = choose|i: int|
            0 <= i < files.drop_last().len() && crate::path::is_within(
                (#[trigger] files.drop_last()[i]).0,
                path,
            );
        assert(crate::path::is_within(files[i].0, path));
    }
}

/// Rewrites of which no two are of the same document.
pub open spec fn distinct_paths(rewrites: Seq<RewriteView>) -> bool {
    forall|i: int, j: int|
        0 <= i < j < rewrites.len() ==> (#[trigger] rewrites[i]).path != (
        #[trigger] rewrites[j]).path
}

/// Whether one of the rewrites is of this document.
pub open spec fn rewrites_path(rewrites: Seq<RewriteView>, path: Seq<char>) -> bool {
    exists|i: int| 0 <= i < rewrites.len() && (#[trigger] rewrites[i]).path == path
}

/// Rewrites always land: each document holds its new text, and every other file is
/// as it was.
pub proof fn law_rewrites_land(files: FileSeq, rewrites: Seq<RewriteView>)
    requires
        distinct_paths(rewrites),
    ensures
        changed_all(files, rewrite_ops(rewrites)) matches Ok(after) && (forall|i: int|
            0 <= i < rewrites.len() ==> lookup(after, (#[trigger] rewrites[i]).path) == Some(
                FileView::Text(rewrites[i].text),
            )) && (forall|path: Seq<char>|
            !rewrites_path(rewrites, path) ==> #[trigger] lookup(after, path) == lookup(
                files,
                path,
            )),
    decreases rewrites.len(),
{
    if rewrites.len() > 0 {
        let rest = rewrites.drop_last();
        let last = rewrites.last();
        let n = rewrites.len() - 1;
        assert(distinct_paths(rest)) by {
            assert forall|i: int, j: int| 0 <= i < j < rest.len() implies (#[trigger] rest[i]).path
                != (#[trigger] rest[j]).path by {
                assert(rewrites[i].path != rewrites[j].path);
            }
        }
        law_rewrites_land(files, rest);
        let ops = rewrite_ops(rest);
        lemma_changed_push(files, ops, OpView::Expect(last.path, last.read));
        lemma_changed_push(
            files,
            ops.push(OpView::Expect(last.path, last.read)),
            crate::files::write_text(last.path, last.text),
        );
        let before = changed_all(files, ops)->Ok_0;
        let after = crate::files::stored(before, last.path, FileView::Text(last.text));
        assert(changed_all(files, rewrite_ops(rewrites)) matches Ok(f) && f == after);
        assert forall|i: int| 0 <= i < rewrites.len() implies lookup(
            after,
            (#[trigger] rewrites[i]).path,
        ) == Some(FileView::Text(rewrites[i].text)) by {
            crate::files::law_stored(
                before,
                last.path,
                FileView::Text(last.text),
                rewrites[i].path,
            );
            if i < n {
                assert(rest[i] == rewrites[i]);
                assert(rewrites[i].path != rewrites[n].path);
            }
        }
        assert forall|path: Seq<char>| !rewrites_path(rewrites, path) implies #[trigger] lookup(
            after,
            path,
        ) == lookup(files, path) by {
            assert(rewrites[n].path != path);
            assert(!rewrites_path(rest, path)) by {
                if rewrites_path(rest, path) {
                    let i = choose|i: int|
                        0 <= i < rest.len() && (#[trigger] rest[i]).path == path;
                    assert(rewrites[i].path == path);
                }
            }
            crate::files::law_stored(before, last.path, FileView::Text(last.text), path);
        }
    }
}

/// What a walk has come to: documents that can be read, each once, and all of
/// them seen.
pub open spec fn walked(ws: WsView, seen: Seq<Seq<char>>, out: Seq<Seq<char>>) -> bool {
    &&& out.no_duplicates()
    &&& forall|i: int| 0 <= i < out.len() ==> seen.contains(#[trigger] out[i])
    &&& forall|i: int|
        0 <= i < out.len() ==> crate::workspace::loaded(ws.files, #[trigger] out[i]) is Ok
}

proof fn lemma_walked(
    ws: WsView,
    named: Option<Seq<NamedView>>,
    stack: Seq<Seq<char>>,
    seen: Seq<Seq<char>>,
    out: Seq<Seq<char>>,
)
    requires
        walked(ws, seen, out),
    ensures
        descent(ws, named, stack, seen, out).no_duplicates(),
        forall|i: int|
            0 <= i < descent(ws, named, stack, seen, out).len() ==> crate::workspace::loaded(
                ws.files,
                #[trigger] descent(ws, named, stack, seen, out)[i],
            ) is Ok,
        forall|i: int|
            0 <= i < out.len() ==> descent(ws, named, stack, seen, out).contains(
                #[trigger] out[i],
            ),
    decreases unseen(ws.files, seen), stack.len(),
{
    if stack.len() > 0 {
        let path = stack.last();
        let rest = stack.drop_last();
        crate::walk::lemma_unseen(ws.files, seen, path);
        let more = seen.push(path);
        assert forall|p: Seq<char>| seen.contains(p) implies #[trigger] more.contains(p) by {
            let i = choose|i: int| 0 <= i < seen.len() && seen[i] == p;
            assert(more[i] == p);
        }
        if seen.contains(path) {
            lemma_walked(ws, named, rest, seen, out);
        } else {
            match crate::walk::children_of(ws, named, path) {
                None => {
                    lemma_walked(ws, named, rest, more, out);
                },
                Some(children) => {
                    let longer = out.push(path);
                    assert(more.contains(path)) by {
                        assert(more[seen.len() as int] == path);
                    }
                    assert(walked(ws, more, longer)) by {
                        assert forall|i: int, j: int|
                            0 <= i < longer.len() && 0 <= j < longer.len() && i
                                != j implies longer[i] != longer[j] by {
                            if i < out.len() && j < out.len() {
                                assert(out[i] != out[j]);
                            } else if i < out.len() {
                                assert(seen.contains(out[i]));
                            } else {
                                assert(seen.contains(out[j]));
                            }
                        }
                        assert forall|i: int| 0 <= i < longer.len() implies more.contains(
                            #[trigger] longer[i],
                        ) by {
                            if i < out.len() {
                                assert(seen.contains(out[i]));
                            }
                        }
                        assert forall|i: int| 0 <= i < longer.len() implies crate::workspace::loaded(
                            ws.files,
                            #[trigger] longer[i],
                        ) is Ok by {
                            if i < out.len() {
                                assert(crate::workspace::loaded(ws.files, out[i]) is Ok);
                            }
                        }
                    }
                    lemma_walked(ws, named, rest + children, more, longer);
                    assert forall|i: int| 0 <= i < out.len() implies descent(
                        ws,
                        named,
                        stack,
                        seen,
                        out,
                    ).contains(#[trigger] out[i]) by {
                        assert(longer[i] == out[i]);
                    }
                },
            }
        }
    } else {
        assert forall|i: int| 0 <= i < out.len() implies out.contains(#[trigger] out[i]) by {}
    }
}

/// A walk down the spanning relation comes to documents that can be read, each
/// once, and to its start where that can be read.
pub proof fn law_walk(ws: WsView, named: Option<Seq<NamedView>>, root: Seq<char>)
    ensures
        ({
            let docs = descent(ws, named, seq![root], Seq::empty(), Seq::empty());
            &&& docs.no_duplicates()
            &&& forall|i: int|
                0 <= i < docs.len() ==> crate::workspace::loaded(ws.files, #[trigger] docs[i])
                    is Ok
            &&& crate::workspace::loaded(ws.files, root) is Ok ==> docs.contains(root)
        }),
{
    let none = Seq::<Seq<char>>::empty();
    lemma_walked(ws, named, seq![root], none, none);
    let stack = seq![root];
    assert(stack.last() == root);
    match crate::walk::children_of(ws, named, root) {
        Some(children) => {
            let one = none.push(root);
            assert(walked(ws, one, one)) by {
                assert(one[0] == root);
            }
            lemma_walked(ws, named, stack.drop_last() + children, one, one);
            assert(one[0] == root);
        },
        None => {},
    }
}

proof fn lemma_rewrites_among(
    ws: WsView,
    docs: Seq<Seq<char>>,
    moves: MovesView,
    movers: Movers,
)
    requires
        docs.no_duplicates(),
    ensures
        rewrites_among(ws, docs, moves, movers) matches Ok(rewrites) ==> distinct_paths(rewrites)
            && (forall|i: int|
            0 <= i < rewrites.len() ==> docs.contains((#[trigger] rewrites[i]).path)) && (
        forall|i: int|
            0 <= i < rewrites.len() ==> crate::workspace::loaded(
                ws.files,
                (#[trigger] rewrites[i]).path,
            ) is Ok) && (movers is Skip ==> forall|i: int|
            0 <= i < rewrites.len() ==> crate::maintain::landing(
                moves,
                (#[trigger] rewrites[i]).path,
            ) is None),
    decreases docs.len(),
{
    if docs.len() > 0 {
        let rest = docs.drop_last();
        let n = docs.len() - 1;
        assert(rest.no_duplicates());
        lemma_rewrites_among(ws, rest, moves, movers);
        match (rewrites_among(ws, rest, moves, movers), rewrites_among(ws, docs, moves, movers)) {
            (Ok(before), Ok(after)) => {
                assert forall|p: Seq<char>| rest.contains(p) implies #[trigger] docs.contains(
                    p,
                ) && p != docs[n] by {
                    let i = choose|i: int| 0 <= i < rest.len() && rest[i] == p;
                    assert(docs[i] == p);
                }
                assert(docs.contains(docs[n]));
                assert forall|i: int| 0 <= i < before.len() implies docs.contains(
                    (#[trigger] before[i]).path,
                ) && before[i].path != docs[n] by {
                    assert(rest.contains(before[i].path));
                }
                if after.len() > before.len() {
                    assert(after.drop_last() =~= before);
                    assert(after.last().path == docs[n]);
                    assert forall|i: int, j: int| 0 <= i < j < after.len() implies (
                    #[trigger] after[i]).path != (#[trigger] after[j]).path by {
                        assert(after[i] == before[i]);
                        if j < before.len() {
                            assert(after[j] == before[j]);
                        }
                    }
                    assert forall|i: int| 0 <= i < after.len() implies docs.contains(
                        (#[trigger] after[i]).path,
                    ) by {
                        if i < before.len() {
                            assert(after[i] == before[i]);
                        }
                    }
                    assert forall|i: int| 0 <= i < after.len() implies crate::workspace::loaded(
                        ws.files,
                        (#[trigger] after[i]).path,
                    ) is Ok by {
                        if i < before.len() {
                            assert(after[i] == before[i]);
                        }
                    }
                    if movers is Skip {
                        assert forall|i: int|
                            0 <= i < after.len() implies crate::maintain::landing(
                            moves,
                            (#[trigger] after[i]).path,
                        ) is None by {
                            if i < before.len() {
                                assert(after[i] == before[i]);
                            }
                        }
                    }
                } else {
                    assert(after =~= before);
                }
            },
            _ => {},
        }
    }
}

/// The documents that follow a move are documents of the workspace, each
/// rewritten once; those that move themselves are not among them, where they are
/// left out.
pub proof fn law_inbound_rewrites(ws: WsView, anchor: Seq<char>, moves: MovesView, movers: Movers)
    ensures
        crate::field::inbound_rewrites(ws, anchor, moves, movers) matches Ok(rewrites)
            ==> distinct_paths(rewrites) && (forall|i: int|
            0 <= i < rewrites.len() ==> crate::workspace::loaded(
                ws.files,
                (#[trigger] rewrites[i]).path,
            ) is Ok) && (movers is Skip ==> forall|i: int|
            0 <= i < rewrites.len() ==> crate::maintain::landing(
                moves,
                (#[trigger] rewrites[i]).path,
            ) is None),
{
    match crate::workspace::spanning_names(ws.relations) {
        Ok((_, inverse)) => {
            let root = crate::walk::root_of(ws, anchor, inverse);
            law_walk(ws, Some(crate::walk::all_named(ws.files)), root);
            lemma_rewrites_among(ws, crate::walk::surveyed(ws, root), moves, movers);
        },
        Err(_) => {},
    }
}

/// A file that the first change renames, and that no other change bears on, holds
/// what it held.
pub proof fn law_first_renamed(
    files: FileSeq,
    from: Seq<char>,
    to: Seq<char>,
    rest: Seq<OpView>,
    after: FileSeq,
)
    requires
        changed_all(files, seq![OpView::Rename(from, to)] + rest) matches Ok(f) && f == after,
        !any_touches(rest, to),
    ensures
        lookup(files, from) is Some,
        lookup(after, to) == lookup(files, from),
        from != to && !any_touches(rest, from) ==> lookup(after, from) is None,
{
    let first = seq![OpView::Rename(from, to)];
    lemma_changed_add(files, first, rest);
    let none = Seq::<OpView>::empty();
    assert(first =~= none.push(OpView::Rename(from, to)));
    lemma_changed_push(files, none, OpView::Rename(from, to));
    match lookup(files, from) {
        Some(d) => {
            let gone = crate::files::without(files, from);
            let moved = crate::files::stored(gone, to, d);
            assert(changed_all(files, first) matches Ok(f) && f == moved);
            crate::files::law_without(files, from, from);
            crate::files::law_stored(gone, to, d, from);
            law_untouched(moved, rest, to);
            if !any_touches(rest, from) {
                law_untouched(moved, rest, from);
            }
        },
        None => {
            assert(changed_all(files, first) is Err);
        },
    }
}

proof fn lemma_rewrites_cover(
    ws: WsView,
    docs: Seq<Seq<char>>,
    moves: MovesView,
    movers: Movers,
    j: int,
)
    requires
        docs.no_duplicates(),
        rewrites_among(ws, docs, moves, movers) is Ok,
        0 <= j < docs.len(),
        !(movers is Skip && crate::maintain::landing(moves, docs[j]) is Some),
    ensures
        rewrites_among(ws, docs, moves, movers) matches Ok(rewrites) && crate::workspace::loaded(
            ws.files,
            docs[j],
        ) matches Ok(read) && crate::field::followed(
            ws,
            docs[j],
            read,
            crate::field::moved_paths(ws.files, moves),
            moves,
        ) matches Ok(out) && (if out.0 == read.0 {
            !rewrites_path(rewrites, docs[j])
        } else {
            exists|r: int|
                0 <= r < rewrites.len() && #[trigger] rewrites[r] == (RewriteView {
                    path: docs[j],
                    read: read.0,
                    text: out.0,
                })
        }),
    decreases docs.len(),
{
    let rest = docs.drop_last();
    let n = docs.len() - 1;
    lemma_rewrites_among(ws, rest, moves, movers);
    let before = rewrites_among(ws, rest, moves, movers)->Ok_0;
    let after = rewrites_among(ws, docs, moves, movers)->Ok_0;
    if j < n {
        assert(rest[j] == docs[j]);
        lemma_rewrites_cover(ws, rest, moves, movers, j);
        let read = crate::workspace::loaded(ws.files, docs[j])->Ok_0;
        let out = crate::field::followed(
            ws,
            docs[j],
            read,
            crate::field::moved_paths(ws.files, moves),
            moves,
        )->Ok_0;
        if out.0 == read.0 {
            if rewrites_path(after, docs[j]) {
                let r = choose|r: int| 0 <= r < after.len() && (#[trigger] after[r]).path == docs[j];
                if r < before.len() {
                    assert(before[r] == after[r]);
                }
            }
        } else {
            let wanted = RewriteView { path: docs[j], read: read.0, text: out.0 };
            let r = choose|r: int| 0 <= r < before.len() && #[trigger] before[r] == wanted;
            assert(after[r] == wanted);
        }
    } else {
        let read = crate::workspace::loaded(ws.files, docs[j])->Ok_0;
        let out = crate::field::followed(
            ws,
            docs[j],
            read,
            crate::field::moved_paths(ws.files, moves),
            moves,
        )->Ok_0;
        if out.0 == read.0 {
            if rewrites_path(after, docs[j]) {
                let r = choose|r: int| 0 <= r < after.len() && (#[trigger] after[r]).path == docs[j];
                assert(rest.contains(before[r].path));
                let s = choose|s: int| 0 <= s < rest.len() && rest[s] == before[r].path;
                assert(docs[s] == docs[j]);
            }
        } else {
            assert(after[before.len() as int] == (RewriteView {
                path: docs[j],
                read: read.0,
                text: out.0,
            }));
        }
    }
}

proof fn lemma_retargeted_reads(
    ws: WsView,
    source: Seq<char>,
    read: crate::field::Read,
    relations: Seq<crate::relation::RelationView>,
    from: Seq<char>,
    to: Seq<char>,
)
    requires
        crate::document::parsed(source, read.0) == Some(read.1),
    ensures
        crate::field::retargeted_all(ws, source, read, relations, from, to) matches Ok(out)
            ==> crate::document::parsed(source, out.0) == Some(out.1),
    decreases relations.len(),
{
    if relations.len() > 0 {
        lemma_retargeted_reads(ws, source, read, relations.drop_last(), from, to);
    }
}

/// What a document that follows a move is taken to be is what its new text says.
pub proof fn law_followed_reads(
    ws: WsView,
    source: Seq<char>,
    read: crate::field::Read,
    moved: Seq<Seq<char>>,
    moves: MovesView,
)
    requires
        crate::document::parsed(source, read.0) == Some(read.1),
    ensures
        crate::field::followed(ws, source, read, moved, moves) matches Ok(out)
            ==> crate::document::parsed(source, out.0) == Some(out.1),
    decreases moved.len(),
{
    if moved.len() > 0 {
        law_followed_reads(ws, source, read, moved.drop_last(), moves);
        match (
            crate::field::followed(ws, source, read, moved.drop_last(), moves),
            crate::maintain::landing(moves, moved.last()),
        ) {
            (Ok(before), Some(to)) => {
                let from = moved.last();
                let text = crate::maintain::body_inbound(
                    before.0,
                    before.1.body,
                    source,
                    from,
                    to,
                    ws.settings.references.path_style,
                );
                lemma_retargeted_reads(ws, source, before, ws.relations.relations, from, to);
                match crate::field::reread(source, text) {
                    Ok(again) => {
                        lemma_retargeted_reads(
                            ws,
                            source,
                            again,
                            ws.relations.relations,
                            from,
                            to,
                        );
                    },
                    Err(_) => {},
                }
            },
            _ => {},
        }
    }
}

/// Every document that a survey covers follows a move: it is rewritten to the text
/// that follows it, and left alone where that is the text it has.
pub proof fn law_survey_follows(
    ws: WsView,
    anchor: Seq<char>,
    inverse: Seq<char>,
    moves: MovesView,
    movers: Movers,
    source: Seq<char>,
)
    requires
        crate::workspace::spanning_names(ws.relations) matches Ok((_, v)) && v == inverse,
        crate::field::inbound_rewrites(ws, anchor, moves, movers) is Ok,
        crate::walk::surveyed(ws, crate::walk::root_of(ws, anchor, inverse)).contains(source),
        !(movers is Skip && crate::maintain::landing(moves, source) is Some),
    ensures
        crate::field::inbound_rewrites(ws, anchor, moves, movers) matches Ok(rewrites)
            && crate::workspace::loaded(ws.files, source) matches Ok(read)
            && crate::field::followed(
            ws,
            source,
            read,
            crate::field::moved_paths(ws.files, moves),
            moves,
        ) matches Ok(out) && (if out.0 == read.0 {
            !rewrites_path(rewrites, source)
        } else {
            exists|r: int|
                0 <= r < rewrites.len() && #[trigger] rewrites[r] == (RewriteView {
                    path: source,
                    read: read.0,
                    text: out.0,
                })
        }),
{
    let root = crate::walk::root_of(ws, anchor, inverse);
    let docs = crate::walk::surveyed(ws, root);
    law_walk(ws, Some(crate::walk::all_named(ws.files)), root);
    let j = choose|j: int| 0 <= j < docs.len() && docs[j] == source;
    lemma_rewrites_cover(ws, docs, moves, movers, j);
}

/// What is asked of a reference for it to follow a move: it is the path of another
/// document, which is among what moves where it moves, and it can be respelled to
/// reach where that goes.
pub open spec fn can_follow(
    ws: WsView,
    source: Seq<char>,
    name: Seq<char>,
    raw: Seq<char>,
    moved: Seq<Seq<char>>,
    moves: MovesView,
) -> bool {
    let target = crate::link::parse_link(raw).target;
    let place = crate::link::resolve_path(source, target);
    &&& crate::link::is_path_target(target)
    &&& place != source
    &&& crate::maintain::landing(moves, place) matches Some(gone) ==> moved.contains(place)
        && crate::follow::can_reach(raw, crate::follow::field_style(ws, name), source, gone)
}

/// Where a path reference of a document leads.
pub open spec fn place_of(source: Seq<char>, raw: Seq<char>) -> Seq<char> {
    crate::link::resolve_path(source, crate::link::parse_link(raw).target)
}

/// A document that a survey covers, as it reads when the rewrites have landed, holds
/// at every place of every relation a reference that reaches what the one before it
/// reached, or where that has gone; where it reads as its edits describe.
pub proof fn law_follows_reading(
    ws: WsView,
    anchor: Seq<char>,
    inverse: Seq<char>,
    moves: MovesView,
    movers: Movers,
    source: Seq<char>,
    after: FileSeq,
    i: int,
    k: int,
)
    requires
        crate::workspace::spanning_names(ws.relations) matches Ok((_, v)) && v == inverse,
        crate::walk::surveyed(ws, crate::walk::root_of(ws, anchor, inverse)).contains(source),
        !(movers is Skip && crate::maintain::landing(moves, source) is Some),
        crate::field::inbound_rewrites(ws, anchor, moves, movers) matches Ok(rewrites) && (
        forall|r: int|
            0 <= r < rewrites.len() && (#[trigger] rewrites[r]).path == source ==> lookup(
                after,
                source,
            ) == Some(FileView::Text(rewrites[r].text))) && (!rewrites_path(rewrites, source)
            ==> lookup(after, source) == lookup(ws.files, source)),
        crate::follow::distinct_names(ws.relations.relations),
        crate::follow::settles(crate::field::moved_paths(ws.files, moves), moves),
        0 <= i < ws.relations.relations.len(),
        ({
            let moved = crate::field::moved_paths(ws.files, moves);
            let read = crate::workspace::loaded(ws.files, source)->Ok_0;
            let out = crate::field::followed(ws, source, read, moved, moves)->Ok_0;
            let name = ws.relations.relations[i].name;
            let raws = crate::meta::links_at(read.1.meta, name);
            &&& out.1.meta == crate::follow::followed_meta(ws, source, read.1.meta, moved, moves)
            &&& 0 <= k < raws.len()
            &&& can_follow(ws, source, name, raws[k], moved, moves)
        }),
    ensures
        ({
            let name = ws.relations.relations[i].name;
            let read = crate::workspace::loaded(ws.files, source)->Ok_0;
            let raws = crate::meta::links_at(read.1.meta, name);
            crate::workspace::loaded(after, source) matches Ok((_, now)) && k
                < crate::meta::links_at(now.meta, name).len() && crate::follow::reaches(
                crate::meta::links_at(now.meta, name)[k],
                raws[k],
                source,
                crate::maintain::landing_or_same(moves, place_of(source, raws[k])),
            )
        }),
{
    let moved = crate::field::moved_paths(ws.files, moves);
    let rewrites = crate::field::inbound_rewrites(ws, anchor, moves, movers)->Ok_0;
    law_survey_follows(ws, anchor, inverse, moves, movers, source);
    let read = crate::workspace::loaded(ws.files, source)->Ok_0;
    let out = crate::field::followed(ws, source, read, moved, moves)->Ok_0;
    law_followed_reads(ws, source, read, moved, moves);
    crate::follow::law_followed_document(ws, source, read.1.meta, moved, moves, i, k);
    if out.0 != read.0 {
        let wanted = RewriteView { path: source, read: read.0, text: out.0 };
        let r = choose|r: int| 0 <= r < rewrites.len() && #[trigger] rewrites[r] == wanted;
        assert(rewrites[r].path == source);
    }
}

/// Changes that only write keep what is there there.
pub proof fn law_writes_keep(files: FileSeq, ops: Seq<OpView>, path: Seq<char>)
    requires
        forall|i: int|
            0 <= i < ops.len() ==> !((#[trigger] ops[i]) is Remove) && !(ops[i] is Rename),
        lookup(files, path) is Some,
    ensures
        changed_all(files, ops) matches Ok(after) && lookup(after, path) is Some,
    decreases ops.len(),
{
    if ops.len() > 0 {
        let rest = ops.drop_last();
        assert forall|i: int| 0 <= i < rest.len() implies !((#[trigger] rest[i]) is Remove) && !(
        rest[i] is Rename) by {
            assert(rest[i] == ops[i]);
        }
        law_writes_keep(files, rest, path);
        assert(!(ops[ops.len() - 1] is Remove) && !(ops[ops.len() - 1] is Rename));
        let f = changed_all(files, rest)->Ok_0;
        match ops.last() {
            OpView::Write(p, d) => {
                crate::files::law_stored(f, p, d, path);
            },
            _ => {},
        }
    }
}

/// Rewrites only write.
pub proof fn lemma_rewrites_write(rewrites: Seq<RewriteView>)
    ensures
        forall|i: int|
            0 <= i < rewrite_ops(rewrites).len() ==> !((#[trigger] rewrite_ops(rewrites)[i])
                is Remove) && !(rewrite_ops(rewrites)[i] is Rename),
    decreases rewrites.len(),
{
    if rewrites.len() > 0 {
        lemma_rewrites_write(rewrites.drop_last());
        let before = rewrite_ops(rewrites.drop_last());
        assert forall|i: int| 0 <= i < rewrite_ops(rewrites).len() implies !((
        #[trigger] rewrite_ops(rewrites)[i]) is Remove) && !(rewrite_ops(rewrites)[i]
            is Rename) by {
            if i < before.len() {
                assert(rewrite_ops(rewrites)[i] == before[i]);
            }
        }
    }
}

/// Whether a change is a write at one of the paths, or no change to a file.
pub open spec fn writes_at(op: OpView, paths: Seq<Seq<char>>) -> bool {
    match op {
        OpView::Expect(_, _) | OpView::ExpectAbsent(_) => true,
        OpView::Write(p, _) => paths.contains(p),
        _ => false,
    }
}

/// Whether the changes write at these paths alone.
pub open spec fn only_writes(ops: Seq<OpView>, paths: Seq<Seq<char>>) -> bool {
    forall|i: int| 0 <= i < ops.len() ==> writes_at(#[trigger] ops[i], paths)
}

/// Changes that write at some paths leave every other file as it was, and every file
/// there.
pub proof fn law_only_writes(
    files: FileSeq,
    ops: Seq<OpView>,
    paths: Seq<Seq<char>>,
    path: Seq<char>,
)
    requires
        only_writes(ops, paths),
    ensures
        changed_all(files, ops) matches Ok(after) && (!paths.contains(path) ==> lookup(after, path)
            == lookup(files, path)) && (lookup(files, path) is Some ==> lookup(after, path) is Some),
    decreases ops.len(),
{
    if ops.len() > 0 {
        let rest = ops.drop_last();
        assert forall|i: int| 0 <= i < rest.len() implies writes_at(#[trigger] rest[i], paths) by {
            assert(writes_at(ops[i], paths));
        }
        law_only_writes(files, rest, paths, path);
        assert(writes_at(ops[ops.len() - 1], paths));
        match ops.last() {
            OpView::Write(p, d) => {
                crate::files::law_stored(changed_all(files, rest)->Ok_0, p, d, path);
            },
            _ => {},
        }
    }
}

/// A workspace stays whole but for some documents: every other file is as it was,
/// every file that was there is there, every identifier that led to a path leads
/// there, and the workspace starts where it did. So every reference of every other document leads where it led, and there is
/// a file there where there was one.
pub open spec fn stays_whole(ws: WsView, after: WsView, written: Seq<Seq<char>>) -> bool {
    &&& forall|q: Seq<char>|
        !written.contains(q) ==> #[trigger] lookup(after.files, q) == lookup(ws.files, q)
    &&& forall|q: Seq<char>|
        lookup(ws.files, q) is Some ==> #[trigger] lookup(after.files, q) is Some
    &&& crate::registry::keeps_paths(ws.ids, after.ids)
    &&& after.name == ws.name
    &&& after.relations == ws.relations
    &&& after.root == ws.root
    &&& after.parked == ws.parked
}

/// In a workspace that stays whole, a document that was not written reads as it did,
/// and each of its references, by path or by identifier, leads where it led; there is
/// a file there where there was one.
pub proof fn law_whole_leads(
    ws: WsView,
    after: WsView,
    written: Seq<Seq<char>>,
    source: Seq<char>,
    raw: Seq<char>,
)
    requires
        stays_whole(ws, after, written),
    ensures
        !written.contains(source) ==> crate::workspace::loaded(after.files, source)
            == crate::workspace::loaded(ws.files, source),
        crate::workspace::reference_path(ws.ids, ws.name, source, raw) matches Some(place)
            ==> crate::workspace::reference_path(after.ids, after.name, source, raw) == Some(place)
            && (lookup(ws.files, place) is Some ==> lookup(after.files, place) is Some),
{
    assert(lookup(after.files, source) == lookup(after.files, source));
    match crate::workspace::reference_path(ws.ids, ws.name, source, raw) {
        Some(place) => {
            assert(lookup(after.files, place) == lookup(after.files, place));
        },
        None => {},
    }
}

proof fn lemma_rewrites_inside(
    ws: WsView,
    docs: Seq<Seq<char>>,
    moves: MovesView,
    movers: Movers,
)
    ensures
        crate::field::rewrites_among(ws, docs, moves, movers) matches Ok(rewrites) ==> forall|r: int|
            0 <= r < rewrites.len() ==> docs.contains((#[trigger] rewrites[r]).path),
    decreases docs.len(),
{
    if docs.len() > 0 {
        let rest = docs.drop_last();
        lemma_rewrites_inside(ws, rest, moves, movers);
        assert(docs[docs.len() - 1] == docs.last());
        match (
            crate::field::rewrites_among(ws, rest, moves, movers),
            crate::field::rewrites_among(ws, docs, moves, movers),
        ) {
            (Ok(few), Ok(all)) => {
                assert forall|r: int| 0 <= r < all.len() implies docs.contains(
                    (#[trigger] all[r]).path,
                ) by {
                    if r < few.len() {
                        assert(all[r] == few[r]);
                        assert(rest.contains(few[r].path));
                        let j = choose|j: int| 0 <= j < rest.len() && rest[j] == few[r].path;
                        assert(docs[j] == rest[j]);
                    }
                }
            },
            _ => {},
        }
    }
}

/// Only documents that a survey covers are rewritten.
pub proof fn law_rewritten_are_surveyed(
    ws: WsView,
    anchor: Seq<char>,
    inverse: Seq<char>,
    moves: MovesView,
    movers: Movers,
)
    requires
        crate::workspace::spanning_names(ws.relations) matches Ok((_, v)) && v == inverse,
    ensures
        crate::field::inbound_rewrites(ws, anchor, moves, movers) matches Ok(rewrites) ==> forall|
            r: int,
        |
            0 <= r < rewrites.len() ==> crate::walk::surveyed(
                ws,
                crate::walk::root_of(ws, anchor, inverse),
            ).contains((#[trigger] rewrites[r]).path),
{
    lemma_rewrites_inside(
        ws,
        crate::walk::surveyed(ws, crate::walk::root_of(ws, anchor, inverse)),
        moves,
        movers,
    );
}

} // verus!
