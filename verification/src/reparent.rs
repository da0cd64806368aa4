//! A new parent for a document, in place of the one before.

use crate::adopt::{both_linked, has_child, pairing_fault, unlinked_down};
use crate::change::{ChangeSet, ChangeView};
use crate::document::Document;
use crate::error::{Error, Fault};
use crate::path::opt_text;
use crate::text::same_text;
use crate::workspace::{Outcome, Workspace, WsView};
use vstd::prelude::*;

verus! {

/// What became of a document that was given a parent.
#[derive(Debug, Clone, Copy, PartialEq, Eq, Structural)]
pub enum Reparented {
    /// It has another parent.
    Moved,
    /// It named this parent, which now names it.
    Linked,
    /// Nothing: the two named each other.
    Unchanged,
}

/// The parent that a document leaves, as it reads at that point: what was
/// written to the document itself counts.
pub open spec fn left_read(
    ws: WsView,
    left: Seq<char>,
    child: Seq<char>,
    updated: Option<Seq<char>>,
) -> Outcome<(Seq<char>, crate::document::DocView)> {
    match updated {
        Some(text) => if left == child {
            crate::field::reread(child, text)
        } else {
            crate::workspace::loaded(ws.files, left)
        },
        None => crate::workspace::loaded(ws.files, left),
    }
}

/// The changes with the parent that a document leaves letting go of it. One that
/// is missing has nothing to let go of.
pub open spec fn let_go(
    ws: WsView,
    cs: ChangeView,
    left: Seq<char>,
    child: Seq<char>,
    updated: Option<Seq<char>>,
    spanning: Seq<char>,
) -> Outcome<ChangeView> {
    match left_read(ws, left, child, updated) {
        Err(Fault::NotFound(_)) => Ok(cs),
        Err(e) => Err(e),
        Ok(read) => match unlinked_down(ws, spanning, left, read, child) {
            Err(e) => Err(e),
            Ok(None) => Ok(cs),
            Ok(Some(text)) => Ok(cs.with(crate::files::write_text(left, text))),
        },
    }
}

/// The changes that give a document another parent, and what becomes of it; or
/// why there are none.
pub open spec fn drafted_reparenting(ws: WsView, child: Seq<char>, parent: Seq<char>) -> Outcome<
    (ChangeView, Reparented),
> {
    let child = crate::path::normalized(child);
    let parent = crate::path::normalized(parent);
    match pairing_fault(ws, child, parent) {
        Some(e) => Err(e),
        None => match crate::workspace::spanning_names(ws.relations) {
            Err(e) => Err(e),
            Ok((spanning, inverse)) => if crate::walk::ascent(
                ws,
                inverse,
                parent,
                Seq::empty(),
            ).0.contains(child) {
                Err(Fault::WouldDetach(child, parent))
            } else {
                match (
                    crate::workspace::loaded(ws.files, child),
                    crate::workspace::loaded(ws.files, parent),
                ) {
                    (Err(e), _) => Err(e),
                    (_, Err(e)) => Err(e),
                    (Ok(child_read), Ok(parent_read)) => {
                        let before = crate::workspace::single_path(
                            ws,
                            child_read.1,
                            inverse,
                            child,
                        );
                        let up = before == Some(parent);
                        let down = has_child(ws, parent_read.1, parent, child);
                        if up && down {
                            Ok((crate::change::no_change(ws), Reparented::Unchanged))
                        } else {
                            match both_linked(
                                ws,
                                child,
                                child_read,
                                up,
                                parent,
                                parent_read,
                                down,
                            ) {
                                Err(e) => Err(e),
                                Ok((updated, cs)) => {
                                    let what = if up {
                                        Reparented::Linked
                                    } else {
                                        Reparented::Moved
                                    };
                                    match before {
                                        Some(left) => if left == parent {
                                            Ok((cs, what))
                                        } else {
                                            match let_go(ws, cs, left, child, updated, spanning) {
                                                Ok(cs) => Ok((cs, what)),
                                                Err(e) => Err(e),
                                            }
                                        },
                                        None => Ok((cs, what)),
                                    }
                                },
                            }
                        }
                    },
                }
            },
        },
    }
}

/// The changes that give a document another parent, with what carries its
/// identifier itself, and what becomes of it; or why there are none.
pub open spec fn reparenting(ws: WsView, child: Seq<char>, parent: Seq<char>) -> Outcome<(ChangeView, Reparented)> {
    crate::change::with_stamps(ws, drafted_reparenting(ws, child, parent))
}

impl Workspace {
    fn read_left(&self, left: &str, child: &str, updated: &Option<String>) -> (r: Result<
        (String, Document),
        Error,
    >)
        ensures
            crate::workspace::told_doc(r) == left_read(
                self@,
                left@,
                child@,
                opt_text(*updated),
            ),
    {
        match updated {
            Some(text) => if same_text(left, child) {
                crate::field::read_again(child, text.clone())
            } else {
                self.load(left)
            },
            None => self.load(left),
        }
    }

    fn release(
        &self,
        cs: &mut ChangeSet,
        left: &str,
        child: &str,
        updated: &Option<String>,
        spanning: &str,
    ) -> (r: Result<(), Error>)
        ensures
            ({
                let out = let_go(self@, old(cs)@, left@, child@, opt_text(*updated), spanning@);
                match r {
                    Ok(_) => out matches Ok(c) && c == final(cs)@,
                    Err(e) => out matches Err(f) && f == crate::error::fault(e),
                }
            }),
    {
        match self.read_left(left, child, updated) {
            Err(Fault::NotFound(_)) => Ok(()),
            Err(e) => Err(e),
            Ok((text, doc)) => match self.unlink_down(spanning, left, &text, &doc, child) {
                Err(e) => Err(e),
                Ok(None) => Ok(()),
                Ok(Some(out)) => {
                    cs.write(left, &out);
                    Ok(())
                },
            },
        }
    }

    fn draft_reparent(&self, child: &str, parent: &str) -> (r: Result<
        (ChangeSet, Reparented),
        Error,
    >)
        ensures
            ({
                let plan = drafted_reparenting(self@, child@, parent@);
                match r {
                    Ok((cs, what)) => plan matches Ok((c, w)) && c == cs@ && w == what,
                    Err(e) => plan matches Err(f) && f == crate::error::fault(e),
                }
            }),
    {
        let child = crate::path::normalize(child);
        let parent = crate::path::normalize(parent);
        match self.pairing_refusal(&child, &parent) {
            Some(e) => {
                return Err(e);
            },
            None => {},
        }
        let (spanning, inverse) = match self.spanning_pair() {
            Ok(pair) => pair,
            Err(e) => {
                return Err(e);
            },
        };
        let (rungs, _) = self.climb(&parent, &inverse);
        if crate::walk::among(&rungs, &child) {
            return Err(Fault::WouldDetach(child, parent));
        }
        let child_read = match self.load(&child) {
            Ok(read) => read,
            Err(e) => {
                return Err(e);
            },
        };
        let parent_read = match self.load(&parent) {
            Ok(read) => read,
            Err(e) => {
                return Err(e);
            },
        };
        let before = self.single_target(&child_read.1, &inverse, &child);
        let up = match &before {
            Some(p) => same_text(p, &parent),
            None => false,
        };
        let down = self.contains(&parent_read.1, &parent, &child);
        if up && down {
            return Ok((self.change(), Reparented::Unchanged));
        }
        let (updated, mut cs) = match self.link_both(
            &child,
            &child_read,
            up,
            &parent,
            &parent_read,
            down,
        ) {
            Ok(linked) => linked,
            Err(e) => {
                return Err(e);
            },
        };
        match &before {
            Some(left) => if !up {
                match self.release(&mut cs, left, &child, &updated, &spanning) {
                    Ok(_) => {},
                    Err(e) => {
                        return Err(e);
                    },
                }
            },
            None => {},
        }
        Ok(
            (
                cs,
                if up {
                    Reparented::Linked
                } else {
                    Reparented::Moved
                },
            ),
        )
    }

    /// The changes that give a document another parent, and what becomes of it.
    pub fn plan_reparent(&self, child: &str, parent: &str) -> (r: Result<
        (ChangeSet, Reparented),
        Error,
    >)
        ensures
            ({
                let plan = reparenting(self@, child@, parent@);
                match r {
                    Ok((cs, what)) => plan matches Ok((c, w)) && c == cs@ && w == what,
                    Err(e) => plan matches Err(f) && f == crate::error::fault(e),
                }
            }),
    {
        match self.draft_reparent(child, parent) {
            Ok((cs, what)) => match self.stamp_ids(cs) {
                Ok(cs) => Ok((cs, what)),
                Err(e) => Err(e),
            },
            Err(e) => Err(e),
        }
    }

    /// Gives a document a parent in place of the one it names. A parent that the
    /// document contains is refused. A refusal changes nothing.
    pub fn reparent(&mut self, child: &str, parent: &str) -> (r: Result<Reparented, Error>)
        ensures
            ({
                let done = crate::change::carried_out(
                    old(self)@,
                    reparenting(old(self)@, child@, parent@),
                );
                match r {
                    Ok(what) => done matches Ok((after, w)) && after == final(self)@ && w == what,
                    Err(e) => done matches Err(f) && f == crate::error::fault(e) && *final(self)
                        == *old(self),
                }
            }),
    {
        match self.plan_reparent(child, parent) {
            Ok((cs, what)) => match self.commit(cs) {
                Ok(_) => Ok(what),
                Err(e) => Err(e),
            },
            Err(e) => Err(e),
        }
    }
}

/// Where nothing becomes of a document, nothing is changed.
pub proof fn law_reparent_unchanged(ws: WsView, child: Seq<char>, parent: Seq<char>)
    requires
        reparenting(ws, child, parent) matches Ok((_, what)) && what is Unchanged,
    ensures
        crate::change::carried_out(ws, reparenting(ws, child, parent)) matches Ok((after, _))
            && after == ws,
{
}

/// The documents that a new parent for a document is written in: the two, and the
/// parent that the document leaves.
pub open spec fn reparent_written(ws: WsView, child: Seq<char>, parent: Seq<char>) -> Seq<
    Seq<char>,
> {
    match (
        crate::workspace::spanning_names(ws.relations),
        crate::workspace::loaded(ws.files, child),
    ) {
        (Ok((_, inverse)), Ok((_, doc))) => match crate::workspace::single_path(
            ws,
            doc,
            inverse,
            child,
        ) {
            Some(left) => seq![child, parent, left],
            None => seq![child, parent],
        },
        _ => seq![child, parent],
    }
}

proof fn lemma_drafted(ws: WsView, child: Seq<char>, parent: Seq<char>)
    requires
        crate::registry::is_sound(ws.ids),
    ensures
        drafted_reparenting(ws, child, parent) matches Ok((cs, _)) ==> {
            let c = crate::path::normalized(child);
            let p = crate::path::normalized(parent);
            let paths = reparent_written(ws, c, p);
            &&& crate::landing::only_writes(cs.ops, paths)
            &&& forall|i: int|
                0 <= i < cs.fresh.len() ==> seq![c, p].contains(#[trigger] cs.fresh[i])
                    && paths.contains(cs.fresh[i])
            &&& crate::registry::keeps_paths(ws.ids, cs.ids)
            &&& crate::registry::is_sound(cs.ids)
        },
{
    let c = crate::path::normalized(child);
    let p = crate::path::normalized(parent);
    let two = seq![c, p];
    let paths = reparent_written(ws, c, p);
    assert(two[0] == c && two[1] == p);
    assert(paths[0] == c && paths[1] == p);
    assert(paths.contains(c) && paths.contains(p));
    match (
        crate::workspace::spanning_names(ws.relations),
        crate::workspace::loaded(ws.files, c),
        crate::workspace::loaded(ws.files, p),
    ) {
        (Ok((spanning, inverse)), Ok(child_read), Ok(parent_read)) => {
            let before = crate::workspace::single_path(ws, child_read.1, inverse, c);
            let up = before == Some(p);
            let down = has_child(ws, parent_read.1, p, c);
            crate::adopt::lemma_both_linked(ws, c, child_read, up, p, parent_read, down);
            match both_linked(ws, c, child_read, up, p, parent_read, down) {
                Ok((_, first)) => {
                    assert forall|i: int| 0 <= i < first.ops.len() implies crate::landing::writes_at(
                        #[trigger] first.ops[i],
                        paths,
                    ) by {
                        assert(crate::landing::writes_at(first.ops[i], two));
                    }
                    assert forall|i: int| 0 <= i < first.fresh.len() implies two.contains(
                        #[trigger] first.fresh[i],
                    ) && paths.contains(first.fresh[i]) by {}
                    match before {
                        Some(left) => {
                            assert(paths[2] == left);
                            assert(paths.contains(left));
                        },
                        None => {},
                    }
                },
                Err(_) => {},
            }
        },
        _ => {},
    }
}

/// A new parent for a document leaves a workspace whole but for the two and the parent
/// that is left: every other file is as it was, none is gone, and every identifier
/// leads where it led.
pub proof fn law_reparent_stays_whole(
    ws: WsView,
    child: Seq<char>,
    parent: Seq<char>,
    after: WsView,
)
    requires
        crate::registry::is_sound(ws.ids),
        reparenting(ws, child, parent) matches Ok((cs, _)) && crate::change::landed(ws, cs)
            matches Ok(w) && w == after,
    ensures
        crate::landing::stays_whole(
            ws,
            after,
            reparent_written(
                ws,
                crate::path::normalized(child),
                crate::path::normalized(parent),
            ),
        ),
        crate::registry::is_sound(after.ids),
{
    lemma_drafted(ws, child, parent);
    crate::change::lemma_written_stays_whole(
        ws,
        drafted_reparenting(ws, child, parent),
        reparent_written(ws, crate::path::normalized(child), crate::path::normalized(parent)),
        after,
    );
}

/// The parent that a document leaves loses its first entry for it, and nothing else.
/// One that is missing is no reason to refuse.
pub proof fn law_reparent_lets_go(
    ws: WsView,
    child: Seq<char>,
    parent: Seq<char>,
    after: WsView,
    left: Seq<char>,
)
    requires
        crate::registry::is_sound(ws.ids),
        reparenting(ws, child, parent) matches Ok((cs, _)) && crate::change::landed(ws, cs)
            matches Ok(w) && w == after,
        left != crate::path::normalized(child),
        left != crate::path::normalized(parent),
        crate::workspace::spanning_names(ws.relations) matches Ok((_, inverse))
            && crate::workspace::loaded(ws.files, crate::path::normalized(child)) matches Ok((_, doc))
            && crate::workspace::single_path(ws, doc, inverse, crate::path::normalized(child))
            == Some(left),
    ensures
        crate::files::lookup(ws.files, left) is None ==> crate::files::lookup(after.files, left)
            is None,
        crate::workspace::loaded(ws.files, left) matches Ok(read) ==> (
        crate::workspace::spanning_names(ws.relations) matches Ok((spanning, _)) && unlinked_down(
            ws,
            spanning,
            left,
            read,
            crate::path::normalized(child),
        ) matches Ok(out) && crate::files::lookup(after.files, left) == (match out {
            Some(text) => Some(crate::files::FileView::Text(text)),
            None => crate::files::lookup(ws.files, left),
        })),
{
    let c = crate::path::normalized(child);
    let p = crate::path::normalized(parent);
    let (spanning, inverse) = crate::workspace::spanning_names(ws.relations)->Ok_0;
    let child_read = crate::workspace::loaded(ws.files, c)->Ok_0;
    let parent_read = crate::workspace::loaded(ws.files, p)->Ok_0;
    let down = has_child(ws, parent_read.1, p, c);
    let (drafted, _) = drafted_reparenting(ws, child, parent)->Ok_0;
    let cs = (reparenting(ws, child, parent)->Ok_0).0;
    lemma_drafted(ws, child, parent);
    crate::adopt::lemma_both_linked(ws, c, child_read, false, p, parent_read, down);
    let (updated, first) = both_linked(ws, c, child_read, false, p, parent_read, down)->Ok_0;
    assert(!seq![c, p].contains(left));
    assert(!drafted.fresh.contains(left)) by {
        if drafted.fresh.contains(left) {
            let i = choose|i: int| 0 <= i < drafted.fresh.len() && drafted.fresh[i] == left;
            assert(seq![c, p].contains(drafted.fresh[i]));
        }
    }
    if ws.settings.id_storage.stamps() {
        crate::change::lemma_stamped_ops(ws, drafted, drafted.fresh, left);
    } else {
        assert(drafted.ops.take(drafted.ops.len() as int) =~= drafted.ops);
    }
    let n = drafted.ops.len() as int;
    let rest = cs.ops.skip(n);
    assert(cs.ops =~= drafted.ops + rest);
    crate::landing::lemma_changed_add(ws.files, drafted.ops, rest);
    assert(!crate::landing::any_touches(rest, left)) by {
        if crate::landing::any_touches(rest, left) {
            let i = choose|i: int|
                0 <= i < rest.len() && crate::landing::touches(#[trigger] rest[i], left);
            assert(rest[i] == cs.ops[i + n]);
        }
    }
    crate::landing::law_only_writes(ws.files, first.ops, seq![c, p], left);
    let f1 = crate::files::changed_all(ws.files, first.ops)->Ok_0;
    match let_go(ws, first, left, c, updated, spanning) {
        Ok(out) => {
            if out.ops != first.ops {
                let text = unlinked_down(
                    ws,
                    spanning,
                    left,
                    left_read(ws, left, c, updated)->Ok_0,
                    c,
                )->Ok_0->Some_0;
                crate::landing::lemma_changed_push(
                    ws.files,
                    first.ops,
                    crate::files::write_text(left, text),
                );
                crate::files::law_stored(
                    f1,
                    left,
                    crate::files::FileView::Text(text),
                    left,
                );
            }
        },
        Err(_) => {},
    }
    let f2 = crate::files::changed_all(ws.files, drafted.ops)->Ok_0;
    crate::landing::law_untouched(f2, rest, left);
}

/// Whether every document but one names the parent that it named.
pub open spec fn climbs_as(ws: WsView, after: WsView, inverse: Seq<char>, child: Seq<char>) -> bool {
    forall|q: Seq<char>|
        q != child ==> #[trigger] crate::walk::up_from(after, inverse, q) == crate::walk::up_from(
            ws,
            inverse,
            q,
        )
}

proof fn lemma_climb(
    ws: WsView,
    after: WsView,
    inverse: Seq<char>,
    child: Seq<char>,
    current: Seq<char>,
    seen: Seq<Seq<char>>,
)
    requires
        climbs_as(ws, after, inverse, child),
        !crate::walk::ascent(ws, inverse, current, seen).0.contains(child),
    ensures
        crate::walk::ascent(after, inverse, current, seen) == crate::walk::ascent(
            ws,
            inverse,
            current,
            seen,
        ),
    decreases crate::walk::unseen(ws.files, seen),
{
    if !seen.contains(current) {
        crate::walk::lemma_unseen(ws.files, seen, current);
        let more = seen.push(current);
        assert(more[seen.len() as int] == current);
        match crate::walk::up_from(ws, inverse, current) {
            None => {
                assert(more.contains(current));
            },
            Some(next) => {
                lemma_climb_keeps(ws, inverse, next, more, seen.len() as int);
                assert(crate::walk::ascent(ws, inverse, current, seen).0.contains(current));
                lemma_climb(ws, after, inverse, child, next, more);
            },
        }
    }
}

proof fn lemma_climb_keeps(
    ws: WsView,
    inverse: Seq<char>,
    current: Seq<char>,
    seen: Seq<Seq<char>>,
    i: int,
)
    requires
        0 <= i < seen.len(),
    ensures
        crate::walk::ascent(ws, inverse, current, seen).0.contains(seen[i]),
    decreases crate::walk::unseen(ws.files, seen),
{
    let more = seen.push(current);
    assert(more[i] == seen[i]);
    if !seen.contains(current) {
        crate::walk::lemma_unseen(ws.files, seen, current);
        match crate::walk::up_from(ws, inverse, current) {
            None => {
                assert(more.contains(seen[i]));
            },
            Some(next) => {
                lemma_climb_keeps(ws, inverse, next, more, i);
            },
        }
    }
}

/// After a document got a parent the two lead to each other, and to give it that
/// parent again changes nothing. The links are authored by path or by plain
/// identifier, and the documents read as their edits describe: the two by the links
/// they got, and every other one by the parent it named.
#[verifier::spinoff_prover]
#[verifier::rlimit(40)]
pub proof fn law_reparent_links(ws: WsView, child: Seq<char>, parent: Seq<char>, after: WsView)
    requires
        crate::registry::is_sound(ws.ids),
        reparenting(ws, child, parent) matches Ok((cs, _)) && crate::change::landed(ws, cs)
            matches Ok(w) && w == after,
        ({
            let c = crate::path::normalized(child);
            let p = crate::path::normalized(parent);
            crate::workspace::spanning_names(ws.relations) matches Ok((spanning, inverse))
                && crate::workspace::loaded(ws.files, c) matches Ok(child_read)
                && crate::workspace::loaded(ws.files, p) matches Ok(parent_read) && ({
                let up = crate::workspace::single_path(ws, child_read.1, inverse, c) == Some(p);
                let down = has_child(ws, parent_read.1, p, c);
                &&& crate::adopt::can_link(
                    ws,
                    after.ids,
                    spanning,
                    inverse,
                    c,
                    crate::title::title_of(child_read.1, c),
                    up,
                    p,
                    crate::title::title_of(parent_read.1, p),
                    down,
                )
                &&& crate::adopt::reads_up(ws, after, inverse, c, p, up)
                &&& crate::adopt::reads_down(ws, after, spanning, inverse, c, p, up, down)
                &&& climbs_as(ws, after, inverse, c)
            })
        }),
    ensures
        ({
            let c = crate::path::normalized(child);
            let p = crate::path::normalized(parent);
            crate::workspace::spanning_names(ws.relations) matches Ok((_, inverse))
                && crate::workspace::loaded(after.files, c) matches Ok((_, child_now))
                && crate::workspace::loaded(after.files, p) matches Ok((_, parent_now))
                && crate::workspace::single_path(after, child_now, inverse, c) == Some(p)
                && has_child(after, parent_now, p, c)
        }),
        crate::change::carried_out(after, reparenting(after, child, parent)) matches Ok(
            (again, what),
        ) && again == after && what is Unchanged,
{
    let c = crate::path::normalized(child);
    let p = crate::path::normalized(parent);
    let (spanning, inverse) = crate::workspace::spanning_names(ws.relations)->Ok_0;
    let child_read = crate::workspace::loaded(ws.files, c)->Ok_0;
    let parent_read = crate::workspace::loaded(ws.files, p)->Ok_0;
    let up = crate::workspace::single_path(ws, child_read.1, inverse, c) == Some(p);
    let down = has_child(ws, parent_read.1, p, c);
    lemma_drafted(ws, child, parent);
    crate::change::lemma_written_stays_whole(
        ws,
        drafted_reparenting(ws, child, parent),
        reparent_written(ws, c, p),
        after,
    );
    let child_now = (crate::workspace::loaded(after.files, c)->Ok_0).1;
    let parent_now = (crate::workspace::loaded(after.files, p)->Ok_0).1;
    if !(up && down) {
        crate::adopt::lemma_linked_both_ways(ws, spanning, inverse, c, up, p, down, after);
    }
    if up {
        let raws = crate::meta::links_at(child_read.1.meta, inverse);
        assert(crate::meta::links_at(child_now.meta, inverse) == raws);
        crate::landing::law_whole_leads(ws, after, reparent_written(ws, c, p), c, raws[0]);
    }
    if down {
        crate::adopt::lemma_child_kept(ws, after, parent_read.1, parent_now, p, c);
    }
    crate::landing::law_file_is_taken(after.files, c);
    crate::landing::law_file_is_taken(after.files, p);
    lemma_climb(ws, after, inverse, c, p, Seq::empty());
}

/// The parent that a document leaves loses its entry for it: the first item of its list of
/// children that leads to the document is taken out, and it reads else as it did. The edit
/// reads back.
pub proof fn law_left_parent_reads(
    ws: WsView,
    child: Seq<char>,
    parent: Seq<char>,
    after: WsView,
    left: Seq<char>,
)
    requires
        crate::registry::is_sound(ws.ids),
        reparenting(ws, child, parent) matches Ok((cs, _)) && crate::change::landed(ws, cs)
            matches Ok(w) && w == after,
        left != crate::path::normalized(child),
        left != crate::path::normalized(parent),
        crate::workspace::loaded(ws.files, left) is Ok,
        crate::workspace::spanning_names(ws.relations) matches Ok((_, inverse))
            && crate::workspace::loaded(ws.files, crate::path::normalized(child)) matches Ok((_, doc))
            && crate::workspace::single_path(ws, doc, inverse, crate::path::normalized(child))
            == Some(left),
    ensures
        crate::workspace::spanning_names(ws.relations) matches Ok((spanning, _))
            && crate::adopt::loses(ws, after, spanning, left, crate::path::normalized(child)),
{
    let (spanning, _) = crate::workspace::spanning_names(ws.relations)->Ok_0;
    law_reparent_lets_go(ws, child, parent, after, left);
    crate::adopt::lemma_loses(ws, after, spanning, left, crate::path::normalized(child));
}

/// A document that gets a parent names it: one that named it alone is as it was, and one
/// that did not gets a reference to it in place of what it named; and the parent that did
/// not list it gets a reference to it at the end of its list of children. The links can be
/// authored so that they lead, no document is to carry an identifier that it got by that,
/// and the document did not name itself as its parent.
pub proof fn law_reparented_reads(ws: WsView, child: Seq<char>, parent: Seq<char>, after: WsView)
    requires
        crate::registry::is_sound(ws.ids),
        reparenting(ws, child, parent) matches Ok((cs, _)) && (!ws.settings.id_storage.stamps()
            || cs.fresh.len() == 0) && (crate::change::landed(ws, cs) matches Ok(w) && w == after),
        ({
            let c = crate::path::normalized(child);
            let p = crate::path::normalized(parent);
            crate::workspace::spanning_names(ws.relations) matches Ok((spanning, inverse))
                && crate::workspace::loaded(ws.files, c) matches Ok(child_read)
                && crate::workspace::loaded(ws.files, p) matches Ok(parent_read)
                && crate::workspace::single_path(ws, child_read.1, inverse, c) != Some(c)
                && crate::adopt::can_link(
                ws,
                after.ids,
                spanning,
                inverse,
                c,
                crate::title::title_of(child_read.1, c),
                crate::workspace::single_path(ws, child_read.1, inverse, c) == Some(p),
                p,
                crate::title::title_of(parent_read.1, p),
                has_child(ws, parent_read.1, p, c),
            )
        }),
    ensures
        ({
            let c = crate::path::normalized(child);
            let p = crate::path::normalized(parent);
            let (spanning, inverse) = crate::workspace::spanning_names(ws.relations)->Ok_0;
            let child_doc = (crate::workspace::loaded(ws.files, c)->Ok_0).1;
            let parent_doc = (crate::workspace::loaded(ws.files, p)->Ok_0).1;
            &&& if crate::workspace::single_path(ws, child_doc, inverse, c) == Some(p) {
                crate::files::lookup(after.files, c) == crate::files::lookup(ws.files, c)
            } else {
                crate::adopt::gets_up(ws, after, inverse, c, p)
            }
            &&& if has_child(ws, parent_doc, p, c) {
                crate::files::lookup(after.files, p) == crate::files::lookup(ws.files, p)
            } else {
                crate::adopt::gets_down(ws, after, spanning, p, c)
            }
        }),
{
    let c = crate::path::normalized(child);
    let p = crate::path::normalized(parent);
    let (spanning, inverse) = crate::workspace::spanning_names(ws.relations)->Ok_0;
    let child_read = crate::workspace::loaded(ws.files, c)->Ok_0;
    let parent_read = crate::workspace::loaded(ws.files, p)->Ok_0;
    let before = crate::workspace::single_path(ws, child_read.1, inverse, c);
    let up = before == Some(p);
    let down = has_child(ws, parent_read.1, p, c);
    let (drafted, _) = drafted_reparenting(ws, child, parent)->Ok_0;
    crate::change::lemma_stamps_keep(ws, drafted, drafted.fresh);
    assert(drafted.fresh.len() == 0 ==> drafted.fresh =~= Seq::empty());
    assert((reparenting(ws, child, parent)->Ok_0).0 == drafted);
    if up && down {
        assert(drafted.ops =~= Seq::empty());
    } else {
        let (updated, first) = both_linked(ws, c, child_read, up, p, parent_read, down)->Ok_0;
        assert(drafted.ids == first.ids);
        if drafted.ops != first.ops {
            let left = before->Some_0;
            let text = unlinked_down(
                ws,
                spanning,
                left,
                left_read(ws, left, c, updated)->Ok_0,
                c,
            )->Ok_0->Some_0;
            let op = crate::files::write_text(left, text);
            let data = crate::files::FileView::Text(text);
            assert(drafted.ops =~= first.ops.push(op));
            crate::landing::lemma_changed_push(ws.files, first.ops, op);
            let files = crate::files::changed_all(ws.files, first.ops)->Ok_0;
            let mid = WsView { files, ..after };
            crate::adopt::lemma_linked_hold(ws, spanning, inverse, c, up, p, down, mid);
            crate::files::law_stored(files, left, data, c);
            crate::files::law_stored(files, left, data, p);
            assert(crate::files::lookup(after.files, c) == crate::files::lookup(mid.files, c));
            assert(crate::files::lookup(after.files, p) == crate::files::lookup(mid.files, p));
            lemma_same_gets(ws, mid, after, spanning, inverse, c, p);
        } else {
            crate::adopt::lemma_linked_hold(ws, spanning, inverse, c, up, p, down, after);
        }
    }
}

proof fn lemma_same_gets(
    ws: WsView,
    mid: WsView,
    after: WsView,
    spanning: Seq<char>,
    inverse: Seq<char>,
    child: Seq<char>,
    parent: Seq<char>,
)
    requires
        mid.ids == after.ids,
        mid.name == after.name,
        crate::files::lookup(after.files, child) == crate::files::lookup(mid.files, child),
        crate::files::lookup(after.files, parent) == crate::files::lookup(mid.files, parent),
    ensures
        crate::adopt::gets_up(ws, mid, inverse, child, parent) ==> crate::adopt::gets_up(
            ws,
            after,
            inverse,
            child,
            parent,
        ),
        crate::adopt::gets_down(ws, mid, spanning, parent, child) ==> crate::adopt::gets_down(
            ws,
            after,
            spanning,
            parent,
            child,
        ),
{
}

} // verus!
