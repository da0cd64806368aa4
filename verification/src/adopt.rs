//! Existing documents under a parent: an adoption adds the links that are
//! missing, a new parent replaces the one before.

use crate::change::{ChangeSet, ChangeView};
use crate::document::Document;
use crate::error::{Error, Fault};
use crate::meta::{Meta, MetaView};
use crate::path::opt_text;
use crate::text::same_text;
use crate::title::document_title;
use crate::workspace::{Outcome, Workspace, WsView};
use vstd::prelude::*;

verus! {

/// The text of a document with its link up to a parent, and the changes with the
/// identifier that this takes.
pub open spec fn linked_up(
    ws: WsView,
    cs: ChangeView,
    inverse: Seq<char>,
    child: Seq<char>,
    read: (Seq<char>, crate::document::DocView),
    parent: Seq<char>,
    parent_title: Seq<char>,
) -> Outcome<(Seq<char>, ChangeView)> {
    match crate::change::authored(ws, cs, inverse, child, parent, parent_title) {
        Err(e) => Err(e),
        Ok((up, cs)) => match crate::document::set_in(
            read.0,
            read.1.carrier,
            inverse,
            MetaView::Text(up),
        ) {
            Some(text) => Ok((text, cs)),
            None => Err(Fault::Metadata(child)),
        },
    }
}

/// The text of a parent with its link down to a document added, and the changes
/// with the identifier that this takes.
pub open spec fn linked_down(
    ws: WsView,
    cs: ChangeView,
    spanning: Seq<char>,
    parent: Seq<char>,
    read: (Seq<char>, crate::document::DocView),
    child: Seq<char>,
    child_title: Seq<char>,
) -> Outcome<(Seq<char>, ChangeView)> {
    match crate::change::authored(ws, cs, spanning, parent, child, child_title) {
        Err(e) => Err(e),
        Ok((down, cs)) => match crate::document::appended_in(
            read.0,
            read.1.carrier,
            spanning,
            down,
        ) {
            Some(text) => Ok((text, cs)),
            None => Err(Fault::Metadata(parent)),
        },
    }
}

/// The text of a parent without its link down to a document; none where there is
/// no such link.
pub open spec fn unlinked_down(
    ws: WsView,
    spanning: Seq<char>,
    parent: Seq<char>,
    read: (Seq<char>, crate::document::DocView),
    child: Seq<char>,
) -> Outcome<Option<Seq<char>>> {
    match (crate::workspace::entry_at(ws, read.1, spanning, parent, child), read.1.carrier) {
        (Some(i), Some(carrier)) => match crate::document::remove_at(
            read.0,
            carrier,
            crate::document::key_way(spanning),
            i,
        ) {
            Some(text) => Ok(Some(text)),
            None => Err(Fault::Metadata(parent)),
        },
        _ => Ok(None),
    }
}

/// Whether one of the children of a document is `child`.
pub open spec fn has_child(
    ws: WsView,
    doc: crate::document::DocView,
    path: Seq<char>,
    child: Seq<char>,
) -> bool {
    crate::workspace::first_at(
        crate::workspace::reference_paths(
            ws.ids,
            ws.name,
            path,
            crate::workspace::child_references(ws.relations, doc.meta),
        ),
        child,
    ) is Some
}

/// What is needed of two documents before one can be put under the other.
pub open spec fn pairing_fault(ws: WsView, child: Seq<char>, parent: Seq<char>) -> Option<
    Fault<Seq<char>>,
> {
    if child == parent {
        Some(Fault::SelfContained(parent))
    } else {
        match crate::workspace::spanning_names(ws.relations) {
            Err(e) => Some(e),
            Ok(_) => if !crate::files::occupied(ws.files, child) {
                Some(Fault::NotFound(child))
            } else if !crate::files::occupied(ws.files, parent) {
                Some(Fault::NotFound(parent))
            } else {
                None
            },
        }
    }
}

/// The changes that link two documents, where the links are not there.
pub open spec fn both_linked(
    ws: WsView,
    child: Seq<char>,
    child_read: (Seq<char>, crate::document::DocView),
    up: bool,
    parent: Seq<char>,
    parent_read: (Seq<char>, crate::document::DocView),
    down: bool,
) -> Outcome<(Option<Seq<char>>, ChangeView)> {
    match crate::workspace::spanning_names(ws.relations) {
        Err(e) => Err(e),
        Ok((spanning, inverse)) => {
            let first = if up {
                Ok((None::<Seq<char>>, crate::change::no_change(ws)))
            } else {
                match linked_up(
                    ws,
                    crate::change::no_change(ws),
                    inverse,
                    child,
                    child_read,
                    parent,
                    crate::title::title_of(parent_read.1, parent),
                ) {
                    Err(e) => Err(e),
                    Ok((text, cs)) => Ok(
                        (Some(text), cs.with(crate::files::write_text(child, text))),
                    ),
                }
            };
            match first {
                Err(e) => Err(e),
                Ok((updated, cs)) => if down {
                    Ok((updated, cs))
                } else {
                    match linked_down(
                        ws,
                        cs,
                        spanning,
                        parent,
                        parent_read,
                        child,
                        crate::title::title_of(child_read.1, child),
                    ) {
                        Err(e) => Err(e),
                        Ok((text, cs)) => Ok(
                            (updated, cs.with(crate::files::write_text(parent, text))),
                        ),
                    }
                },
            }
        },
    }
}

/// The changes that put a document under a parent that it does not contest, or
/// why there are none.
pub open spec fn drafted_adoption(ws: WsView, child: Seq<char>, parent: Seq<char>) -> Outcome<
    (ChangeView, ()),
> {
    let child = crate::path::normalized(child);
    let parent = crate::path::normalized(parent);
    match pairing_fault(ws, child, parent) {
        Some(e) => Err(e),
        None => match (
            crate::workspace::spanning_names(ws.relations),
            crate::workspace::loaded(ws.files, child),
            crate::workspace::loaded(ws.files, parent),
        ) {
            (Err(e), _, _) => Err(e),
            (_, Err(e), _) => Err(e),
            (_, _, Err(e)) => Err(e),
            (Ok((spanning, inverse)), Ok(child_read), Ok(parent_read)) => {
                let declared = crate::meta::field(child_read.1.meta, inverse) is Some;
                let up = crate::workspace::entry_at(
                    ws,
                    child_read.1,
                    inverse,
                    child,
                    parent,
                ) is Some;
                let down = has_child(ws, parent_read.1, parent, child);
                if declared && !up {
                    Err(Fault::ContestedParent(child, inverse))
                } else {
                    match both_linked(ws, child, child_read, up, parent, parent_read, down) {
                        Err(e) => Err(e),
                        Ok((_, cs)) => Ok((cs, ())),
                    }
                }
            },
        },
    }
}

/// The changes that put a document under a parent that it does not contest, with
/// what carries its identifier itself; or why there are none.
pub open spec fn adoption(ws: WsView, child: Seq<char>, parent: Seq<char>) -> Outcome<(ChangeView, ())> {
    crate::change::with_stamps(ws, drafted_adoption(ws, child, parent))
}

impl Workspace {
    /// The text of a document with its link up to a parent.
    pub fn link_up(
        &self,
        cs: &mut ChangeSet,
        inverse: &str,
        child: &str,
        text: &str,
        doc: &Document,
        parent: &str,
        parent_title: &str,
    ) -> (r: Result<String, Error>)
        ensures
            ({
                let out = linked_up(
                    self@,
                    old(cs)@,
                    inverse@,
                    child@,
                    (text@, doc@),
                    parent@,
                    parent_title@,
                );
                match r {
                    Ok(t) => out matches Ok((o, c)) && o == t@ && c == final(cs)@,
                    Err(e) => out matches Err(f) && f == crate::error::fault(e),
                }
            }),
    {
        match self.authored_target(cs, inverse, child, parent, parent_title) {
            Err(e) => Err(e),
            Ok(up) => match crate::document::set_in_text(
                text,
                doc.carrier,
                inverse,
                &Meta::Text(up),
            ) {
                Some(out) => Ok(out),
                None => Err(Fault::Metadata(child.to_owned())),
            },
        }
    }

    /// The text of a parent with its link down to a document added.
    pub fn link_down(
        &self,
        cs: &mut ChangeSet,
        spanning: &str,
        parent: &str,
        text: &str,
        doc: &Document,
        child: &str,
        child_title: &str,
    ) -> (r: Result<String, Error>)
        ensures
            ({
                let out = linked_down(
                    self@,
                    old(cs)@,
                    spanning@,
                    parent@,
                    (text@, doc@),
                    child@,
                    child_title@,
                );
                match r {
                    Ok(t) => out matches Ok((o, c)) && o == t@ && c == final(cs)@,
                    Err(e) => out matches Err(f) && f == crate::error::fault(e),
                }
            }),
    {
        match self.authored_target(cs, spanning, parent, child, child_title) {
            Err(e) => Err(e),
            Ok(down) => match crate::document::append_in_text(text, doc.carrier, spanning, &down) {
                Some(out) => Ok(out),
                None => Err(Fault::Metadata(parent.to_owned())),
            },
        }
    }

    /// The text of a parent without its link down to a document; none where
    /// there is no such link.
    pub fn unlink_down(
        &self,
        spanning: &str,
        parent: &str,
        text: &str,
        doc: &Document,
        child: &str,
    ) -> (r: Result<Option<String>, Error>)
        ensures
            crate::workspace::told_opt(r) == unlinked_down(
                self@,
                spanning@,
                parent@,
                (text@, doc@),
                child@,
            ),
    {
        match (self.entry_index(doc, spanning, parent, child), doc.carrier) {
            (Some(i), Some(carrier)) => match crate::document::remove_item(
                text,
                carrier,
                &crate::document::key_path(spanning),
                i,
            ) {
                Some(out) => Ok(Some(out)),
                None => Err(Fault::Metadata(parent.to_owned())),
            },
            _ => Ok(None),
        }
    }

    /// Whether one of the children of a document is `child`.
    pub fn contains(&self, doc: &Document, path: &str, child: &str) -> (r: bool)
        ensures
            r == has_child(self@, doc@, path@, child@),
    {
        let raws = self.child_links(doc);
        crate::workspace::position_in(&self.registry, &self.name, path, &raws, child).is_some()
    }

    /// What is needed of two documents before one can be put under the other.
    pub fn pairing_refusal(&self, child: &str, parent: &str) -> (r: Option<Error>)
        ensures
            crate::files::fault_opt(r) == pairing_fault(self@, child@, parent@),
    {
        if same_text(child, parent) {
            return Some(Fault::SelfContained(parent.to_owned()));
        }
        match self.spanning_pair() {
            Err(e) => Some(e),
            Ok(_) => if !self.is_taken(child) {
                Some(Fault::NotFound(child.to_owned()))
            } else if !self.is_taken(parent) {
                Some(Fault::NotFound(parent.to_owned()))
            } else {
                None
            },
        }
    }

    /// The changes that link two documents, where the links are not there; and
    /// the new text of the child.
    pub fn link_both(
        &self,
        child: &str,
        child_read: &(String, Document),
        up: bool,
        parent: &str,
        parent_read: &(String, Document),
        down: bool,
    ) -> (r: Result<(Option<String>, ChangeSet), Error>)
        ensures
            ({
                let out = both_linked(
                    self@,
                    child@,
                    (child_read.0@, child_read.1@),
                    up,
                    parent@,
                    (parent_read.0@, parent_read.1@),
                    down,
                );
                match r {
                    Ok((t, cs)) => out matches Ok((o, c)) && o == opt_text(t) && c == cs@,
                    Err(e) => out matches Err(f) && f == crate::error::fault(e),
                }
            }),
    {
        let (spanning, inverse) = match self.spanning_pair() {
            Ok(pair) => pair,
            Err(e) => {
                return Err(e);
            },
        };
        let mut cs = self.change();
        let mut updated: Option<String> = None;
        if !up {
            let parent_title = document_title(&parent_read.1, parent);
            match self.link_up(
                &mut cs,
                &inverse,
                child,
                &child_read.0,
                &child_read.1,
                parent,
                &parent_title,
            ) {
                Ok(text) => {
                    cs.write(child, &text);
                    updated = Some(text);
                },
                Err(e) => {
                    return Err(e);
                },
            }
        }
        if !down {
            let child_title = document_title(&child_read.1, child);
            match self.link_down(
                &mut cs,
                &spanning,
                parent,
                &parent_read.0,
                &parent_read.1,
                child,
                &child_title,
            ) {
                Ok(text) => {
                    cs.write(parent, &text);
                },
                Err(e) => {
                    return Err(e);
                },
            }
        }
        Ok((updated, cs))
    }

    fn draft_adopt(&self, child: &str, parent: &str) -> (r: Result<ChangeSet, Error>)
        ensures
            match r {
                Ok(cs) => drafted_adoption(self@, child@, parent@) matches Ok((c, _)) && c == cs@,
                Err(e) => drafted_adoption(self@, child@, parent@) matches Err(f) && f
                    == crate::error::fault(e),
            },
    {
        let child = crate::path::normalize(child);
        let parent = crate::path::normalize(parent);
        match self.pairing_refusal(&child, &parent) {
            Some(e) => {
                return Err(e);
            },
            None => {},
        }
        let (_, inverse) = match self.spanning_pair() {
            Ok(pair) => pair,
            Err(e) => {
                return Err(e);
            },
        };
        let child_read = match self.load(&child) {
            Ok(read) => read,
            Err(e) => {
                return Err(e);
            },
        };
        let parent_read = match self.load(&parent) {
            Ok(read) => read,
            Err(e) => {
                return Err(e);
            },
        };
        let declared = child_read.1.meta.get(&inverse).is_some();
        let up = self.entry_index(&child_read.1, &inverse, &child, &parent).is_some();
        if declared && !up {
            return Err(Fault::ContestedParent(child, inverse));
        }
        let down = self.contains(&parent_read.1, &parent, &child);
        match self.link_both(&child, &child_read, up, &parent, &parent_read, down) {
            Ok((_, cs)) => Ok(cs),
            Err(e) => Err(e),
        }
    }

    /// The changes that put a document under a parent.
    pub fn plan_adopt(&self, child: &str, parent: &str) -> (r: Result<ChangeSet, Error>)
        ensures
            match r {
                Ok(cs) => adoption(self@, child@, parent@) matches Ok((c, _)) && c == cs@,
                Err(e) => adoption(self@, child@, parent@) matches Err(f) && f
                    == crate::error::fault(e),
            },
    {
        match self.draft_adopt(child, parent) {
            Ok(cs) => match self.stamp_ids(cs) {
                Ok(cs) => Ok(cs),
                Err(e) => Err(e),
            },
            Err(e) => Err(e),
        }
    }

    /// Puts a document under a parent. Links that are there stay as they are, and
    /// a document that names a different parent is refused. A refusal changes
    /// nothing.
    pub fn adopt(&mut self, child: &str, parent: &str) -> (r: Result<(), Error>)
        ensures
            ({
                let done = crate::change::carried_out(
                    old(self)@,
                    adoption(old(self)@, child@, parent@),
                );
                match r {
                    Ok(_) => done matches Ok((after, _)) && after == final(self)@,
                    Err(e) => done matches Err(f) && f == crate::error::fault(e) && *final(self)
                        == *old(self),
                }
            }),
    {
        match self.plan_adopt(child, parent) {
            Ok(cs) => self.commit(cs),
            Err(e) => Err(e),
        }
    }
}

/// A document that is under a parent already, both ways, is left as it is.
pub proof fn law_adopt_settled(ws: WsView, child: Seq<char>, parent: Seq<char>)
    requires
        adoption(ws, child, parent) is Ok,
        ({
            let c = crate::path::normalized(child);
            let p = crate::path::normalized(parent);
            crate::workspace::loaded(ws.files, c) matches Ok(child_read)
                && crate::workspace::loaded(ws.files, p) matches Ok(parent_read)
                && crate::workspace::spanning_names(ws.relations) matches Ok(names)
                && crate::workspace::entry_at(ws, child_read.1, names.1, c, p) is Some && has_child(
                ws,
                parent_read.1,
                p,
                c,
            )
        }),
    ensures
        crate::change::carried_out(ws, adoption(ws, child, parent)) matches Ok((after, _)) && after
            == ws,
{
}

/// What linking two documents takes: writes of the two, and identifiers for them that
/// are taken from no other one.
pub proof fn lemma_both_linked(
    ws: WsView,
    child: Seq<char>,
    child_read: (Seq<char>, crate::document::DocView),
    up: bool,
    parent: Seq<char>,
    parent_read: (Seq<char>, crate::document::DocView),
    down: bool,
)
    requires
        crate::registry::is_sound(ws.ids),
    ensures
        both_linked(ws, child, child_read, up, parent, parent_read, down) matches Ok((_, cs)) ==> {
            let paths = seq![child, parent];
            &&& crate::landing::only_writes(cs.ops, paths)
            &&& forall|i: int| 0 <= i < cs.fresh.len() ==> paths.contains(#[trigger] cs.fresh[i])
            &&& crate::registry::keeps_paths(ws.ids, cs.ids)
            &&& crate::registry::is_sound(cs.ids)
        },
{
    let paths = seq![child, parent];
    assert(paths[0] == child && paths[1] == parent);
    assert(paths.contains(child) && paths.contains(parent));
    let none = crate::change::no_change(ws);
    crate::change::law_identified_keeps(ws, none, parent);
    match crate::workspace::spanning_names(ws.relations) {
        Ok((spanning, inverse)) => {
            let title = crate::title::title_of(parent_read.1, parent);
            let first = if up {
                none
            } else {
                match linked_up(ws, none, inverse, child, child_read, parent, title) {
                    Ok((text, cs)) => cs.with(crate::files::write_text(child, text)),
                    Err(_) => none,
                }
            };
            crate::change::law_identified_keeps(ws, first, child);
        },
        Err(_) => {},
    }
}

/// Where the link up leads by the metadata that its edit describes.
pub open spec fn reads_up(
    ws: WsView,
    after: WsView,
    inverse: Seq<char>,
    child: Seq<char>,
    parent: Seq<char>,
    up: bool,
) -> bool {
    match (
        crate::workspace::loaded(ws.files, child),
        crate::workspace::loaded(ws.files, parent),
        crate::workspace::loaded(after.files, child),
    ) {
        (Ok((_, before)), Ok((_, other)), Ok((_, now))) => if up {
            crate::meta::field(now.meta, inverse) == crate::meta::field(before.meta, inverse)
        } else {
            crate::change::authored(
                ws,
                crate::change::no_change(ws),
                inverse,
                child,
                parent,
                crate::title::title_of(other, parent),
            ) matches Ok((raw, _)) && crate::meta::field(now.meta, inverse) == Some(
                MetaView::Text(raw),
            )
        },
        _ => false,
    }
}

/// The changes that a link down is authored after.
pub open spec fn after_up(
    ws: WsView,
    inverse: Seq<char>,
    child: Seq<char>,
    parent: Seq<char>,
    parent_title: Seq<char>,
    up: bool,
) -> ChangeView {
    let none = crate::change::no_change(ws);
    if up {
        none
    } else {
        match crate::change::authored(ws, none, inverse, child, parent, parent_title) {
            Ok((_, cs)) => cs,
            Err(_) => none,
        }
    }
}

/// Where the links down lead by the metadata that their edit describes: those that
/// were there, and a new one at the end.
pub open spec fn reads_down(
    ws: WsView,
    after: WsView,
    spanning: Seq<char>,
    inverse: Seq<char>,
    child: Seq<char>,
    parent: Seq<char>,
    up: bool,
    down: bool,
) -> bool {
    match (
        crate::workspace::loaded(ws.files, child),
        crate::workspace::loaded(ws.files, parent),
        crate::workspace::loaded(after.files, parent),
    ) {
        (Ok((_, other)), Ok((_, before)), Ok((_, now))) => {
            let olds = crate::meta::links_at(before.meta, spanning);
            let news = crate::meta::links_at(now.meta, spanning);
            if down {
                news == olds
            } else {
                crate::change::authored(
                    ws,
                    after_up(
                        ws,
                        inverse,
                        child,
                        parent,
                        crate::title::title_of(before, parent),
                        up,
                    ),
                    spanning,
                    parent,
                    child,
                    crate::title::title_of(other, child),
                ) matches Ok((raw, _)) && news == olds.push(raw)
            }
        },
        _ => false,
    }
}

/// Whether the links that two documents get can be authored so that they read back:
/// by path, or by a plain identifier.
pub open spec fn can_link(
    ws: WsView,
    ids: crate::registry::IdSeq,
    spanning: Seq<char>,
    inverse: Seq<char>,
    child: Seq<char>,
    child_title: Seq<char>,
    up: bool,
    parent: Seq<char>,
    parent_title: Seq<char>,
    down: bool,
) -> bool {
    &&& !up ==> crate::change::can_author(
        crate::workspace::reference_style(ws, inverse),
        child,
        parent,
        crate::registry::id_at(
            after_up(ws, inverse, child, parent, parent_title, up).ids,
            parent,
        ),
        parent_title,
    )
    &&& !down ==> crate::change::can_author(
        crate::workspace::reference_style(ws, spanning),
        parent,
        child,
        crate::registry::id_at(ids, child),
        child_title,
    )
}

proof fn lemma_first_of(
    ids: crate::registry::IdSeq,
    name: Seq<char>,
    doc: Seq<char>,
    raws: Seq<Seq<char>>,
    k: int,
    wanted: Seq<char>,
)
    requires
        0 <= k < raws.len(),
        crate::workspace::reference_path(ids, name, doc, raws[k]) == Some(wanted),
    ensures
        crate::workspace::first_at(
            crate::workspace::reference_paths(ids, name, doc, raws),
            wanted,
        ) is Some,
{
    let paths = crate::workspace::reference_paths(ids, name, doc, raws);
    crate::workspace::lemma_first_at(paths, wanted);
    assert(paths[k] == Some(wanted));
}

/// Two documents that were linked lead to each other, by the identifiers that are
/// left and the metadata that the edits describe.
pub proof fn lemma_linked_both_ways(
    ws: WsView,
    spanning: Seq<char>,
    inverse: Seq<char>,
    child: Seq<char>,
    up: bool,
    parent: Seq<char>,
    down: bool,
    after: WsView,
)
    requires
        crate::registry::is_sound(ws.ids),
        after.name == ws.name,
        after.relations == ws.relations,
        ws.relations.spanning == Some(spanning),
        crate::workspace::loaded(ws.files, child) matches Ok(child_read)
            && crate::workspace::loaded(ws.files, parent) matches Ok(parent_read) && both_linked(
            ws,
            child,
            child_read,
            up,
            parent,
            parent_read,
            down,
        ) matches Ok((_, cs)) && cs.ids == after.ids && crate::workspace::spanning_names(
            ws.relations,
        ) == Ok::<_, Fault<Seq<char>>>((spanning, inverse)) && can_link(
            ws,
            cs.ids,
            spanning,
            inverse,
            child,
            crate::title::title_of(child_read.1, child),
            up,
            parent,
            crate::title::title_of(parent_read.1, parent),
            down,
        ),
        reads_up(ws, after, inverse, child, parent, up),
        reads_down(ws, after, spanning, inverse, child, parent, up, down),
    ensures
        !up ==> (crate::workspace::loaded(after.files, child) matches Ok((_, now))
            && crate::workspace::single_path(after, now, inverse, child) == Some(parent)
            && crate::workspace::entry_at(after, now, inverse, child, parent) is Some),
        !down ==> (crate::workspace::loaded(after.files, parent) matches Ok((_, now)) && has_child(
            after,
            now,
            parent,
            child,
        )),
        crate::registry::keeps_paths(ws.ids, after.ids),
{
    let child_read = crate::workspace::loaded(ws.files, child)->Ok_0;
    let parent_read = crate::workspace::loaded(ws.files, parent)->Ok_0;
    let child_title = crate::title::title_of(child_read.1, child);
    let parent_title = crate::title::title_of(parent_read.1, parent);
    let none = crate::change::no_change(ws);
    let first = after_up(ws, inverse, child, parent, parent_title, up);
    lemma_both_linked(ws, child, child_read, up, parent, parent_read, down);
    crate::change::law_identified_keeps(ws, none, parent);
    crate::change::law_identified_keeps(ws, first, child);
    if !up {
        crate::change::law_authored_leads(ws, none, inverse, child, parent, parent_title);
        let raw = (crate::change::authored(
            ws,
            none,
            inverse,
            child,
            parent,
            parent_title,
        )->Ok_0).0;
        assert(crate::workspace::reference_path(first.ids, ws.name, child, raw) == Some(parent));
        assert(crate::registry::keeps_paths(first.ids, after.ids));
        assert(crate::workspace::reference_path(after.ids, ws.name, child, raw) == Some(parent));
        let now = (crate::workspace::loaded(after.files, child)->Ok_0).1;
        assert(crate::meta::links_at(now.meta, inverse) =~= seq![raw]);
        let slots = crate::meta::slots_at(now.meta, inverse);
        assert(slots =~= seq![Some(raw)]);
        let paths = crate::workspace::slot_paths(after.ids, after.name, child, slots);
        assert(paths[0] == Some(parent));
        crate::workspace::lemma_first_at(paths, parent);
    }
    if !down {
        crate::change::law_authored_leads(ws, first, spanning, parent, child, child_title);
        let now = (crate::workspace::loaded(after.files, parent)->Ok_0).1;
        let news = crate::meta::links_at(now.meta, spanning);
        let k = news.len() - 1;
        lemma_first_of(after.ids, after.name, parent, news, k, child);
    }
}

/// A document that leads to a path by a reference does so by a place of its field.
proof fn lemma_entry_kept(
    ws: WsView,
    after: WsView,
    before: crate::document::DocView,
    now: crate::document::DocView,
    field: Seq<char>,
    doc: Seq<char>,
    wanted: Seq<char>,
)
    requires
        crate::meta::field(now.meta, field) == crate::meta::field(before.meta, field),
        crate::registry::keeps_paths(ws.ids, after.ids),
        after.name == ws.name,
        crate::workspace::entry_at(ws, before, field, doc, wanted) is Some,
    ensures
        crate::workspace::entry_at(after, now, field, doc, wanted) is Some,
{
    let slots = crate::meta::slots_at(before.meta, field);
    let olds = crate::workspace::slot_paths(ws.ids, ws.name, doc, slots);
    let news = crate::workspace::slot_paths(after.ids, after.name, doc, slots);
    crate::workspace::lemma_first_at(olds, wanted);
    crate::workspace::lemma_first_at(news, wanted);
    let i = crate::workspace::first_at(olds, wanted)->Some_0;
    assert(olds[i] == Some(wanted));
    assert(news[i] == Some(wanted));
}

/// A document that has a child has it still, where its references are those it had.
pub proof fn lemma_child_kept(
    ws: WsView,
    after: WsView,
    before: crate::document::DocView,
    now: crate::document::DocView,
    path: Seq<char>,
    child: Seq<char>,
)
    requires
        crate::workspace::child_references(ws.relations, now.meta)
            == crate::workspace::child_references(ws.relations, before.meta),
        crate::registry::keeps_paths(ws.ids, after.ids),
        after.name == ws.name,
        after.relations == ws.relations,
        has_child(ws, before, path, child),
    ensures
        has_child(after, now, path, child),
{
    let raws = crate::workspace::child_references(ws.relations, before.meta);
    let olds = crate::workspace::reference_paths(ws.ids, ws.name, path, raws);
    crate::workspace::lemma_first_at(olds, child);
    let i = crate::workspace::first_at(olds, child)->Some_0;
    assert(olds[i] == Some(child));
    lemma_first_of(after.ids, after.name, path, raws, i, child);
}

/// An adoption leaves a workspace whole but for the two documents: every other file is
/// as it was, none is gone, and every identifier leads where it led.
pub proof fn law_adopt_stays_whole(ws: WsView, child: Seq<char>, parent: Seq<char>, after: WsView)
    requires
        crate::registry::is_sound(ws.ids),
        adoption(ws, child, parent) matches Ok((cs, _)) && crate::change::landed(ws, cs) matches Ok(
            w,
        ) && w == after,
    ensures
        crate::landing::stays_whole(
            ws,
            after,
            seq![crate::path::normalized(child), crate::path::normalized(parent)],
        ),
        crate::registry::is_sound(after.ids),
{
    let c = crate::path::normalized(child);
    let p = crate::path::normalized(parent);
    let (spanning, inverse) = crate::workspace::spanning_names(ws.relations)->Ok_0;
    let child_read = crate::workspace::loaded(ws.files, c)->Ok_0;
    let parent_read = crate::workspace::loaded(ws.files, p)->Ok_0;
    let up = crate::workspace::entry_at(ws, child_read.1, inverse, c, p) is Some;
    let down = has_child(ws, parent_read.1, p, c);
    lemma_both_linked(ws, c, child_read, up, p, parent_read, down);
    crate::change::lemma_written_stays_whole(
        ws,
        drafted_adoption(ws, child, parent),
        seq![c, p],
        after,
    );
}

/// After an adoption the two documents lead to each other, and a second one changes
/// nothing. The links are authored by path or by plain identifier, and the two
/// documents read as their edits describe.
pub proof fn law_adopt_links(ws: WsView, child: Seq<char>, parent: Seq<char>, after: WsView)
    requires
        crate::registry::is_sound(ws.ids),
        adoption(ws, child, parent) matches Ok((cs, _)) && crate::change::landed(ws, cs) matches Ok(
            w,
        ) && w == after,
        ({
            let c = crate::path::normalized(child);
            let p = crate::path::normalized(parent);
            crate::workspace::spanning_names(ws.relations) matches Ok((spanning, inverse))
                && crate::workspace::loaded(ws.files, c) matches Ok(child_read)
                && crate::workspace::loaded(ws.files, p) matches Ok(parent_read) && ({
                let up = crate::workspace::entry_at(ws, child_read.1, inverse, c, p) is Some;
                let down = has_child(ws, parent_read.1, p, c);
                &&& can_link(
                    ws,
                    after.ids,
                    spanning,
                    inverse,
                    c,
                    crate::title::title_of(child_read.1, c),
                    up,
                    p,
                    crate::title::title_of(parent_read.1, p),
                    down,
                )
                &&& reads_up(ws, after, inverse, c, p, up)
                &&& reads_down(ws, after, spanning, inverse, c, p, up, down)
            })
        }),
    ensures
        ({
            let c = crate::path::normalized(child);
            let p = crate::path::normalized(parent);
            crate::workspace::spanning_names(ws.relations) matches Ok((_, inverse))
                && crate::workspace::loaded(after.files, c) matches Ok((_, child_now))
                && crate::workspace::loaded(after.files, p) matches Ok((_, parent_now))
                && crate::workspace::entry_at(after, child_now, inverse, c, p) is Some && has_child(
                after,
                parent_now,
                p,
                c,
            )
        }),
        crate::change::carried_out(after, adoption(after, child, parent)) matches Ok((again, _))
            && again == after,
{
    let c = crate::path::normalized(child);
    let p = crate::path::normalized(parent);
    let (spanning, inverse) = crate::workspace::spanning_names(ws.relations)->Ok_0;
    let child_read = crate::workspace::loaded(ws.files, c)->Ok_0;
    let parent_read = crate::workspace::loaded(ws.files, p)->Ok_0;
    let up = crate::workspace::entry_at(ws, child_read.1, inverse, c, p) is Some;
    let down = has_child(ws, parent_read.1, p, c);
    law_adopt_stays_whole(ws, child, parent, after);
    lemma_both_linked(ws, c, child_read, up, p, parent_read, down);
    crate::change::lemma_written_stays_whole(
        ws,
        drafted_adoption(ws, child, parent),
        seq![c, p],
        after,
    );
    lemma_linked_both_ways(ws, spanning, inverse, c, up, p, down, after);
    let child_now = (crate::workspace::loaded(after.files, c)->Ok_0).1;
    let parent_now = (crate::workspace::loaded(after.files, p)->Ok_0).1;
    if up {
        lemma_entry_kept(ws, after, child_read.1, child_now, inverse, c, p);
    }
    if down {
        lemma_child_kept(ws, after, parent_read.1, parent_now, p, c);
    }
    crate::landing::law_file_is_taken(after.files, c);
    crate::landing::law_file_is_taken(after.files, p);
    law_adopt_settled(after, child, parent);
}

/// The edits that set a field to a reference.
pub open spec fn linking_up(key: Seq<char>, raw: Seq<char>) -> Seq<crate::reading::Touch> {
    seq![
        crate::reading::Touch::Open(crate::codec::Fence::Frontmatter),
        crate::reading::Touch::Value(key, MetaView::Text(raw)),
    ]
}

/// The edits that add a reference to the list of a field.
pub open spec fn linking_down(key: Seq<char>, raw: Seq<char>) -> Seq<crate::reading::Touch> {
    seq![
        crate::reading::Touch::Open(crate::codec::Fence::Frontmatter),
        crate::reading::Touch::Append(key, MetaView::Text(raw)),
    ]
}

/// The edits that set a field to a list of one reference.
pub open spec fn listing_one(key: Seq<char>, raw: Seq<char>) -> Seq<crate::reading::Touch> {
    seq![
        crate::reading::Touch::Open(crate::codec::Fence::Frontmatter),
        crate::reading::Touch::Value(key, MetaView::List(seq![MetaView::Text(raw)])),
    ]
}

/// Whether two readings of a document differ at a key alone, where the second holds this
/// value.
pub open spec fn differs_at(
    doc: crate::document::DocView,
    now: crate::document::DocView,
    key: Seq<char>,
    value: MetaView,
) -> bool {
    &&& crate::meta::field(now.meta, key) == Some(value)
    &&& forall|other: Seq<char>|
        other != key ==> #[trigger] crate::meta::field(now.meta, other) == crate::meta::field(
            doc.meta,
            other,
        )
    &&& now.body == doc.body
}

/// Whether a document gets a reference in a field that leads to a place, and reads with it,
/// and else as it did, where its edits read back.
pub open spec fn gets_up(
    ws: WsView,
    after: WsView,
    key: Seq<char>,
    path: Seq<char>,
    place: Seq<char>,
) -> bool {
    crate::workspace::loaded(ws.files, path) matches Ok((text, doc)) && exists|raw: Seq<char>|
        {
            &&& crate::workspace::reference_path(after.ids, after.name, path, raw) == Some(place)
            &&& #[trigger] crate::reading::all_touched(
                text,
                doc.carrier,
                linking_up(key, raw),
            ) matches Some(out) && crate::files::lookup(after.files, path) == Some(
                crate::files::FileView::Text(out),
            )
            &&& (doc.meta is Mapping || doc.meta is Null) && crate::reading::reads_through(
                path,
                text,
                linking_up(key, raw),
            ) ==> (crate::workspace::loaded(after.files, path) matches Ok((_, now)) && differs_at(
                doc,
                now,
                key,
                MetaView::Text(raw),
            ))
        }
}

/// Whether a document gets a reference at the end of the list of a field that leads to a
/// place, and reads with it, and else as it did, where its edits read back. Where nothing
/// can be added there, the list is made.
pub open spec fn gets_down(
    ws: WsView,
    after: WsView,
    key: Seq<char>,
    path: Seq<char>,
    place: Seq<char>,
) -> bool {
    crate::workspace::loaded(ws.files, path) matches Ok((text, doc)) && exists|raw: Seq<char>|
        {
            let added = crate::reading::all_touched(text, doc.carrier, linking_down(key, raw));
            &&& #[trigger] crate::workspace::reference_path(after.ids, after.name, path, raw)
                == Some(place)
            &&& match added {
                Some(out) => {
                    &&& crate::files::lookup(after.files, path) == Some(
                        crate::files::FileView::Text(out),
                    )
                    &&& crate::reading::reads_through(path, text, linking_down(key, raw)) ==> (
                    crate::meta::field(doc.meta, key) matches Some(MetaView::List(items)) ==> (
                    crate::workspace::loaded(after.files, path) matches Ok((_, now)) && differs_at(
                        doc,
                        now,
                        key,
                        MetaView::List(items.push(MetaView::Text(raw))),
                    )))
                },
                None => {
                    &&& crate::reading::all_touched(
                        text,
                        doc.carrier,
                        listing_one(key, raw),
                    ) matches Some(out) && crate::files::lookup(after.files, path) == Some(
                        crate::files::FileView::Text(out),
                    )
                    &&& (doc.meta is Mapping || doc.meta is Null) && crate::reading::reads_through(
                        path,
                        text,
                        listing_one(key, raw),
                    ) ==> (crate::workspace::loaded(after.files, path) matches Ok((_, now))
                        && differs_at(
                        doc,
                        now,
                        key,
                        MetaView::List(seq![MetaView::Text(raw)]),
                    ))
                },
            }
        }
}

proof fn lemma_two_touches(
    path: Seq<char>,
    text: Seq<char>,
    doc: crate::document::DocView,
    touch: crate::reading::Touch,
)
    requires
        crate::document::parsed(path, text) == Some(doc),
    ensures
        ({
            let open = crate::reading::Touch::Open(crate::codec::Fence::Frontmatter);
            let touches = seq![open, touch];
            &&& crate::reading::all_touched(text, doc.carrier, touches) == (
            match crate::document::opened(text, doc.carrier) {
                Some(base) => crate::reading::touched(
                    base,
                    Some(crate::document::carrier_or_front(doc.carrier)),
                    touch,
                ),
                None => None,
            })
            &&& crate::reading::all_meant(doc, touches) == crate::reading::meant(
                crate::reading::meant(doc, open),
                touch,
            )
        }),
{
    let open = crate::reading::Touch::Open(crate::codec::Fence::Frontmatter);
    let none = Seq::<crate::reading::Touch>::empty();
    crate::reading::lemma_touch_push(text, doc.carrier, doc, none, open);
    crate::reading::lemma_touch_push(text, doc.carrier, doc, none.push(open), touch);
    assert(none.push(open).push(touch) =~= seq![open, touch]);
}

proof fn lemma_differs(doc: crate::document::DocView, key: Seq<char>, value: MetaView)
    requires
        doc.meta is Mapping || doc.meta is Null,
    ensures
        forall|now: crate::document::DocView|
            now.meta == crate::reading::with_value(doc.meta, key, value) && now.body == doc.body
                ==> #[trigger] differs_at(doc, now, key, value),
{
    let meta = crate::reading::with_value(doc.meta, key, value);
    crate::reading::law_value_reads(doc.meta, key, value, key);
    assert forall|other: Seq<char>| other != key implies #[trigger] crate::meta::field(meta, other)
        == crate::meta::field(doc.meta, other) by {
        crate::reading::law_value_reads(doc.meta, key, value, other);
    }
}

/// A document whose field was set to a reference that leads to a place gets it.
pub proof fn lemma_gets_up(
    ws: WsView,
    after: WsView,
    key: Seq<char>,
    path: Seq<char>,
    place: Seq<char>,
    raw: Seq<char>,
)
    requires
        crate::workspace::loaded(ws.files, path) matches Ok((text, doc)) && (
        crate::document::set_in(text, doc.carrier, key, MetaView::Text(raw)) matches Some(out)
            && crate::files::lookup(after.files, path) == Some(crate::files::FileView::Text(out))),
        crate::workspace::reference_path(after.ids, after.name, path, raw) == Some(place),
    ensures
        gets_up(ws, after, key, path, place),
{
    let (text, doc) = crate::workspace::loaded(ws.files, path)->Ok_0;
    let value = MetaView::Text(raw);
    lemma_two_touches(path, text, doc, crate::reading::Touch::Value(key, value));
    let touches = linking_up(key, raw);
    assert(crate::reading::all_touched(text, doc.carrier, linking_up(key, raw)) is Some);
    if (doc.meta is Mapping || doc.meta is Null) && crate::reading::reads_through(
        path,
        text,
        touches,
    ) {
        crate::reading::law_touched_reads(path, text, touches);
        lemma_differs(doc, key, value);
    }
}

/// A document to whose field a reference was added that leads to a place gets it.
pub proof fn lemma_gets_down(
    ws: WsView,
    after: WsView,
    key: Seq<char>,
    path: Seq<char>,
    place: Seq<char>,
    raw: Seq<char>,
)
    requires
        crate::workspace::loaded(ws.files, path) matches Ok((text, doc)) && (
        crate::document::appended_in(text, doc.carrier, key, raw) matches Some(out)
            && crate::files::lookup(after.files, path) == Some(crate::files::FileView::Text(out))),
        crate::workspace::reference_path(after.ids, after.name, path, raw) == Some(place),
    ensures
        gets_down(ws, after, key, path, place),
{
    let (text, doc) = crate::workspace::loaded(ws.files, path)->Ok_0;
    let entry = MetaView::Text(raw);
    let one = MetaView::List(seq![entry]);
    lemma_two_touches(path, text, doc, crate::reading::Touch::Append(key, entry));
    lemma_two_touches(path, text, doc, crate::reading::Touch::Value(key, one));
    match crate::reading::all_touched(text, doc.carrier, linking_down(key, raw)) {
        Some(_) => {
            if crate::reading::reads_through(path, text, linking_down(key, raw)) {
                crate::reading::law_touched_reads(path, text, linking_down(key, raw));
                match crate::meta::field(doc.meta, key) {
                    Some(MetaView::List(items)) => {
                        lemma_differs(doc, key, MetaView::List(items.push(entry)));
                    },
                    _ => {},
                }
            }
        },
        None => {
            if (doc.meta is Mapping || doc.meta is Null) && crate::reading::reads_through(
                path,
                text,
                listing_one(key, raw),
            ) {
                crate::reading::law_touched_reads(path, text, listing_one(key, raw));
                lemma_differs(doc, key, one);
            }
        },
    }
}

/// What two documents that were linked hold: each that led to the other is as it was, and
/// each that did not gets a reference that does. No document is to carry an identifier that
/// it got by that.
pub proof fn lemma_linked_hold(
    ws: WsView,
    spanning: Seq<char>,
    inverse: Seq<char>,
    child: Seq<char>,
    up: bool,
    parent: Seq<char>,
    down: bool,
    after: WsView,
)
    requires
        crate::registry::is_sound(ws.ids),
        child != parent,
        after.name == ws.name,
        crate::workspace::loaded(ws.files, child) matches Ok(child_read)
            && crate::workspace::loaded(ws.files, parent) matches Ok(parent_read) && both_linked(
            ws,
            child,
            child_read,
            up,
            parent,
            parent_read,
            down,
        ) matches Ok((_, cs)) && cs.ids == after.ids && (crate::files::changed_all(
            ws.files,
            cs.ops,
        ) matches Ok(files) && files == after.files) && crate::workspace::spanning_names(
            ws.relations,
        ) == Ok::<_, Fault<Seq<char>>>((spanning, inverse)) && can_link(
            ws,
            cs.ids,
            spanning,
            inverse,
            child,
            crate::title::title_of(child_read.1, child),
            up,
            parent,
            crate::title::title_of(parent_read.1, parent),
            down,
        ),
    ensures
        if up {
            crate::files::lookup(after.files, child) == crate::files::lookup(ws.files, child)
        } else {
            gets_up(ws, after, inverse, child, parent)
        },
        if down {
            crate::files::lookup(after.files, parent) == crate::files::lookup(ws.files, parent)
        } else {
            gets_down(ws, after, spanning, parent, child)
        },
{
    let child_read = crate::workspace::loaded(ws.files, child)->Ok_0;
    let parent_read = crate::workspace::loaded(ws.files, parent)->Ok_0;
    let child_title = crate::title::title_of(child_read.1, child);
    let parent_title = crate::title::title_of(parent_read.1, parent);
    let none = crate::change::no_change(ws);
    let first = after_up(ws, inverse, child, parent, parent_title, up);
    let cs = (both_linked(ws, child, child_read, up, parent, parent_read, down)->Ok_0).1;
    lemma_both_linked(ws, child, child_read, up, parent, parent_read, down);
    crate::change::law_identified_keeps(ws, none, parent);
    crate::change::law_identified_keeps(ws, first, child);
    let start = Seq::<crate::files::OpView>::empty();
    assert(none.ops =~= start);
    let (a, f1) = if up {
        (start, ws.files)
    } else {
        let raw = (crate::change::authored(
            ws,
            none,
            inverse,
            child,
            parent,
            parent_title,
        )->Ok_0).0;
        let text = crate::document::set_in(
            child_read.0,
            child_read.1.carrier,
            inverse,
            MetaView::Text(raw),
        )->Some_0;
        let op = crate::files::write_text(child, text);
        let data = crate::files::FileView::Text(text);
        crate::landing::lemma_changed_push(ws.files, start, op);
        crate::files::law_stored(ws.files, child, data, child);
        crate::files::law_stored(ws.files, child, data, parent);
        (start.push(op), crate::files::stored(ws.files, child, data))
    };
    if down {
        assert(cs.ops =~= a);
    } else {
        let raw = (crate::change::authored(
            ws,
            if up {
                none
            } else {
                first.with(a[0])
            },
            spanning,
            parent,
            child,
            child_title,
        )->Ok_0).0;
        let text = crate::document::appended_in(
            parent_read.0,
            parent_read.1.carrier,
            spanning,
            raw,
        )->Some_0;
        let op = crate::files::write_text(parent, text);
        let data = crate::files::FileView::Text(text);
        assert(cs.ops =~= a.push(op));
        crate::landing::lemma_changed_push(ws.files, a, op);
        crate::files::law_stored(f1, parent, data, parent);
        crate::files::law_stored(f1, parent, data, child);
        crate::change::law_authored_leads(ws, first, spanning, parent, child, child_title);
        lemma_gets_down(ws, after, spanning, parent, child, raw);
    }
    if !up {
        crate::change::law_authored_leads(ws, none, inverse, child, parent, parent_title);
        let raw = (crate::change::authored(
            ws,
            none,
            inverse,
            child,
            parent,
            parent_title,
        )->Ok_0).0;
        assert(crate::registry::keeps_paths(first.ids, after.ids));
        assert(crate::workspace::reference_path(after.ids, ws.name, child, raw) == Some(parent));
        lemma_gets_up(ws, after, inverse, child, parent, raw);
    }
}

/// An adoption links what is not linked: a child that names its parent is as it was, and
/// one that does not gets a reference to it; and so the parent, at the end of its list of
/// children. The links can be authored so that they lead, and no document is to carry an
/// identifier that it got by the adoption.
pub proof fn law_adopted_reads(ws: WsView, child: Seq<char>, parent: Seq<char>, after: WsView)
    requires
        crate::registry::is_sound(ws.ids),
        adoption(ws, child, parent) matches Ok((cs, _)) && (!ws.settings.id_storage.stamps()
            || cs.fresh.len() == 0) && (crate::change::landed(ws, cs) matches Ok(w) && w == after),
        ({
            let c = crate::path::normalized(child);
            let p = crate::path::normalized(parent);
            crate::workspace::spanning_names(ws.relations) matches Ok((spanning, inverse))
                && crate::workspace::loaded(ws.files, c) matches Ok(child_read)
                && crate::workspace::loaded(ws.files, p) matches Ok(parent_read) && can_link(
                ws,
                after.ids,
                spanning,
                inverse,
                c,
                crate::title::title_of(child_read.1, c),
                crate::workspace::entry_at(ws, child_read.1, inverse, c, p) is Some,
                p,
                crate::title::title_of(parent_read.1, p),
                has_child(ws, parent_read.1, p, c),
            )
        }),
    ensures
        ({
            let c = crate::path::normalized(child);
            let p = crate::path::normalized(parent);
            let (spanning, inverse) = crate::workspace::spanning_names(ws.relations)->Ok_0;
            let child_doc = (crate::workspace::loaded(ws.files, c)->Ok_0).1;
            let parent_doc = (crate::workspace::loaded(ws.files, p)->Ok_0).1;
            &&& if crate::workspace::entry_at(ws, child_doc, inverse, c, p) is Some {
                crate::files::lookup(after.files, c) == crate::files::lookup(ws.files, c)
            } else {
                gets_up(ws, after, inverse, c, p)
            }
            &&& if has_child(ws, parent_doc, p, c) {
                crate::files::lookup(after.files, p) == crate::files::lookup(ws.files, p)
            } else {
                gets_down(ws, after, spanning, p, c)
            }
        }),
{
    let c = crate::path::normalized(child);
    let p = crate::path::normalized(parent);
    let (spanning, inverse) = crate::workspace::spanning_names(ws.relations)->Ok_0;
    let child_read = crate::workspace::loaded(ws.files, c)->Ok_0;
    let parent_read = crate::workspace::loaded(ws.files, p)->Ok_0;
    let up = crate::workspace::entry_at(ws, child_read.1, inverse, c, p) is Some;
    let down = has_child(ws, parent_read.1, p, c);
    let (drafted, _) = drafted_adoption(ws, child, parent)->Ok_0;
    crate::change::lemma_stamps_keep(ws, drafted, drafted.fresh);
    assert(drafted.fresh.len() == 0 ==> drafted.fresh =~= Seq::empty());
    assert((adoption(ws, child, parent)->Ok_0).0 == drafted);
    lemma_linked_hold(ws, spanning, inverse, c, up, p, down, after);
}

/// Whether an item of a list leads to a place.
pub open spec fn item_leads(ws: WsView, path: Seq<char>, item: MetaView, place: Seq<char>) -> bool {
    item matches MetaView::Text(raw) && crate::workspace::reference_path(
        ws.ids,
        ws.name,
        path,
        raw,
    ) == Some(place)
}

/// Whether a document loses the first item of the list of a field that leads to a place,
/// and reads without it, and else as it did, where the edit reads back; or is as it was,
/// where no item leads there.
pub open spec fn loses(
    ws: WsView,
    after: WsView,
    key: Seq<char>,
    path: Seq<char>,
    place: Seq<char>,
) -> bool {
    crate::workspace::loaded(ws.files, path) matches Ok((text, doc)) && (crate::meta::field(
        doc.meta,
        key,
    ) matches Some(MetaView::List(items)) ==> (if forall|i: int|
        0 <= i < items.len() ==> !item_leads(ws, path, #[trigger] items[i], place) {
        crate::files::lookup(after.files, path) == crate::files::lookup(ws.files, path)
    } else {
        exists|i: int|
            {
                let touch = crate::reading::Touch::Remove(key, i);
                &&& 0 <= i < items.len() && item_leads(ws, path, #[trigger] items[i], place)
                &&& forall|j: int| 0 <= j < i ==> !item_leads(ws, path, #[trigger] items[j], place)
                &&& crate::reading::touched(text, doc.carrier, touch) matches Some(out)
                    && crate::files::lookup(after.files, path) == Some(
                    crate::files::FileView::Text(out),
                )
                &&& crate::reading::reads_through(path, text, seq![touch]) ==> (
                crate::workspace::loaded(after.files, path) matches Ok((_, now)) && differs_at(
                    doc,
                    now,
                    key,
                    MetaView::List(items.remove(i)),
                ))
            }
    }))
}

/// A document whose link down was taken out loses it.
pub proof fn lemma_loses(
    ws: WsView,
    after: WsView,
    key: Seq<char>,
    path: Seq<char>,
    place: Seq<char>,
)
    requires
        crate::workspace::loaded(ws.files, path) matches Ok(read) && (unlinked_down(
            ws,
            key,
            path,
            read,
            place,
        ) matches Ok(out) && crate::files::lookup(after.files, path) == (match out {
            Some(text) => Some(crate::files::FileView::Text(text)),
            None => crate::files::lookup(ws.files, path),
        })),
    ensures
        loses(ws, after, key, path, place),
{
    let (text, doc) = crate::workspace::loaded(ws.files, path)->Ok_0;
    match crate::meta::field(doc.meta, key) {
        Some(MetaView::List(items)) => {
            let slots = crate::meta::slots_at(doc.meta, key);
            let paths = crate::workspace::slot_paths(ws.ids, ws.name, path, slots);
            crate::workspace::lemma_first_at(paths, place);
            assert(paths.len() == items.len());
            assert forall|i: int| 0 <= i < items.len() implies (paths[i] == Some(place))
                == item_leads(ws, path, #[trigger] items[i], place) by {
                assert(slots[i] == crate::meta::slot_of(items[i]));
            }
            match crate::workspace::entry_at(ws, doc, key, path, place) {
                Some(i) => {
                    assert(item_leads(ws, path, items[i], place));
                    let touch = crate::reading::Touch::Remove(key, i);
                    if crate::reading::reads_through(path, text, seq![touch]) {
                        crate::reading::law_touched_reads(path, text, seq![touch]);
                        crate::reading::lemma_touch_one(text, doc.carrier, doc, touch);
                        lemma_differs(doc, key, MetaView::List(items.remove(i)));
                    }
                },
                None => {},
            }
        },
        _ => {},
    }
}

} // verus!
