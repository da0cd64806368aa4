//! The removal of a document for good.

use crate::adopt::unlinked_down;
use crate::change::{ChangeSet, ChangeView};
use crate::document::Document;
use crate::error::{Error, Fault};
use crate::link::Link;
use crate::path::opt_text;
use crate::removal::{danglers, findings_view, owner_of, Diagnosis, Finding, FindingView};
use crate::walk::{no_texts, push_text, SiteView};
use crate::workspace::{Outcome, Workspace, WsView};
use vstd::prelude::*;

verus! {

/// Texts with commas between them.
pub open spec fn listed(texts: Seq<Seq<char>>) -> Seq<char>
    decreases texts.len(),
{
    if texts.len() == 0 {
        Seq::empty()
    } else if texts.len() == 1 {
        texts[0]
    } else {
        listed(texts.drop_last()) + ", "@ + texts.last()
    }
}

/// The targets of the children of a document, as they are written.
pub open spec fn child_targets(ws: WsView, doc: crate::document::DocView) -> Seq<Seq<char>> {
    crate::workspace::child_references(ws.relations, doc.meta).map_values(
        |raw: Seq<char>| crate::link::parse_link(raw).target,
    )
}

/// A document that is to be removed: its parts, its parent, and the node it is
/// the body of.
pub struct Subject {
    pub text: String,
    pub doc: Document,
    pub parent: Option<String>,
    pub owner: Option<String>,
}

/// What a [`Subject`] holds.
pub struct SubjectView {
    pub text: Seq<char>,
    pub doc: crate::document::DocView,
    pub parent: Option<Seq<char>>,
    pub owner: Option<Seq<char>>,
}

impl View for Subject {
    type V = SubjectView;

    open spec fn view(&self) -> SubjectView {
        SubjectView {
            text: self.text@,
            doc: self.doc@,
            parent: opt_text(self.parent),
            owner: opt_text(self.owner),
        }
    }
}

/// Where a removed document goes.
#[derive(Debug, Clone, Copy, PartialEq, Eq, Structural)]
pub enum Removal {
    /// Nowhere.
    Destroyed,
    /// To the recycle bin.
    Binned,
}

/// What keeps the body of a node from being removed.
pub open spec fn body_fault(removal: Removal, path: Seq<char>, owner: Seq<char>) -> Fault<Seq<char>> {
    match removal {
        Removal::Destroyed => Fault::BodyOf(path, owner),
        Removal::Binned => Fault::BinnedBody(path, owner),
    }
}

/// The document at `path`, to be removed. One that contains documents, or that
/// is the body of a node, goes by force only.
pub open spec fn removable(ws: WsView, path: Seq<char>, force: bool, removal: Removal) -> Outcome<
    SubjectView,
> {
    match crate::workspace::spanning_names(ws.relations) {
        Err(e) => Err(e),
        Ok((_, inverse)) => match crate::workspace::loaded(ws.files, path) {
            Err(e) => Err(e),
            Ok((text, doc)) => {
                let children = child_targets(ws, doc);
                let owner = owner_of(ws.files, path);
                if children.len() > 0 && !force {
                    Err(Fault::HasChildren(path, children.len() as usize, listed(children)))
                } else if owner is Some && !force {
                    Err(body_fault(removal, path, owner->Some_0))
                } else {
                    Ok(
                        SubjectView {
                            text,
                            doc,
                            parent: crate::workspace::single_path(ws, doc, inverse, path),
                            owner,
                        },
                    )
                }
            },
        },
    }
}

/// The text of the parent of a removed document, without its entry; none where
/// there is nothing to take out.
pub open spec fn parent_without(
    ws: WsView,
    spanning: Seq<char>,
    parent: Option<Seq<char>>,
    path: Seq<char>,
) -> Outcome<Option<Seq<char>>> {
    match parent {
        None => Ok(None),
        Some(parent) => match crate::workspace::loaded(ws.files, parent) {
            Err(e) => Err(e),
            Ok(read) => unlinked_down(ws, spanning, parent, read, path),
        },
    }
}

/// The file that goes with a document, where it is there.
pub open spec fn present_companion(
    ws: WsView,
    doc: crate::document::DocView,
    path: Seq<char>,
) -> Option<Seq<char>> {
    match crate::maintain::companion(doc, path) {
        Some(file) => if crate::files::occupied(ws.files, file) {
            Some(file)
        } else {
            None
        },
        None => None,
    }
}

/// The identifiers when the document at `path` is gone.
pub open spec fn ids_without(ids: crate::registry::IdSeq, path: Seq<char>) ->
    crate::registry::IdSeq {
    match crate::registry::id_at(ids, path) {
        Some(id) => crate::registry::retired(ids, id),
        None => ids,
    }
}

/// The changes that remove a document.
pub open spec fn delete_changes(
    ws: WsView,
    path: Seq<char>,
    companion: Option<Seq<char>>,
    parent: Option<Seq<char>>,
    parent_text: Option<Seq<char>>,
) -> ChangeView {
    let gone = crate::change::no_change(ws).with(crate::files::OpView::Remove(path));
    let both = match companion {
        Some(file) => gone.with(crate::files::OpView::Remove(file)),
        None => gone,
    };
    let unlinked = match (parent, parent_text) {
        (Some(parent), Some(text)) => both.with(crate::files::write_text(parent, text)),
        _ => both,
    };
    unlinked.with_ids(ids_without(ws.ids, path))
}

/// The changes that remove a document, and the links that this breaks; or why
/// there are none.
pub open spec fn deletion(ws: WsView, path: Seq<char>, force: bool, diagnosis: Diagnosis) -> Outcome<
    (ChangeView, Seq<FindingView>),
> {
    let path = crate::path::normalized(path);
    match (
        crate::workspace::spanning_names(ws.relations),
        removable(ws, path, force, Removal::Destroyed),
    ) {
        (Err(e), _) => Err(e),
        (_, Err(e)) => Err(e),
        (Ok((spanning, _)), Ok(subject)) => match danglers(
            ws,
            diagnosis,
            path,
            subject.parent,
            subject.owner,
        ) {
            Err(e) => Err(e),
            Ok(found) => match parent_without(ws, spanning, subject.parent, path) {
                Err(e) => Err(e),
                Ok(parent_text) => Ok(
                    (
                        delete_changes(
                            ws,
                            path,
                            present_companion(ws, subject.doc, path),
                            subject.parent,
                            parent_text,
                        ),
                        found,
                    ),
                ),
            },
        },
    }
}

fn list(texts: &Vec<String>) -> (r: String)
    ensures
        r@ == listed(crate::text::texts(texts@)),
{
    let ghost all = crate::text::texts(texts@);
    let mut out = String::new();
    let mut i: usize = 0;
    proof {
        assert(all.take(0) =~= Seq::empty());
    }
    while i < texts.len()
        invariant
            i <= texts@.len(),
            all == crate::text::texts(texts@),
            out@ == listed(all.take(i as int)),
        decreases texts@.len() - i,
    {
        proof {
            assert(all.take(i + 1).drop_last() =~= all.take(i as int));
            assert(all.take(i + 1).last() == texts@[i as int]@);
        }
        if i > 0 {
            out.append(", ");
            out.append(&texts[i]);
        } else {
            out = texts[i].clone();
        }
        i = i + 1;
    }
    proof {
        assert(all.take(i as int) =~= all);
    }
    out
}

impl Workspace {
    fn list_children(&self, doc: &Document) -> (r: Vec<String>)
        ensures
            crate::text::texts(r@) == child_targets(self@, doc@),
    {
        let raws = self.child_links(doc);
        let ghost all = crate::text::texts(raws@);
        let mut out = no_texts();
        let mut i: usize = 0;
        while i < raws.len()
            invariant
                i <= raws@.len(),
                all == crate::text::texts(raws@),
                crate::text::texts(out@).len() == i,
                forall|j: int|
                    0 <= j < i ==> #[trigger] crate::text::texts(out@)[j]
                        == crate::link::parse_link(all[j]).target,
            decreases raws@.len() - i,
        {
            push_text(&mut out, Link::parse(&raws[i]).target);
            i = i + 1;
        }
        proof {
            assert(crate::text::texts(out@) =~= child_targets(self@, doc@));
        }
        out
    }

    /// The document at `path`, to be removed. One that contains documents, or
    /// that is the body of a node, goes by force only.
    pub fn subject(&self, path: &str, force: bool, removal: Removal) -> (r: Result<Subject, Error>)
        ensures
            match r {
                Ok(s) => removable(self@, path@, force, removal) matches Ok(v) && v == s@,
                Err(e) => removable(self@, path@, force, removal) matches Err(f) && f == crate::error::fault(
                    e,
                ),
            },
    {
        let (_, inverse) = match self.spanning_pair() {
            Ok(pair) => pair,
            Err(e) => {
                return Err(e);
            },
        };
        let (text, doc) = match self.load(path) {
            Ok(read) => read,
            Err(e) => {
                return Err(e);
            },
        };
        let children = self.list_children(&doc);
        proof {
            assert(crate::text::texts(children@).len() == children@.len());
        }
        if children.len() > 0 && !force {
            let n: usize = children.len();
            return Err(Fault::HasChildren(path.to_owned(), n, list(&children)));
        }
        let owner = self.content_owner(path);
        match &owner {
            Some(owner) => if !force {
                return Err(
                    match removal {
                        Removal::Destroyed => Fault::BodyOf(path.to_owned(), owner.clone()),
                        Removal::Binned => Fault::BinnedBody(path.to_owned(), owner.clone()),
                    },
                );
            },
            None => {},
        }
        let parent = self.single_target(&doc, &inverse, path);
        Ok(Subject { text, doc, parent, owner })
    }

    /// The text of the parent of a removed document, without its entry; none
    /// where there is nothing to take out.
    pub fn unlink_from_parent(&self, spanning: &str, parent: &Option<String>, path: &str) -> (r:
        Result<Option<String>, Error>)
        ensures
            crate::workspace::told_opt(r) == parent_without(
                self@,
                spanning@,
                opt_text(*parent),
                path@,
            ),
    {
        match parent {
            None => Ok(None),
            Some(parent) => match self.load(parent) {
                Err(e) => Err(e),
                Ok((text, doc)) => self.unlink_down(spanning, parent, &text, &doc, path),
            },
        }
    }

    /// The file that goes with a document, where it is there.
    pub fn companion_of(&self, doc: &Document, path: &str) -> (r: Option<String>)
        ensures
            opt_text(r) == present_companion(self@, doc@, path@),
    {
        match crate::maintain::paired_file(doc, path) {
            Some(file) => if self.is_taken(&file) {
                Some(file)
            } else {
                None
            },
            None => None,
        }
    }

    /// The changes that remove a document, and the links that this breaks.
    pub fn plan_delete(&self, path: &str, force: bool, diagnosis: Diagnosis) -> (r: Result<
        (ChangeSet, Vec<Finding>),
        Error,
    >)
        ensures
            ({
                let plan = deletion(self@, path@, force, diagnosis);
                match r {
                    Ok((cs, found)) => plan matches Ok((c, v)) && c == cs@ && v == findings_view(
                        found@,
                    ),
                    Err(e) => plan matches Err(f) && f == crate::error::fault(e),
                }
            }),
    {
        let path = crate::path::normalize(path);
        let (spanning, _) = match self.spanning_pair() {
            Ok(pair) => pair,
            Err(e) => {
                return Err(e);
            },
        };
        let subject = match self.subject(&path, force, Removal::Destroyed) {
            Ok(subject) => subject,
            Err(e) => {
                return Err(e);
            },
        };
        let found = match self.removal_danglers(
            diagnosis,
            &path,
            &subject.parent,
            &subject.owner,
        ) {
            Ok(found) => found,
            Err(e) => {
                return Err(e);
            },
        };
        let parent_text = match self.unlink_from_parent(&spanning, &subject.parent, &path) {
            Ok(text) => text,
            Err(e) => {
                return Err(e);
            },
        };
        let mut cs = self.change();
        cs.remove(&path);
        match self.companion_of(&subject.doc, &path) {
            Some(file) => {
                cs.remove(&file);
            },
            None => {},
        }
        match (&subject.parent, &parent_text) {
            (Some(parent), Some(text)) => {
                cs.write(parent, text);
            },
            _ => {},
        }
        match self.registry.id_for_path(&path) {
            Some(id) => {
                cs.retire(&id);
            },
            None => {},
        }
        Ok((cs, found))
    }

    /// Removes a document, the file that goes with it, and the entry that its
    /// parent holds for it; its identifier is retired. Gives the links that this
    /// breaks, unless they are not asked for. A refusal changes nothing.
    pub fn delete_with(&mut self, path: &str, force: bool, diagnosis: Diagnosis) -> (r: Result<
        Vec<Finding>,
        Error,
    >)
        ensures
            ({
                let done = crate::change::carried_out(
                    old(self)@,
                    deletion(old(self)@, path@, force, diagnosis),
                );
                match r {
                    Ok(found) => done matches Ok((after, v)) && after == final(self)@ && v
                        == findings_view(found@),
                    Err(e) => done matches Err(f) && f == crate::error::fault(e) && *final(self)
                        == *old(self),
                }
            }),
    {
        match self.plan_delete(path, force, diagnosis) {
            Ok((cs, found)) => match self.commit(cs) {
                Ok(_) => Ok(found),
                Err(e) => Err(e),
            },
            Err(e) => Err(e),
        }
    }

    /// Removes a document, and gives the links that this breaks.
    pub fn delete(&mut self, path: &str, force: bool) -> (r: Result<Vec<Finding>, Error>)
        ensures
            ({
                let done = crate::change::carried_out(
                    old(self)@,
                    deletion(old(self)@, path@, force, Diagnosis::Report),
                );
                match r {
                    Ok(found) => done matches Ok((after, v)) && after == final(self)@ && v
                        == findings_view(found@),
                    Err(e) => done matches Err(f) && f == crate::error::fault(e) && *final(self)
                        == *old(self),
                }
            }),
    {
        self.delete_with(path, force, Diagnosis::Report)
    }
}

/// Not asking for the links that a removal breaks makes no other difference: the
/// same removals are made, or refused for the same reason.
pub proof fn law_diagnosis_changes_nothing(ws: WsView, path: Seq<char>, force: bool)
    ensures
        match (
            deletion(ws, path, force, Diagnosis::Report),
            deletion(ws, path, force, Diagnosis::Skip),
        ) {
            (Ok((told, _)), Ok((untold, found))) => told == untold && found.len() == 0,
            (Err(a), Err(b)) => a == b,
            _ => false,
        },
{
}

/// After a removal, the document is gone, and so is the file that went with it;
/// its parent holds its new text; every other file is as it was; and its
/// identifier is carried by nothing, and stays known.
pub proof fn law_delete_lands(
    ws: WsView,
    path: Seq<char>,
    force: bool,
    diagnosis: Diagnosis,
    after: WsView,
)
    requires
        deletion(ws, path, force, diagnosis) matches Ok((cs, _)) && crate::change::landed(ws, cs)
            matches Ok(w) && w == after,
        removable(ws, crate::path::normalized(path), force, Removal::Destroyed) matches Ok(subject)
            && subject.parent != Some(crate::path::normalized(path)) && (subject.parent is Some ==> subject.parent
            != present_companion(ws, subject.doc, crate::path::normalized(path))),
    ensures
        ({
            let p = crate::path::normalized(path);
            removable(ws, p, force, Removal::Destroyed) matches Ok(subject) && ({
                let companion = present_companion(ws, subject.doc, p);
                &&& crate::files::lookup(after.files, p) is None
                &&& companion matches Some(c) ==> crate::files::lookup(after.files, c) is None
                &&& subject.parent matches Some(parent) ==> (crate::workspace::spanning_names(
                    ws.relations,
                ) matches Ok((spanning, _)) && parent_without(ws, spanning, subject.parent, p)
                    matches Ok(out) && crate::files::lookup(after.files, parent) == (match out {
                    Some(text) => Some(crate::files::FileView::Text(text)),
                    None => crate::files::lookup(ws.files, parent),
                }))
                &&& forall|q: Seq<char>|
                    q != p && companion != Some(q) && subject.parent != Some(q)
                        ==> #[trigger] crate::files::lookup(after.files, q) == crate::files::lookup(
                        ws.files,
                        q,
                    )
            })
        }),
        crate::registry::id_at(ws.ids, crate::path::normalized(path)) matches Some(id)
            ==> crate::registry::path_of(after.ids, id) is None && crate::registry::is_known(
            after.ids,
            id,
        ),
{
    let p = crate::path::normalized(path);
    let subject = removable(ws, p, force, Removal::Destroyed)->Ok_0;
    let spanning = (crate::workspace::spanning_names(ws.relations)->Ok_0).0;
    let companion = present_companion(ws, subject.doc, p);
    let parent_text = parent_without(ws, spanning, subject.parent, p)->Ok_0;
    let cs = delete_changes(ws, p, companion, subject.parent, parent_text);
    match crate::registry::id_at(ws.ids, p) {
        Some(id) => {
            crate::registry::law_retired(ws.ids, id, id);
        },
        None => {},
    }
    let none = Seq::<crate::files::OpView>::empty();
    let a = none.push(crate::files::OpView::Remove(p));
    crate::landing::lemma_changed_push(ws.files, none, crate::files::OpView::Remove(p));
    let f1 = crate::files::without(ws.files, p);
    crate::files::law_without(ws.files, p, p);
    let (b, f2) = match companion {
        Some(c) => {
            crate::landing::lemma_changed_push(ws.files, a, crate::files::OpView::Remove(c));
            crate::files::law_without(f1, c, c);
            crate::files::law_without(f1, c, p);
            (a.push(crate::files::OpView::Remove(c)), crate::files::without(f1, c))
        },
        None => (a, f1),
    };
    assert forall|q: Seq<char>| q != p && companion != Some(q) implies #[trigger] crate::files::lookup(
        f2,
        q,
    ) == crate::files::lookup(ws.files, q) by {
        crate::files::law_without(ws.files, p, q);
        match companion {
            Some(c) => {
                crate::files::law_without(f1, c, q);
            },
            None => {},
        }
    }
    match (subject.parent, parent_text) {
        (Some(parent), Some(text)) => {
            crate::landing::lemma_changed_push(
                ws.files,
                b,
                crate::files::write_text(parent, text),
            );
            let data = crate::files::FileView::Text(text);
            assert forall|q: Seq<char>| q != parent implies #[trigger] crate::files::lookup(
                crate::files::stored(f2, parent, data),
                q,
            ) == crate::files::lookup(f2, q) by {
                crate::files::law_stored(f2, parent, data, q);
            }
        },
        _ => {},
    }
}

proof fn lemma_deleted_files(
    ws: WsView,
    p: Seq<char>,
    companion: Option<Seq<char>>,
    parent: Option<Seq<char>>,
    parent_text: Option<Seq<char>>,
    after: WsView,
)
    requires
        crate::change::landed(
            ws,
            delete_changes(ws, p, companion, parent, parent_text),
        ) matches Ok(w) && w == after,
    ensures
        after.files == crate::naming::left(
            ws.files,
            p,
            companion,
            match (parent, parent_text) {
                (Some(parent), Some(text)) => Some((parent, crate::files::FileView::Text(text))),
                _ => None,
            },
        ),
{
    let none = Seq::<crate::files::OpView>::empty();
    let cs = delete_changes(ws, p, companion, parent, parent_text);
    let a = none.push(crate::files::OpView::Remove(p));
    crate::landing::lemma_changed_push(ws.files, none, crate::files::OpView::Remove(p));
    let b = match companion {
        Some(c) => {
            crate::landing::lemma_changed_push(ws.files, a, crate::files::OpView::Remove(c));
            a.push(crate::files::OpView::Remove(c))
        },
        None => a,
    };
    match (parent, parent_text) {
        (Some(parent), Some(text)) => {
            crate::landing::lemma_changed_push(
                ws.files,
                b,
                crate::files::write_text(parent, text),
            );
            assert(cs.ops =~= b.push(crate::files::write_text(parent, text)));
        },
        _ => {
            assert(cs.ops =~= b);
        },
    }
}

/// A delete breaks what it says it breaks, and nothing else. Take a link that reached a
/// file, by path, by identifier or by a bare name, in a document that a survey of the
/// workspace covers and that is neither the removed document nor its companion. Such a
/// document reads as it did, unless it is the parent. A link to the removed document is
/// among what is reported, unless it is an entry of the parent, the first of which goes
/// with it. A link to the companion, which goes with it too, reaches no file. Every other
/// link reaches what it reached. The parent, where it loses its entry, declares the title it
/// declared.
pub proof fn law_delete_breaks_what_it_says(
    ws: WsView,
    path: Seq<char>,
    force: bool,
    after: WsView,
    spanning: Seq<char>,
    inverse: Seq<char>,
    source: Seq<char>,
    e: int,
)
    requires
        crate::registry::is_sound(ws.ids),
        deletion(ws, path, force, Diagnosis::Report) matches Ok((cs, _)) && crate::change::landed(
            ws,
            cs,
        ) matches Ok(w) && w == after,
        crate::workspace::spanning_names(ws.relations) == Ok::<_, Fault<Seq<char>>>(
            (spanning, inverse),
        ),
        ({
            let p = crate::path::normalized(path);
            removable(ws, p, force, Removal::Destroyed) matches Ok(subject) && ({
                let companion = present_companion(ws, subject.doc, p);
                &&& subject.parent != Some(p)
                &&& subject.parent is Some ==> subject.parent != companion
                &&& subject.parent matches Some(parent) ==> crate::walk::declared_title(
                    after.files,
                    parent,
                ) == crate::walk::declared_title(ws.files, parent)
                &&& source != p
                &&& companion != Some(source)
                &&& crate::walk::surveyed(ws, crate::walk::root_of(ws, p, inverse)).contains(
                    source,
                )
                &&& crate::workspace::loaded(ws.files, source) matches Ok((_, doc)) && ({
                    let entries = crate::walk::entries_of(
                        ws,
                        crate::walk::all_named(ws.files),
                        source,
                        doc,
                    );
                    0 <= e < entries.len() && (entries[e].reach matches Some(reach)
                        && crate::files::lookup(ws.files, reach.path) is Some)
                })
            })
        }),
    ensures
        ({
            let p = crate::path::normalized(path);
            let found = (deletion(ws, path, force, Diagnosis::Report)->Ok_0).1;
            let subject = removable(ws, p, force, Removal::Destroyed)->Ok_0;
            let companion = present_companion(ws, subject.doc, p);
            let doc = (crate::workspace::loaded(ws.files, source)->Ok_0).1;
            let entry = crate::walk::entries_of(
                ws,
                crate::walk::all_named(ws.files),
                source,
                doc,
            )[e];
            let reach = entry.reach->Some_0;
            let links = crate::walk::entries_of(
                after,
                crate::walk::all_named(after.files),
                source,
                doc,
            );
            &&& subject.parent != Some(source) ==> crate::workspace::loaded(after.files, source)
                == crate::workspace::loaded(ws.files, source)
            &&& e < links.len() && links[e].site == entry.site && links[e].target == entry.target
            &&& if reach.path == p {
                ||| subject.parent == Some(source) && (entry.site matches SiteView::Relation(
                    field,
                    _,
                ) && field == spanning)
                ||| found.contains(
                    match reach.id {
                        Some(id) => FindingView::DanglingId(source, entry.site, id),
                        None => FindingView::BrokenLink(source, entry.site, entry.target),
                    },
                )
            } else if companion == Some(reach.path) {
                crate::files::lookup(after.files, reach.path) is None
            } else {
                crate::files::lookup(after.files, reach.path) is Some && links[e].reach == Some(
                    reach,
                )
            }
        }),
{
    let p = crate::path::normalized(path);
    let (cs, found) = deletion(ws, path, force, Diagnosis::Report)->Ok_0;
    let subject = removable(ws, p, force, Removal::Destroyed)->Ok_0;
    let companion = present_companion(ws, subject.doc, p);
    let named = crate::walk::all_named(ws.files);
    let named_after = crate::walk::all_named(after.files);
    let docs = crate::walk::surveyed(ws, crate::walk::root_of(ws, p, inverse));
    let doc = (crate::workspace::loaded(ws.files, source)->Ok_0).1;
    let entry = crate::walk::entries_of(ws, named, source, doc)[e];
    let now = crate::walk::entries_of(after, named_after, source, doc)[e];
    let reach = entry.reach->Some_0;
    law_delete_lands(ws, path, force, Diagnosis::Report, after);
    if subject.parent != Some(source) {
        assert(crate::files::lookup(after.files, source) == crate::files::lookup(
            ws.files,
            source,
        ));
    }
    crate::walk::law_same_links(ws, named, after, named_after, source, doc);
    assert(crate::walk::same_link(ws, named, after, named_after, source, entry, now));
    let own_entry = subject.parent == Some(source) && (entry.site matches SiteView::Relation(
        field,
        _,
    ) && field == spanning);
    if reach.path == p && !own_entry {
        let f = match reach.id {
            Some(id) => FindingView::DanglingId(source, entry.site, id),
            None => FindingView::BrokenLink(source, entry.site, entry.target),
        };
        let d = choose|d: int| 0 <= d < docs.len() && docs[d] == source;
        assert(crate::removal::finds_at(
            ws,
            named,
            docs[d],
            p,
            subject.parent,
            spanning,
            e,
            f,
        ));
        crate::removal::law_danglers(
            ws,
            p,
            subject.parent,
            subject.owner,
            spanning,
            inverse,
            f,
        );
    } else if reach.path != p && companion != Some(reach.path) {
        if subject.parent != Some(reach.path) {
            assert(crate::files::lookup(after.files, reach.path) == crate::files::lookup(
                ws.files,
                reach.path,
            ));
        }
        crate::landing::law_file_is_taken(after.files, reach.path);
        match crate::registry::id_at(ws.ids, p) {
            Some(own) => {
                match crate::link::id_ref(entry.target) {
                    Some(crate::link::IdRefView::Local(id)) => {
                        crate::registry::law_retired(ws.ids, own, id);
                    },
                    Some(crate::link::IdRefView::Foreign(_, id)) => {
                        crate::registry::law_retired(ws.ids, own, id);
                    },
                    _ => {},
                }
                crate::registry::law_sound_agrees(ws.ids, own, p);
                crate::path::law_normalize_idempotent(path);
            },
            None => {},
        }
        let parent_text = parent_without(ws, spanning, subject.parent, p)->Ok_0;
        lemma_deleted_files(ws, p, companion, subject.parent, parent_text, after);
        let written = match (subject.parent, parent_text) {
            (Some(parent), Some(text)) => {
                let _ = crate::files::lemma_lookup_at(ws.files, parent);
                Some((parent, crate::files::FileView::Text(text)))
            },
            _ => None,
        };
        crate::naming::law_name_still_leads(
            ws.files,
            p,
            companion,
            written,
            crate::link::addressed(entry.target),
        );
    }
}

/// Whether two workspaces agree on what a removal that does not say what it breaks looks
/// at: the vocabulary, the identifiers, where they start, the document, the metadata files
/// beside it, its parent, and whether there is a companion.
pub open spec fn agree_on(a: WsView, b: WsView, path: Seq<char>) -> bool {
    &&& a.relations == b.relations
    &&& a.name == b.name
    &&& a.ids == b.ids
    &&& a.issued == b.issued
    &&& a.root == b.root
    &&& a.parked == b.parked
    &&& crate::files::lookup(a.files, path) == crate::files::lookup(b.files, path)
    &&& crate::removal::neighbours(a.files, path) == crate::removal::neighbours(b.files, path)
    &&& forall|file: Seq<char>| #[trigger]
        crate::removal::is_neighbour(path, file) ==> crate::files::lookup(a.files, file)
            == crate::files::lookup(b.files, file)
    &&& crate::workspace::loaded(a.files, path) matches Ok((_, doc)) ==> {
        &&& crate::maintain::companion(doc, path) matches Some(file) ==> crate::files::occupied(
            a.files,
            file,
        ) == crate::files::occupied(b.files, file)
        &&& crate::workspace::spanning_names(a.relations) matches Ok((_, inverse))
            ==> crate::workspace::single_path(a, doc, inverse, path) matches Some(parent)
            ==> crate::files::lookup(a.files, parent) == crate::files::lookup(b.files, parent)
    }
}

/// A removal that does not say what it breaks depends on the document, its parent and the
/// metadata files beside it, and on whether there is a companion: two workspaces that agree
/// on those are changed in the same way, or refuse for the same reason.
pub proof fn law_quiet_removal_looks_near(a: WsView, b: WsView, path: Seq<char>, force: bool)
    requires
        agree_on(a, b, crate::path::normalized(path)),
    ensures
        deletion(a, path, force, Diagnosis::Skip) == deletion(b, path, force, Diagnosis::Skip),
{
    let p = crate::path::normalized(path);
    crate::removal::law_owner_depends(a.files, b.files, p);
    match crate::workspace::loaded(a.files, p) {
        Ok((_, doc)) => {
            match crate::workspace::spanning_names(a.relations) {
                Ok((spanning, inverse)) => {
                    let up = crate::workspace::single_path(a, doc, inverse, p);
                    assert(up == crate::workspace::single_path(b, doc, inverse, p));
                    match up {
                        Some(parent) => {
                            assert(crate::workspace::loaded(a.files, parent)
                                == crate::workspace::loaded(b.files, parent));
                            match crate::workspace::loaded(a.files, parent) {
                                Ok(read) => {
                                    assert(crate::workspace::entry_at(
                                        a,
                                        read.1,
                                        spanning,
                                        parent,
                                        p,
                                    ) == crate::workspace::entry_at(
                                        b,
                                        read.1,
                                        spanning,
                                        parent,
                                        p,
                                    ));
                                },
                                Err(_) => {},
                            }
                        },
                        None => {},
                    }
                },
                Err(_) => {},
            }
        },
        Err(_) => {},
    }
}

/// The parent of a document that is deleted loses its entry for it: the first item of its
/// list of children that leads to the document is taken out, and it reads else as it did.
/// The edit reads back.
pub proof fn law_deleted_parent_reads(
    ws: WsView,
    path: Seq<char>,
    force: bool,
    diagnosis: Diagnosis,
    after: WsView,
    spanning: Seq<char>,
    parent: Seq<char>,
)
    requires
        deletion(ws, path, force, diagnosis) matches Ok((cs, _)) && crate::change::landed(ws, cs)
            matches Ok(w) && w == after,
        crate::workspace::spanning_names(ws.relations) matches Ok((s, _)) && s == spanning,
        removable(ws, crate::path::normalized(path), force, Removal::Destroyed) matches Ok(subject)
            && subject.parent == Some(parent) && parent != crate::path::normalized(path) && Some(
            parent,
        ) != present_companion(ws, subject.doc, crate::path::normalized(path)),
    ensures
        crate::adopt::loses(ws, after, spanning, parent, crate::path::normalized(path)),
{
    law_delete_lands(ws, path, force, diagnosis, after);
    crate::adopt::lemma_loses(ws, after, spanning, parent, crate::path::normalized(path));
}

} // verus!
