//! A copy of a document beside it.

use crate::adopt::linked_down;
use crate::change::{ChangeSet, ChangeView};
use crate::document::{Document, MetaCarrier};
use crate::error::{Error, Fault};
use crate::meta::{Meta, MetaView};
use crate::path::opt_text;
use crate::workspace::{Outcome, Workspace, WsView};
use vstd::prelude::*;

verus! {

/// The file name of the `n`th copy.
pub open spec fn copy_name(stem: Seq<char>, ext: Option<Seq<char>>, n: u64) -> Seq<char> {
    let base = if n <= 1 {
        stem + "-copy"@
    } else {
        stem + "-copy-"@ + crate::text::decimal(n as nat)
    };
    match ext {
        Some(ext) => base + "."@ + ext,
        None => base,
    }
}

/// The path of the `n`th copy of a document.
pub open spec fn copy_path(source: Seq<char>, stem: Seq<char>, n: u64) -> Seq<char> {
    crate::path::under(
        crate::path::parent_of(source),
        copy_name(stem, crate::path::ext_of(source), n),
    )
}

/// Where the content file of a document at `node` goes.
pub open spec fn copied_body(node: Seq<char>, body: Option<Seq<char>>) -> Option<Seq<char>> {
    match body {
        Some(body) => Some(crate::maintain::sibling_of(node, body)),
        None => None,
    }
}

/// Whether there is room for a copy.
pub open spec fn is_free(ws: WsView, node: Seq<char>, body: Option<Seq<char>>) -> bool {
    &&& !crate::files::occupied(ws.files, node)
    &&& copied_body(node, body) matches Some(b) ==> !crate::files::occupied(ws.files, b)
}

/// The path of the first copy, from one on, for which there is room.
pub open spec fn free_copy(
    ws: WsView,
    source: Seq<char>,
    stem: Seq<char>,
    body: Option<Seq<char>>,
    n: u64,
) -> Option<Seq<char>>
    decreases u64::MAX - n,
{
    if is_free(ws, copy_path(source, stem, n), body) {
        Some(copy_path(source, stem, n))
    } else if n == u64::MAX {
        None
    } else {
        free_copy(ws, source, stem, body, (n + 1) as u64)
    }
}

/// The path of a copy of the document at `source`.
pub open spec fn copy_of(ws: WsView, source: Seq<char>, body: Option<Seq<char>>) -> Outcome<
    Seq<char>,
> {
    match crate::path::stem_of(source) {
        None => Err(Fault::NoNameToCopy(source)),
        Some(stem) => match free_copy(ws, source, stem, body, 1) {
            None => Err(Fault::NoFreeName(source)),
            Some(path) => Ok(path),
        },
    }
}

/// A text without an entry, where it can be taken out.
pub open spec fn dropped(text: Seq<char>, carrier: MetaCarrier, key: Seq<char>) -> Seq<char> {
    match crate::document::delete_at(text, carrier, crate::document::key_way(key)) {
        Some(out) => out,
        None => text,
    }
}

/// The text of a copy: without an identifier, without children, and pointing at
/// its own content file.
pub open spec fn copy_text(
    source: Seq<char>,
    text: Seq<char>,
    doc: crate::document::DocView,
    spanning: Seq<char>,
    body: Option<Seq<char>>,
) -> Outcome<Seq<char>> {
    match doc.carrier {
        None => Ok(text),
        Some(carrier) => {
            let bare = dropped(dropped(text, carrier, "id"@), carrier, spanning);
            match body {
                None => Ok(bare),
                Some(b) => match crate::document::replace_at(
                    bare,
                    carrier,
                    crate::document::key_way("content"@),
                    MetaView::Text(crate::maintain::name_or_empty(b)),
                ) {
                    Some(out) => Ok(out),
                    None => Err(Fault::Metadata(source)),
                },
            }
        },
    }
}

/// The parent of a copy with an entry for it, and the changes with the identifier
/// that this takes. A document without a parent has a copy without one.
pub open spec fn copy_attached(
    ws: WsView,
    doc: crate::document::DocView,
    source: Seq<char>,
    dest: Seq<char>,
    spanning: Seq<char>,
    inverse: Seq<char>,
) -> Outcome<(Option<(Seq<char>, Seq<char>)>, ChangeView)> {
    match crate::workspace::single_path(ws, doc, inverse, source) {
        None => Ok((None, crate::change::no_change(ws))),
        Some(parent) => match crate::workspace::loaded(ws.files, parent) {
            Err(e) => Err(e),
            Ok(read) => match linked_down(
                ws,
                crate::change::no_change(ws),
                spanning,
                parent,
                read,
                dest,
                crate::title::title_of(doc, dest),
            ) {
                Err(e) => Err(e),
                Ok((text, cs)) => Ok((Some((parent, text)), cs)),
            },
        },
    }
}

/// The changes with a copy of the content file.
pub open spec fn body_copied(
    ws: WsView,
    cs: ChangeView,
    from: Option<Seq<char>>,
    to: Option<Seq<char>>,
) -> Outcome<ChangeView> {
    match (from, to) {
        (Some(from), Some(to)) => match crate::workspace::file_at(ws.files, from) {
            Err(e) => Err(e),
            Ok(data) => Ok(cs.with(crate::files::OpView::Write(to, data))),
        },
        _ => Ok(cs),
    }
}

/// The changes that make a copy of a document, and its path; or why there are
/// none.
pub open spec fn drafted_duplication(ws: WsView, source: Seq<char>) -> Outcome<(ChangeView, Seq<char>)> {
    let source = crate::path::normalized(source);
    if !crate::files::occupied(ws.files, source) {
        Err(Fault::NotFound(source))
    } else {
        match (
            crate::workspace::loaded(ws.files, source),
            crate::workspace::spanning_names(ws.relations),
        ) {
            (Err(e), _) => Err(e),
            (Ok((text, doc)), names) => if crate::document::manifest_of(doc) is Some {
                Err(Fault::ManifestCopy(source))
            } else {
                match names {
                    Err(e) => Err(e),
                    Ok((spanning, inverse)) => {
                        let body = crate::maintain::content_file(doc, source);
                        match copy_of(ws, source, body) {
                            Err(e) => Err(e),
                            Ok(dest) => {
                                let body_to = copied_body(dest, body);
                                match (
                                    copy_text(source, text, doc, spanning, body_to),
                                    copy_attached(ws, doc, source, dest, spanning, inverse),
                                ) {
                                    (Err(e), _) => Err(e),
                                    (_, Err(e)) => Err(e),
                                    (Ok(copy), Ok((parent, cs))) => match body_copied(
                                        ws,
                                        cs.with(crate::files::write_text(dest, copy)),
                                        body,
                                        body_to,
                                    ) {
                                        Err(e) => Err(e),
                                        Ok(cs) => {
                                            let attached = match parent {
                                                Some(p) => cs.with(
                                                    crate::files::write_text(p.0, p.1),
                                                ),
                                                None => cs,
                                            };
                                            match crate::change::registered_on_create(
                                                ws,
                                                attached,
                                                dest,
                                            ) {
                                                Err(e) => Err(e),
                                                Ok(cs) => Ok((cs, dest)),
                                            }
                                        },
                                    },
                                }
                            },
                        }
                    },
                }
            },
        }
    }
}

/// The changes that make a copy of a document, with what carries its identifier
/// itself, and its path; or why there are none.
pub open spec fn duplication(ws: WsView, source: Seq<char>) -> Outcome<(ChangeView, Seq<char>)> {
    crate::change::with_stamps(ws, drafted_duplication(ws, source))
}

fn name_copy(stem: &str, ext: &Option<String>, n: u64) -> (r: String)
    ensures
        r@ == copy_name(stem@, opt_text(*ext), n),
{
    let base = if n <= 1 {
        stem.to_owned().concat("-copy")
    } else {
        stem.to_owned().concat("-copy-").concat(&crate::text::number_text(n))
    };
    match ext {
        Some(ext) => base.concat(".").concat(ext),
        None => base,
    }
}

fn drop_entry(text: String, carrier: MetaCarrier, key: &str) -> (r: String)
    ensures
        r@ == dropped(text@, carrier, key@),
{
    match crate::document::delete_entry(&text, carrier, &crate::document::key_path(key)) {
        Some(out) => out,
        None => text,
    }
}

fn place_body(node: &str, body: &Option<String>) -> (r: Option<String>)
    ensures
        opt_text(r) == copied_body(node@, opt_text(*body)),
{
    match body {
        Some(body) => {
            let (to, _) = crate::maintain::body_sibling(node, body);
            Some(to)
        },
        None => None,
    }
}

impl Workspace {
    /// The path of a copy of the document at `source`: the first one for which
    /// there is room, for its content file too.
    pub fn unique_copy_path(&self, source: &str, body: &Option<String>) -> (r: Result<
        String,
        Error,
    >)
        ensures
            crate::workspace::told(r) == copy_of(self@, source@, opt_text(*body)),
    {
        let stem = match crate::path::file_stem(source) {
            Some(stem) => stem,
            None => {
                return Err(Fault::NoNameToCopy(source.to_owned()));
            },
        };
        let ext = crate::path::extension(source);
        let dir = crate::path::parent(source);
        let mut n: u64 = 1;
        loop
            invariant
                crate::path::stem_of(source@) == Some(stem@),
                opt_text(ext) == crate::path::ext_of(source@),
                dir@ == crate::path::parent_of(source@),
                free_copy(self@, source@, stem@, opt_text(*body), 1) == free_copy(
                    self@,
                    source@,
                    stem@,
                    opt_text(*body),
                    n,
                ),
            decreases u64::MAX - n,
        {
            let node = crate::path::read_in(&dir, &name_copy(&stem, &ext, n));
            let body_free = match place_body(&node, body) {
                Some(b) => !self.is_taken(&b),
                None => true,
            };
            if !self.is_taken(&node) && body_free {
                return Ok(node);
            }
            if n == u64::MAX {
                return Err(Fault::NoFreeName(source.to_owned()));
            }
            n = n + 1;
        }
    }

    fn write_copy(
        &self,
        source: &str,
        text: String,
        doc: &Document,
        spanning: &str,
        body: &Option<String>,
    ) -> (r: Result<String, Error>)
        ensures
            crate::workspace::told(r) == copy_text(
                source@,
                text@,
                doc@,
                spanning@,
                opt_text(*body),
            ),
    {
        let carrier = match doc.carrier {
            Some(carrier) => carrier,
            None => {
                return Ok(text);
            },
        };
        let bare = drop_entry(drop_entry(text, carrier, "id"), carrier, spanning);
        match body {
            None => Ok(bare),
            Some(b) => {
                let value = Meta::Text(crate::maintain::base_name(b));
                let key = crate::document::key_path("content");
                match crate::document::replace_value(&bare, carrier, &key, &value) {
                    Some(out) => Ok(out),
                    None => Err(Fault::Metadata(source.to_owned())),
                }
            },
        }
    }

    fn attach_copy(
        &self,
        cs: &mut ChangeSet,
        doc: &Document,
        source: &str,
        dest: &str,
        spanning: &str,
        inverse: &str,
    ) -> (r: Result<Option<(String, String)>, Error>)
        requires
            old(cs)@ == crate::change::no_change(self@),
        ensures
            ({
                let out = copy_attached(self@, doc@, source@, dest@, spanning@, inverse@);
                match r {
                    Ok(p) => out matches Ok((v, c)) && c == final(cs)@ && v == (match p {
                        Some((path, text)) => Some((path@, text@)),
                        None => None,
                    }),
                    Err(e) => out matches Err(f) && f == crate::error::fault(e),
                }
            }),
    {
        let parent = match self.single_target(doc, inverse, source) {
            Some(parent) => parent,
            None => {
                return Ok(None);
            },
        };
        let (text, parent_doc) = match self.load(&parent) {
            Ok(read) => read,
            Err(e) => {
                return Err(e);
            },
        };
        let title = crate::title::document_title(doc, dest);
        match self.link_down(cs, spanning, &parent, &text, &parent_doc, dest, &title) {
            Ok(out) => Ok(Some((parent, out))),
            Err(e) => Err(e),
        }
    }

    fn copy_body(&self, cs: &mut ChangeSet, from: &Option<String>, to: &Option<String>) -> (r: Result<
        (),
        Error,
    >)
        ensures
            ({
                let out = body_copied(self@, old(cs)@, opt_text(*from), opt_text(*to));
                match r {
                    Ok(_) => out matches Ok(c) && c == final(cs)@,
                    Err(e) => out matches Err(f) && f == crate::error::fault(e),
                }
            }),
    {
        match (from, to) {
            (Some(from), Some(to)) => match self.read_data(from) {
                Ok(data) => {
                    cs.write_data(to, data);
                    Ok(())
                },
                Err(e) => Err(e),
            },
            _ => Ok(()),
        }
    }

    fn draft_duplicate(&self, source: &str) -> (r: Result<(ChangeSet, String), Error>)
        ensures
            match r {
                Ok((cs, to)) => drafted_duplication(self@, source@) matches Ok((c, t)) && c == cs@ && t
                    == to@,
                Err(e) => drafted_duplication(self@, source@) matches Err(f) && f == crate::error::fault(e),
            },
    {
        let source = crate::path::normalize(source);
        if !self.is_taken(&source) {
            return Err(Fault::NotFound(source));
        }
        let (text, doc) = match self.load(&source) {
            Ok(read) => read,
            Err(e) => {
                return Err(e);
            },
        };
        if doc.manifest_attr().is_some() {
            return Err(Fault::ManifestCopy(source));
        }
        let (spanning, inverse) = match self.spanning_pair() {
            Ok(pair) => pair,
            Err(e) => {
                return Err(e);
            },
        };
        let body = crate::maintain::content_target(&doc, &source);
        let dest = match self.unique_copy_path(&source, &body) {
            Ok(dest) => dest,
            Err(e) => {
                return Err(e);
            },
        };
        let body_to = place_body(&dest, &body);
        let copy = match self.write_copy(&source, text, &doc, &spanning, &body_to) {
            Ok(copy) => copy,
            Err(e) => {
                return Err(e);
            },
        };
        let mut cs = self.change();
        let parent = match self.attach_copy(&mut cs, &doc, &source, &dest, &spanning, &inverse) {
            Ok(parent) => parent,
            Err(e) => {
                return Err(e);
            },
        };
        cs.write(&dest, &copy);
        match self.copy_body(&mut cs, &body, &body_to) {
            Ok(_) => {},
            Err(e) => {
                return Err(e);
            },
        }
        match &parent {
            Some(p) => {
                cs.write(&p.0, &p.1);
            },
            None => {},
        }
        match self.register_on_create(&mut cs, &dest) {
            Ok(_) => Ok((cs, dest)),
            Err(e) => Err(e),
        }
    }

    /// The changes that make a copy of a document, and its path.
    pub fn plan_duplicate(&self, source: &str) -> (r: Result<(ChangeSet, String), Error>)
        ensures
            match r {
                Ok((cs, to)) => duplication(self@, source@) matches Ok((c, t)) && c == cs@ && t
                    == to@,
                Err(e) => duplication(self@, source@) matches Err(f) && f == crate::error::fault(e),
            },
    {
        match self.draft_duplicate(source) {
            Ok((cs, to)) => match self.stamp_ids(cs) {
                Ok(cs) => Ok((cs, to)),
                Err(e) => Err(e),
            },
            Err(e) => Err(e),
        }
    }

    /// Makes a copy of a document beside it, without its children and with an
    /// identifier of its own; its content file is copied too, and its parent
    /// gets an entry for it. Gives the path of the copy. A refusal changes
    /// nothing.
    pub fn duplicate(&mut self, source: &str) -> (r: Result<String, Error>)
        ensures
            ({
                let done = crate::change::carried_out(old(self)@, duplication(old(self)@, source@));
                match r {
                    Ok(to) => done matches Ok((after, t)) && after == final(self)@ && t == to@,
                    Err(e) => done matches Err(f) && f == crate::error::fault(e) && *final(self)
                        == *old(self),
                }
            }),
    {
        match self.plan_duplicate(source) {
            Ok((cs, to)) => match self.commit(cs) {
                Ok(_) => Ok(to),
                Err(e) => Err(e),
            },
            Err(e) => Err(e),
        }
    }
}

proof fn lemma_free_copy(
    ws: WsView,
    source: Seq<char>,
    stem: Seq<char>,
    body: Option<Seq<char>>,
    n: u64,
)
    ensures
        free_copy(ws, source, stem, body, n) matches Some(node) ==> is_free(ws, node, body),
    decreases u64::MAX - n,
{
    if !is_free(ws, copy_path(source, stem, n), body) && n < u64::MAX {
        lemma_free_copy(ws, source, stem, body, (n + 1) as u64);
    }
}

/// A copy goes where there is nothing, and so does the copy of its content file.
pub proof fn law_copy_is_new(ws: WsView, source: Seq<char>)
    ensures
        duplication(ws, source) matches Ok((_, dest)) ==> {
            let from = crate::path::normalized(source);
            &&& !crate::files::occupied(ws.files, dest)
            &&& crate::workspace::loaded(ws.files, from) matches Ok((_, doc)) && (copied_body(
                dest,
                crate::maintain::content_file(doc, from),
            ) matches Some(b) ==> !crate::files::occupied(ws.files, b))
        },
{
    let from = crate::path::normalized(source);
    match crate::workspace::loaded(ws.files, from) {
        Ok((_, doc)) => match crate::path::stem_of(from) {
            Some(stem) => {
                lemma_free_copy(ws, from, stem, crate::maintain::content_file(doc, from), 1);
            },
            None => {},
        },
        Err(_) => {},
    }
}

/// The documents that a copy is written in: the copy, the copy of the content file, and
/// the parent.
pub open spec fn copy_written(ws: WsView, source: Seq<char>, dest: Seq<char>) -> Seq<Seq<char>> {
    match (
        crate::workspace::loaded(ws.files, source),
        crate::workspace::spanning_names(ws.relations),
    ) {
        (Ok((_, doc)), Ok((_, inverse))) => {
            let body = match copied_body(dest, crate::maintain::content_file(doc, source)) {
                Some(body) => seq![body],
                None => Seq::empty(),
            };
            let parent = match crate::workspace::single_path(ws, doc, inverse, source) {
                Some(parent) => seq![parent],
                None => Seq::empty(),
            };
            seq![dest] + body + parent
        },
        _ => Seq::empty(),
    }
}

/// A copy leaves a workspace whole but for what is new and the parent: every other file
/// is as it was, none is gone, and every identifier leads where it led.
pub proof fn law_copy_stays_whole(ws: WsView, source: Seq<char>, dest: Seq<char>, after: WsView)
    requires
        crate::registry::is_sound(ws.ids),
        duplication(ws, source) matches Ok((cs, d)) && d == dest && (crate::change::landed(ws, cs)
            matches Ok(w) && w == after),
    ensures
        crate::landing::stays_whole(
            ws,
            after,
            copy_written(ws, crate::path::normalized(source), dest),
        ),
        crate::registry::is_sound(after.ids),
{
    let from = crate::path::normalized(source);
    let (text, doc) = crate::workspace::loaded(ws.files, from)->Ok_0;
    let (spanning, inverse) = crate::workspace::spanning_names(ws.relations)->Ok_0;
    let body = crate::maintain::content_file(doc, from);
    let body_to = copied_body(dest, body);
    let paths = copy_written(ws, from, dest);
    let none = crate::change::no_change(ws);
    let drafted = (drafted_duplication(ws, source)->Ok_0).0;
    assert(paths[0] == dest);
    assert(paths.contains(dest));
    match body_to {
        Some(b) => {
            assert(paths[1] == b);
            assert(paths.contains(b));
        },
        None => {},
    }
    match crate::workspace::single_path(ws, doc, inverse, from) {
        Some(parent) => {
            assert(paths[paths.len() - 1] == parent);
            assert(paths.contains(parent));
        },
        None => {},
    }
    crate::change::law_identified_keeps(ws, none, dest);
    let (parent, first) = copy_attached(ws, doc, from, dest, spanning, inverse)->Ok_0;
    let copy = copy_text(from, text, doc, spanning, body_to)->Ok_0;
    let made = first.with(crate::files::write_text(dest, copy));
    let filled = body_copied(ws, made, body, body_to)->Ok_0;
    let attached = match parent {
        Some(p) => filled.with(crate::files::write_text(p.0, p.1)),
        None => filled,
    };
    crate::change::law_identified_keeps(ws, attached, dest);
    assert(first.ops =~= Seq::empty());
    crate::change::lemma_written_stays_whole(
        ws,
        drafted_duplication(ws, source),
        paths,
        after,
    );
}

/// A copy holds the text of a copy, and the copy of a content file what the file holds;
/// and the parent has an entry for the copy. That is so where no document is to
/// carry an identifier that it got by the copy, and where the two copies are apart.
pub proof fn law_copy_lands(ws: WsView, source: Seq<char>, dest: Seq<char>, after: WsView)
    requires
        duplication(ws, source) matches Ok((cs, d)) && d == dest && (
        !ws.settings.id_storage.stamps() || cs.fresh.len() == 0) && (crate::change::landed(ws, cs)
            matches Ok(w) && w == after),
        crate::workspace::loaded(ws.files, crate::path::normalized(source)) matches Ok((_, doc))
            && copied_body(
            dest,
            crate::maintain::content_file(doc, crate::path::normalized(source)),
        ) != Some(dest),
    ensures
        ({
            let from = crate::path::normalized(source);
            crate::workspace::loaded(ws.files, from) matches Ok((text, doc))
                && crate::workspace::spanning_names(ws.relations) matches Ok((spanning, inverse))
                && ({
                let body = crate::maintain::content_file(doc, from);
                let body_to = copied_body(dest, body);
                &&& copy_text(from, text, doc, spanning, body_to) matches Ok(copy)
                    && crate::files::lookup(after.files, dest) == Some(
                    crate::files::FileView::Text(copy),
                )
                &&& body matches Some(b) ==> crate::files::lookup(ws.files, b) is Some
                    && crate::files::lookup(after.files, body_to->Some_0) == crate::files::lookup(
                    ws.files,
                    b,
                )
                &&& crate::workspace::single_path(ws, doc, inverse, from) matches Some(parent)
                    ==> (crate::workspace::loaded(ws.files, parent) matches Ok(read) && linked_down(
                    ws,
                    crate::change::no_change(ws),
                    spanning,
                    parent,
                    read,
                    dest,
                    crate::title::title_of(doc, dest),
                ) matches Ok((listed, _)) && crate::files::lookup(after.files, parent) == Some(
                    crate::files::FileView::Text(listed),
                ))
            })
        }),
{
    law_copy_is_new(ws, source);
    let from = crate::path::normalized(source);
    let (text, doc) = crate::workspace::loaded(ws.files, from)->Ok_0;
    let (spanning, inverse) = crate::workspace::spanning_names(ws.relations)->Ok_0;
    let body = crate::maintain::content_file(doc, from);
    let body_to = copied_body(dest, body);
    let (drafted, _) = drafted_duplication(ws, source)->Ok_0;
    let (cs, _) = duplication(ws, source)->Ok_0;
    let (parent, first) = copy_attached(ws, doc, from, dest, spanning, inverse)->Ok_0;
    let copy = copy_text(from, text, doc, spanning, body_to)->Ok_0;
    crate::change::lemma_stamps_keep(ws, drafted, drafted.fresh);
    assert(drafted.fresh.len() == 0 ==> drafted.fresh =~= Seq::empty());
    assert(cs == drafted);
    let none = Seq::<crate::files::OpView>::empty();
    assert(first.ops =~= none);
    let w1 = crate::files::write_text(dest, copy);
    let a = none.push(w1);
    crate::landing::lemma_changed_push(ws.files, none, w1);
    let d1 = crate::files::FileView::Text(copy);
    let f1 = crate::files::stored(ws.files, dest, d1);
    assert forall|q: Seq<char>| true implies #[trigger] crate::files::lookup(f1, q) == (if q
        == dest {
        Some(d1)
    } else {
        crate::files::lookup(ws.files, q)
    }) by {
        crate::files::law_stored(ws.files, dest, d1, q);
    }
    let (b, f2) = match (body, body_to) {
        (Some(file), Some(to)) => {
            let data = crate::files::lookup(ws.files, file)->Some_0;
            let w2 = crate::files::OpView::Write(to, data);
            crate::landing::lemma_changed_push(ws.files, a, w2);
            assert forall|q: Seq<char>| true implies #[trigger] crate::files::lookup(
                crate::files::stored(f1, to, data),
                q,
            ) == (if q == to {
                Some(data)
            } else {
                crate::files::lookup(f1, q)
            }) by {
                crate::files::law_stored(f1, to, data, q);
            }
            (a.push(w2), crate::files::stored(f1, to, data))
        },
        _ => (a, f1),
    };
    match parent {
        Some(p) => {
            let w3 = crate::files::write_text(p.0, p.1);
            crate::landing::lemma_changed_push(ws.files, b, w3);
            crate::landing::law_file_is_taken(ws.files, p.0);
            let d3 = crate::files::FileView::Text(p.1);
            assert forall|q: Seq<char>| true implies #[trigger] crate::files::lookup(
                crate::files::stored(f2, p.0, d3),
                q,
            ) == (if q == p.0 {
                Some(d3)
            } else {
                crate::files::lookup(f2, q)
            }) by {
                crate::files::law_stored(f2, p.0, d3, q);
            }
            assert(drafted.ops =~= b.push(w3));
        },
        None => {
            assert(drafted.ops =~= b);
        },
    }
}

/// The references of a copy, which are those of the document, lead where those lead: the
/// two are in one directory, and every identifier leads where it led.
pub proof fn law_copy_leads(
    ws: WsView,
    source: Seq<char>,
    dest: Seq<char>,
    after: WsView,
    raw: Seq<char>,
)
    requires
        crate::registry::is_sound(ws.ids),
        duplication(ws, source) matches Ok((cs, d)) && d == dest && (crate::change::landed(ws, cs)
            matches Ok(w) && w == after),
        crate::path::parent_of(dest) == crate::path::parent_of(crate::path::normalized(source)),
    ensures
        crate::workspace::reference_path(
            ws.ids,
            ws.name,
            crate::path::normalized(source),
            raw,
        ) matches Some(place) ==> crate::workspace::reference_path(
            after.ids,
            after.name,
            dest,
            raw,
        ) == Some(place),
{
    let from = crate::path::normalized(source);
    law_copy_stays_whole(ws, source, dest, after);
    crate::landing::law_whole_leads(ws, after, copy_written(ws, from, dest), from, raw);
}

/// The edit that takes an entry out, where it can be made.
pub open spec fn taking_out(
    text: Seq<char>,
    carrier: Option<MetaCarrier>,
    key: Seq<char>,
) -> Seq<crate::reading::Touch> {
    if crate::reading::touched(text, carrier, crate::reading::Touch::Delete(key)) is Some {
        seq![crate::reading::Touch::Delete(key)]
    } else {
        Seq::empty()
    }
}

proof fn lemma_taking_out(
    text: Seq<char>,
    doc: crate::document::DocView,
    carrier: MetaCarrier,
    key: Seq<char>,
)
    requires
        doc.meta is Mapping,
    ensures
        ({
            let touches = taking_out(text, Some(carrier), key);
            let meant = crate::reading::all_meant(doc, touches);
            &&& crate::reading::all_touched(text, Some(carrier), touches) == Some(
                dropped(text, carrier, key),
            )
            &&& crate::reading::all_carried(Some(carrier), touches) == Some(carrier)
            &&& meant.meta is Mapping && meant.body == doc.body && meant.carrier == doc.carrier
            &&& touches.len() > 0 ==> crate::meta::field(meant.meta, key) is None
            &&& forall|other: Seq<char>|
                other != key || touches.len() == 0 ==> #[trigger] crate::meta::field(
                    meant.meta,
                    other,
                ) == crate::meta::field(doc.meta, other)
        }),
{
    let touch = crate::reading::Touch::Delete(key);
    crate::reading::lemma_touch_one(text, Some(carrier), doc, touch);
    let pairs = doc.meta->Mapping_0;
    crate::reading::law_deleted_reads(pairs, key, key);
    assert forall|other: Seq<char>| other != key implies #[trigger] crate::meta::field(
        MetaView::Mapping(crate::files::without(pairs, key)),
        other,
    ) == crate::meta::field(doc.meta, other) by {
        crate::reading::law_deleted_reads(pairs, key, other);
    }
}

/// A copy reads as the document does, but for what is its own: it has no identifier and no
/// children, where those entries can be taken out, and it points at the copy of the content
/// file by its name. Every other entry, and the body, is that of the document. No document
/// is to carry an identifier that it got by the copy, the two copies are apart, they are of
/// one kind of file, and the edits read back.
pub proof fn law_copy_reads(ws: WsView, source: Seq<char>, dest: Seq<char>, after: WsView)
    requires
        duplication(ws, source) matches Ok((cs, d)) && d == dest && (
        !ws.settings.id_storage.stamps() || cs.fresh.len() == 0) && (crate::change::landed(ws, cs)
            matches Ok(w) && w == after),
        crate::document::file_format(crate::path::normalized(source))
            == crate::document::file_format(dest),
        !crate::path::escapes(dest),
        crate::workspace::loaded(ws.files, crate::path::normalized(source)) matches Ok((_, doc))
            && doc.meta is Mapping && copied_body(
            dest,
            crate::maintain::content_file(doc, crate::path::normalized(source)),
        ) != Some(dest),
    ensures
        ({
            let from = crate::path::normalized(source);
            let (text, doc) = crate::workspace::loaded(ws.files, from)->Ok_0;
            let spanning = (crate::workspace::spanning_names(ws.relations)->Ok_0).0;
            let content = crate::meta::text_field(doc.meta, "content"@);
            let bare = match crate::reading::touched(
                text,
                doc.carrier,
                crate::reading::Touch::Delete("id"@),
            ) {
                Some(t) => t,
                None => text,
            };
            exists|touches: Seq<crate::reading::Touch>|
                {
                    &&& #[trigger] crate::reading::all_touched(text, doc.carrier, touches) matches Some(
                        out,
                    ) && crate::files::lookup(after.files, dest) == Some(
                        crate::files::FileView::Text(out),
                    )
                    &&& crate::reading::reads_through(from, text, touches) ==> (
                    crate::workspace::loaded(after.files, dest) matches Ok((_, now)) && ({
                        &&& crate::meta::field(now.meta, "id"@) is None || taking_out(
                            text,
                            doc.carrier,
                            "id"@,
                        ).len() == 0
                        &&& spanning != "content"@ ==> crate::meta::field(now.meta, spanning) is None
                            || taking_out(bare, doc.carrier, spanning).len() == 0
                        &&& content is Some ==> crate::meta::text_field(now.meta, "content"@)
                            == Some(
                            crate::maintain::name_or_empty(
                                crate::maintain::sibling_of(
                                    dest,
                                    crate::path::under(
                                        crate::path::parent_of(from),
                                        content->Some_0,
                                    ),
                                ),
                            ),
                        )
                        &&& forall|key: Seq<char>|
                            key != "id"@ && key != spanning && (key != "content"@ || content is None)
                                ==> #[trigger] crate::meta::field(now.meta, key)
                                == crate::meta::field(doc.meta, key)
                        &&& now.body == doc.body
                    }))
                }
        }),
{
    let from = crate::path::normalized(source);
    let (text, doc) = crate::workspace::loaded(ws.files, from)->Ok_0;
    let spanning = (crate::workspace::spanning_names(ws.relations)->Ok_0).0;
    law_copy_lands(ws, source, dest, after);
    let body = crate::maintain::content_file(doc, from);
    let body_to = copied_body(dest, body);
    assert(doc.carrier is Some);
    let carrier = doc.carrier->Some_0;
    let a = taking_out(text, doc.carrier, "id"@);
    lemma_taking_out(text, doc, carrier, "id"@);
    let one = dropped(text, carrier, "id"@);
    let first = crate::reading::all_meant(doc, a);
    let b = taking_out(one, doc.carrier, spanning);
    lemma_taking_out(one, first, carrier, spanning);
    let two = dropped(one, carrier, spanning);
    let second = crate::reading::all_meant(first, b);
    crate::reading::lemma_touch_add(text, doc.carrier, doc, a, b);
    let point = crate::reading::Touch::Replace(
        crate::document::key_way("content"@),
        crate::maintain::name_or_empty(body_to->Some_0),
    );
    let none = Seq::<crate::reading::Touch>::empty();
    let c = if body is Some {
        none.push(point)
    } else {
        none
    };
    crate::reading::lemma_touch_push(two, doc.carrier, second, none, point);
    crate::reading::lemma_touch_add(text, doc.carrier, doc, a + b, c);
    let touches = a + b + c;
    let copy = copy_text(from, text, doc, spanning, body_to)->Ok_0;
    assert(crate::reading::all_touched(text, doc.carrier, touches) == Some(copy));
    if crate::reading::reads_through(from, text, touches) {
        crate::reading::law_touched_reads(from, text, touches);
        let now = crate::reading::all_meant(doc, touches);
        assert(crate::document::parsed(dest, copy) == crate::document::parsed(from, copy));
        let pairs = second.meta->Mapping_0;
        let value = MetaView::Text(crate::maintain::name_or_empty(body_to->Some_0));
        assert forall|key: Seq<char>| key != "content"@ implies #[trigger] crate::meta::field(
            MetaView::Mapping(crate::meta::put(pairs, "content"@, value)),
            key,
        ) == crate::meta::field(second.meta, key) by {
            crate::meta::law_put_reads_back(pairs, "content"@, value, key);
        }
        crate::meta::law_put_reads_back(pairs, "content"@, value, "content"@);
        reveal_strlit("id");
        reveal_strlit("content");
        assert("id"@.len() != "content"@.len());
    }
}

/// The parent of a document that is copied gets a reference to the copy at the end of its
/// list of children, and reads with it, and else as it did. The link can be authored so that
/// it leads, no document is to carry an identifier that it got by the copy, and the two
/// copies are apart.
pub proof fn law_copied_parent_reads(
    ws: WsView,
    source: Seq<char>,
    dest: Seq<char>,
    after: WsView,
    parent: Seq<char>,
)
    requires
        crate::registry::is_sound(ws.ids),
        duplication(ws, source) matches Ok((cs, d)) && d == dest && (
        !ws.settings.id_storage.stamps() || cs.fresh.len() == 0) && (crate::change::landed(ws, cs)
            matches Ok(w) && w == after),
        crate::workspace::loaded(ws.files, crate::path::normalized(source)) matches Ok((_, doc))
            && copied_body(
            dest,
            crate::maintain::content_file(doc, crate::path::normalized(source)),
        ) != Some(dest) && (crate::workspace::spanning_names(ws.relations) matches Ok(
            (spanning, inverse),
        ) && crate::workspace::single_path(ws, doc, inverse, crate::path::normalized(source))
            == Some(parent) && (crate::change::authored(
            ws,
            crate::change::no_change(ws),
            spanning,
            parent,
            dest,
            crate::title::title_of(doc, dest),
        ) matches Ok((_, out)) ==> crate::registry::keeps_paths(out.ids, after.ids)
            && crate::change::can_author(
            crate::workspace::reference_style(ws, spanning),
            parent,
            dest,
            crate::registry::id_at(out.ids, dest),
            crate::title::title_of(doc, dest),
        ))),
    ensures
        crate::workspace::spanning_names(ws.relations) matches Ok((spanning, _))
            && crate::adopt::gets_down(ws, after, spanning, parent, dest),
{
    let from = crate::path::normalized(source);
    let (_, doc) = crate::workspace::loaded(ws.files, from)->Ok_0;
    let (spanning, _) = crate::workspace::spanning_names(ws.relations)->Ok_0;
    law_copy_lands(ws, source, dest, after);
    let none = crate::change::no_change(ws);
    let title = crate::title::title_of(doc, dest);
    let (raw, out) = crate::change::authored(ws, none, spanning, parent, dest, title)->Ok_0;
    crate::change::law_authored_leads(ws, none, spanning, parent, dest, title);
    assert(crate::workspace::reference_path(after.ids, ws.name, parent, raw) == Some(dest));
    crate::adopt::lemma_gets_down(ws, after, spanning, parent, dest, raw);
}

} // verus!
