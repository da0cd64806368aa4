//! Another path for a document, and the links that follow it there.

use crate::change::{ChangeSet, ChangeView, RewriteView};
use crate::document::Document;
use crate::error::{Error, Fault};
use crate::field::Movers;
use crate::maintain::{Moves, MovesView};
use crate::meta::{Meta, MetaView};
use crate::path::opt_text;
use crate::text::same_text;
use crate::workspace::{Outcome, Workspace, WsView};
use vstd::prelude::*;

verus! {

/// The move of the companion of a document.
pub struct BodyMove {
    /// Where it is.
    pub from: String,
    /// Where it goes.
    pub to: String,
    /// Its text with its links recomputed; none for a payload that is not prose.
    pub text: Option<String>,
    /// The checksum that its node is to hold, where that is another one.
    pub pin: Option<String>,
}

/// What a [`BodyMove`] holds.
pub struct BodyMoveView {
    pub from: Seq<char>,
    pub to: Seq<char>,
    pub text: Option<Seq<char>>,
    pub pin: Option<Seq<char>>,
}

impl View for BodyMove {
    type V = BodyMoveView;

    open spec fn view(&self) -> BodyMoveView {
        BodyMoveView {
            from: self.from@,
            to: self.to@,
            text: opt_text(self.text),
            pin: opt_text(self.pin),
        }
    }
}

/// Whether a move takes a file to another directory.
pub open spec fn leaves_directory(from: Seq<char>, to: Seq<char>) -> bool {
    crate::path::parent_of(from) != crate::path::parent_of(to)
}

/// The file that goes with a document from `from` to `to`, and where it goes: its
/// content file; or, to another directory, its manifest.
pub open spec fn companion_move(doc: crate::document::DocView, from: Seq<char>, to: Seq<char>) -> Option<
    (Seq<char>, Seq<char>),
> {
    match crate::maintain::content_file(doc, from) {
        Some(body) => Some((body, crate::maintain::sibling_of(to, body))),
        None => match crate::maintain::manifest_file(doc, from) {
            Some(store) => if leaves_directory(from, to) {
                Some(
                    (
                        store,
                        crate::path::under(
                            crate::path::parent_of(to),
                            crate::maintain::name_or_empty(store),
                        ),
                    ),
                )
            } else {
                None
            },
            None => None,
        },
    }
}

/// The field that points at the companion of a document.
pub open spec fn companion_key(doc: crate::document::DocView) -> Seq<char> {
    match crate::document::content_of(doc) {
        Some(_) => "content"@,
        None => "manifest"@,
    }
}

/// What moves when a document moves: the document, and its companion.
pub open spec fn rename_moves(doc: crate::document::DocView, from: Seq<char>, to: Seq<char>) ->
    MovesView {
    match companion_move(doc, from, to) {
        Some(pair) => MovesView::Files(seq![(from, to), pair]),
        None => MovesView::Files(seq![(from, to)]),
    }
}

/// The move of the manifest of a document that moves from `from` to `to`: its links
/// are recomputed, its root is respelled for the directory it covers, and the node
/// that holds its checksum holds the new one where that changes it.
pub open spec fn store_move(
    ws: WsView,
    doc: crate::document::DocView,
    from: Seq<char>,
    to: Seq<char>,
    store: Seq<char>,
    store_to: Seq<char>,
) -> Outcome<Option<BodyMoveView>> {
    let moves = rename_moves(doc, from, to);
    match crate::workspace::loaded(ws.files, store) {
        Err(e) => Err(e),
        Ok((raw, store_doc)) => match crate::move_tree::carried_text(
            ws,
            store,
            raw,
            store_doc,
            moves,
        ) {
            Err(e) => Err(e),
            Ok(base) => match crate::move_tree::manifest_root(store_doc.meta) {
                None => Ok(
                    Some(BodyMoveView { from: store, to: store_to, text: Some(base), pin: None }),
                ),
                Some(root) => match crate::document::set_in(
                    base,
                    store_doc.carrier,
                    "root"@,
                    MetaView::Text(crate::move_tree::moved_root(store, root, moves)),
                ) {
                    None => Err(Fault::Metadata(store)),
                    Some(out) => Ok(
                        Some(
                            BodyMoveView {
                                from: store,
                                to: store_to,
                                text: Some(out),
                                pin: if out != base && crate::meta::field(
                                    doc.meta,
                                    "content_hash"@,
                                ) is Some {
                                    Some(
                                        crate::fixity::checksum(vstd::utf8::encode_utf8(out)),
                                    )
                                } else {
                                    None
                                },
                            },
                        ),
                    ),
                },
            },
        },
    }
}

/// The move of the companion of a document that moves from `from` to `to`.
pub open spec fn body_move(
    ws: WsView,
    doc: crate::document::DocView,
    from: Seq<char>,
    to: Seq<char>,
) -> Outcome<Option<BodyMoveView>> {
    match companion_move(doc, from, to) {
        None => Ok(None),
        Some((body, body_to)) => {
            if crate::document::content_of(doc) is None {
                store_move(ws, doc, from, to, body, body_to)
            } else if crate::document::is_opaque(body) {
                Ok(Some(BodyMoveView { from: body, to: body_to, text: None, pin: None }))
            } else {
                match crate::workspace::loaded(ws.files, body) {
                    Err(e) => Err(e),
                    Ok((raw, _)) => Ok(
                        Some(
                            BodyMoveView {
                                from: body,
                                to: body_to,
                                text: Some(
                                    if leaves_directory(from, to) {
                                        crate::maintain::body_moved(
                                            raw,
                                            raw,
                                            body,
                                            body_to,
                                            rename_moves(doc, from, to),
                                            ws.settings.references.path_style,
                                        )
                                    } else {
                                        raw
                                    },
                                ),
                                pin: None,
                            },
                        ),
                    ),
                }
            }
        },
    }
}

/// The text of a document with the checksum of its companion, where it is to hold
/// another one.
pub open spec fn pinned_text(
    out: Seq<char>,
    carrier: crate::document::MetaCarrier,
    pin: Option<Seq<char>>,
) -> Option<Seq<char>> {
    match pin {
        None => Some(out),
        Some(sum) => crate::document::set_at(
            out,
            carrier,
            crate::document::key_way("content_hash"@),
            MetaView::Text(sum),
        ),
    }
}

/// The text of a document at another path: its links recomputed where its
/// directory changes, and its pointer to its companion.
pub open spec fn moved_text(
    ws: WsView,
    text: Seq<char>,
    doc: crate::document::DocView,
    from: Seq<char>,
    to: Seq<char>,
    body: Option<BodyMoveView>,
) -> Outcome<Seq<char>> {
    let moves = rename_moves(doc, from, to);
    let relinked = if leaves_directory(from, to) {
        match crate::field::respelled_fields(
            ws,
            from,
            text,
            doc,
            crate::field::moved_entry(from, to, moves),
        ) {
            Err(e) => Err(e),
            Ok(out) => Ok(
                crate::maintain::body_moved(
                    out,
                    doc.body,
                    from,
                    to,
                    moves,
                    ws.settings.references.path_style,
                ),
            ),
        }
    } else {
        Ok(text)
    };
    match (relinked, body, doc.carrier) {
        (Ok(out), Some(mv), Some(carrier)) => match crate::document::replace_at(
            out,
            carrier,
            crate::document::key_way(companion_key(doc)),
            MetaView::Text(crate::maintain::name_or_empty(mv.to)),
        ) {
            Some(out) => match pinned_text(out, carrier, mv.pin) {
                Some(out) => Ok(out),
                None => Err(Fault::Metadata(from)),
            },
            None => Err(Fault::Metadata(from)),
        },
        _ => relinked,
    }
}

/// What keeps a document from moving from `from` to `to`, before it is read.
pub open spec fn move_fault(ws: WsView, from: Seq<char>, to: Seq<char>) -> Option<
    Fault<Seq<char>>,
> {
    if !crate::files::occupied(ws.files, from) {
        Some(Fault::NotFound(from))
    } else if crate::files::occupied(ws.files, to) {
        Some(Fault::AlreadyExists(to))
    } else {
        match crate::registry::id_at(ws.ids, from) {
            Some(id) => crate::change::move_objection(ws.ids, id, to),
            None => None,
        }
    }
}

/// The identifiers when a document has moved from `from` to `to`.
pub open spec fn moved_ids(ids: crate::registry::IdSeq, from: Seq<char>, to: Seq<char>) ->
    crate::registry::IdSeq {
    match crate::registry::id_at(ids, from) {
        Some(id) => crate::registry::bound(ids, id, to),
        None => ids,
    }
}

/// The changes that move a document and its companion, given what becomes of
/// their texts and of the documents that link to them.
pub open spec fn rename_changes(
    ws: WsView,
    from: Seq<char>,
    to: Seq<char>,
    text: Seq<char>,
    body: Option<BodyMoveView>,
    inbound: Seq<RewriteView>,
    moves: MovesView,
) -> ChangeView {
    let node = crate::change::no_change(ws).with(crate::files::OpView::Rename(from, to)).with(
        crate::files::write_text(to, text),
    );
    let both = match body {
        None => node,
        Some(mv) => {
            let moved = node.with(crate::files::OpView::Rename(mv.from, mv.to));
            match mv.text {
                Some(t) => moved.with(crate::files::write_text(mv.to, t)),
                None => moved,
            }
        },
    };
    both.with_all(crate::change::rewrite_ops(inbound)).with_ids(
        moved_ids(ws.ids, from, to),
    ).along(moves)
}

/// The changes that move a document from one path to another, both in normal
/// form; or why there are none.
pub open spec fn document_renaming(ws: WsView, from: Seq<char>, to: Seq<char>) -> Outcome<
    (ChangeView, ()),
> {
    match move_fault(ws, from, to) {
        Some(e) => Err(e),
        None => match crate::workspace::loaded(ws.files, from) {
            Err(e) => Err(e),
            Ok((text, doc)) => match (
                crate::field::inbound_rewrites(
                    ws,
                    from,
                    rename_moves(doc, from, to),
                    Movers::Skip,
                ),
                body_move(ws, doc, from, to),
            ) {
                (Err(e), _) => Err(e),
                (_, Err(e)) => Err(e),
                (Ok(inbound), Ok(body)) => if body matches Some(mv) && crate::files::occupied(
                    ws.files,
                    mv.to,
                ) {
                    Err(Fault::BodyTaken(to, body->Some_0.to))
                } else {
                    match moved_text(ws, text, doc, from, to, body) {
                        Err(e) => Err(e),
                        Ok(out) => Ok(
                            (
                                rename_changes(
                                    ws,
                                    from,
                                    to,
                                    out,
                                    body,
                                    inbound,
                                    rename_moves(doc, from, to),
                                ),
                                (),
                            ),
                        ),
                    }
                },
            },
        },
    }
}

/// Whether there are files below a path and none at it.
pub open spec fn is_directory(ws: WsView, path: Seq<char>) -> bool {
    path.len() > 0 && crate::files::occupied(ws.files, path) && crate::files::lookup(
        ws.files,
        path,
    ) is None
}

/// The changes that move a document, or a directory, from `from` to `to`; or why
/// there are none.
pub open spec fn renaming(ws: WsView, from: Seq<char>, to: Seq<char>) -> Outcome<(ChangeView, ())> {
    let from = crate::path::normalized(from);
    let to = crate::path::normalized(to);
    if is_directory(ws, from) {
        crate::move_tree::tree_move(ws, from, to)
    } else {
        document_renaming(ws, from, to)
    }
}

/// What an optional body move holds.
pub open spec fn body_opt(b: Option<BodyMove>) -> Option<BodyMoveView> {
    match b {
        Some(b) => Some(b@),
        None => None,
    }
}

impl Workspace {
    fn companion_along(&self, doc: &Document, from: &str, to: &str) -> (r: Option<(String, String)>)
        ensures
            match r {
                Some((body, body_to)) => companion_move(doc@, from@, to@) == Some(
                    (body@, body_to@),
                ),
                None => companion_move(doc@, from@, to@) is None,
            },
    {
        match crate::maintain::content_target(doc, from) {
            Some(body) => {
                let (body_to, _) = crate::maintain::body_sibling(to, &body);
                return Some((body, body_to));
            },
            None => {},
        }
        if same_text(&crate::path::parent(from), &crate::path::parent(to)) {
            return None;
        }
        match crate::maintain::manifest_target(doc, from) {
            Some(store) => {
                let store_to = crate::path::read_in(
                    &crate::path::parent(to),
                    &crate::maintain::base_name(&store),
                );
                Some((store, store_to))
            },
            None => None,
        }
    }

    fn plan_store_move(&self, doc: &Document, from: &str, to: &str, store: String, store_to: String) -> (r:
        Result<Option<BodyMove>, Error>)
        ensures
            match r {
                Ok(b) => store_move(self@, doc@, from@, to@, store@, store_to@) matches Ok(v) && v
                    == body_opt(b),
                Err(e) => store_move(self@, doc@, from@, to@, store@, store_to@) matches Err(f)
                    && f == crate::error::fault(e),
            },
    {
        let moves = self.moves_of(doc, from, to);
        let (raw, store_doc) = match self.load(&store) {
            Ok(read) => read,
            Err(e) => {
                return Err(e);
            },
        };
        let base = match self.carry_text(&store, &raw, &store_doc, &moves) {
            Ok(base) => base,
            Err(e) => {
                return Err(e);
            },
        };
        let root = match crate::move_tree::read_manifest_root(&store_doc.meta) {
            Some(root) => root,
            None => {
                return Ok(
                    Some(BodyMove { from: store, to: store_to, text: Some(base), pin: None }),
                );
            },
        };
        let spelled = crate::move_tree::spell_root(&store, &root, &moves);
        let out = match crate::document::set_in_text(
            &base,
            store_doc.carrier,
            "root",
            &Meta::Text(spelled),
        ) {
            Some(out) => out,
            None => {
                return Err(Fault::Metadata(store));
            },
        };
        let pin = if !same_text(&out, &base) && doc.meta.get("content_hash").is_some() {
            Some(crate::fixity::digest(out.as_str().as_bytes()))
        } else {
            None
        };
        Ok(Some(BodyMove { from: store, to: store_to, text: Some(out), pin }))
    }

    fn moves_of(&self, doc: &Document, from: &str, to: &str) -> (r: Moves)
        ensures
            r@ == rename_moves(doc@, from@, to@),
    {
        let mut pairs: Vec<(String, String)> = Vec::new();
        pairs.push((from.to_owned(), to.to_owned()));
        match self.companion_along(doc, from, to) {
            Some((body, body_to)) => {
                proof {
                    assert(crate::maintain::pair_texts(pairs@.push((body, body_to))) =~= seq![
                        (from@, to@),
                        (body@, body_to@),
                    ]);
                }
                pairs.push((body, body_to));
            },
            None => {
                proof {
                    assert(crate::maintain::pair_texts(pairs@) =~= seq![(from@, to@)]);
                }
            },
        }
        Moves::Files(pairs)
    }

    /// The move of the companion of a document that moves from `from` to `to`. Prose
    /// that changes directory has its links recomputed.
    pub fn plan_body_move(&self, doc: &Document, from: &str, to: &str) -> (r: Result<
        Option<BodyMove>,
        Error,
    >)
        ensures
            match r {
                Ok(b) => body_move(self@, doc@, from@, to@) matches Ok(v) && v == body_opt(b),
                Err(e) => body_move(self@, doc@, from@, to@) matches Err(f) && f
                    == crate::error::fault(e),
            },
    {
        let (body, body_to) = match self.companion_along(doc, from, to) {
            Some(pair) => pair,
            None => {
                return Ok(None);
            },
        };
        if doc.content_attr().is_none() {
            return self.plan_store_move(doc, from, to, body, body_to);
        }
        if crate::document::is_opaque_payload(&body) {
            return Ok(Some(BodyMove { from: body, to: body_to, text: None, pin: None }));
        }
        let raw = match self.load(&body) {
            Ok((raw, _)) => raw,
            Err(e) => {
                return Err(e);
            },
        };
        let text = if same_text(&crate::path::parent(from), &crate::path::parent(to)) {
            raw
        } else {
            crate::maintain::rerelativize_body_links(
                &raw,
                &raw,
                &body,
                &body_to,
                &self.moves_of(doc, from, to),
                self.settings.references.path_style,
            )
        };
        Ok(Some(BodyMove { from: body, to: body_to, text: Some(text), pin: None }))
    }

    fn move_text(
        &self,
        text: &str,
        doc: &Document,
        from: &str,
        to: &str,
        body: &Option<BodyMove>,
    ) -> (r: Result<String, Error>)
        ensures
            crate::workspace::told(r) == moved_text(
                self@,
                text@,
                doc@,
                from@,
                to@,
                body_opt(*body),
            ),
    {
        let relinked = if same_text(&crate::path::parent(from), &crate::path::parent(to)) {
            text.to_owned()
        } else {
            let moves = self.moves_of(doc, from, to);
            match self.rerelativize(text, doc, from, to, &moves) {
                Ok(out) => crate::maintain::rerelativize_body_links(
                    &out,
                    &doc.body,
                    from,
                    to,
                    &moves,
                    self.settings.references.path_style,
                ),
                Err(e) => {
                    return Err(e);
                },
            }
        };
        match (body, doc.carrier) {
            (Some(mv), Some(carrier)) => {
                let value = Meta::Text(crate::maintain::base_name(&mv.to));
                let key = if doc.content_attr().is_some() {
                    crate::document::key_path("content")
                } else {
                    crate::document::key_path("manifest")
                };
                let out = match crate::document::replace_value(&relinked, carrier, &key, &value) {
                    Some(out) => out,
                    None => {
                        return Err(Fault::Metadata(from.to_owned()));
                    },
                };
                match &mv.pin {
                    None => Ok(out),
                    Some(sum) => {
                        let value = Meta::Text(sum.clone());
                        let key = crate::document::key_path("content_hash");
                        match crate::document::set_value(&out, carrier, &key, &value) {
                            Some(out) => Ok(out),
                            None => Err(Fault::Metadata(from.to_owned())),
                        }
                    },
                }
            },
            _ => Ok(relinked),
        }
    }

    /// What keeps a document from moving from `from` to `to`, before it is read.
    pub fn move_refusal(&self, from: &str, to: &str) -> (r: Option<Error>)
        ensures
            crate::files::fault_opt(r) == move_fault(self@, from@, to@),
    {
        if !self.is_taken(from) {
            return Some(Fault::NotFound(from.to_owned()));
        }
        if self.is_taken(to) {
            return Some(Fault::AlreadyExists(to.to_owned()));
        }
        match self.registry.id_for_path(from) {
            Some(id) => self.move_conflict(&id, to),
            None => None,
        }
    }

    /// The changes that move a document, or a directory, from `from` to `to`.
    pub fn plan_rename(&self, from: &str, to: &str) -> (r: Result<ChangeSet, Error>)
        ensures
            match r {
                Ok(cs) => renaming(self@, from@, to@) matches Ok((c, _)) && c == cs@,
                Err(e) => renaming(self@, from@, to@) matches Err(f) && f == crate::error::fault(e),
            },
    {
        let from = crate::path::normalize(from);
        let to = crate::path::normalize(to);
        proof {
            reveal_strlit("");
            assert(from@.len() == 0 ==> from@ =~= ""@);
        }
        if !same_text(&from, "") && self.is_taken(&from) && !self.files.holds(&from) {
            return self.plan_move_tree(&from, &to);
        }
        self.plan_document_rename(from, to)
    }

    fn plan_document_rename(&self, from: String, to: String) -> (r: Result<ChangeSet, Error>)
        ensures
            match r {
                Ok(cs) => document_renaming(self@, from@, to@) matches Ok((c, _)) && c == cs@,
                Err(e) => document_renaming(self@, from@, to@) matches Err(f) && f
                    == crate::error::fault(e),
            },
    {
        match self.move_refusal(&from, &to) {
            Some(e) => {
                return Err(e);
            },
            None => {},
        }
        let (text, doc) = match self.load(&from) {
            Ok(read) => read,
            Err(e) => {
                return Err(e);
            },
        };
        let moves = self.moves_of(&doc, &from, &to);
        let inbound = match self.collect_inbound_rewrites(&from, &moves, Movers::Skip) {
            Ok(inbound) => inbound,
            Err(e) => {
                return Err(e);
            },
        };
        let body = match self.plan_body_move(&doc, &from, &to) {
            Ok(body) => body,
            Err(e) => {
                return Err(e);
            },
        };
        match &body {
            Some(mv) => if self.is_taken(&mv.to) {
                return Err(Fault::BodyTaken(to, mv.to.clone()));
            },
            None => {},
        }
        let out = match self.move_text(&text, &doc, &from, &to, &body) {
            Ok(out) => out,
            Err(e) => {
                return Err(e);
            },
        };
        let mut cs = self.change();
        cs.rename(&from, &to);
        cs.write(&to, &out);
        match &body {
            Some(mv) => {
                cs.rename(&mv.from, &mv.to);
                match &mv.text {
                    Some(t) => {
                        cs.write(&mv.to, t);
                    },
                    None => {},
                }
            },
            None => {},
        }
        cs.rewrite(&inbound);
        match self.registry.id_for_path(&from) {
            Some(id) => {
                cs.bind(&id, &to);
            },
            None => {},
        }
        cs.go_along(&moves);
        Ok(cs)
    }

    /// Moves a document from `from` to `to`, and with it its content file, or its
    /// manifest where the directory changes; or a directory with everything in it.
    /// Every path reference to them follows, its own are recomputed where its directory
    /// changes, and its identifier goes along. A refusal changes nothing.
    pub fn rename(&mut self, from: &str, to: &str) -> (r: Result<(), Error>)
        ensures
            ({
                let done = crate::change::carried_out(old(self)@, renaming(old(self)@, from@, to@));
                match r {
                    Ok(_) => done matches Ok((after, _)) && after == final(self)@,
                    Err(e) => done matches Err(f) && f == crate::error::fault(e) && *final(self)
                        == *old(self),
                }
            }),
    {
        match self.plan_rename(from, to) {
            Ok(cs) => self.commit(cs),
            Err(e) => Err(e),
        }
    }
}

/// A document whose own paths are not those of its companion, before or after it
/// moves to `to`.
pub open spec fn keeps_apart(doc: crate::document::DocView, from: Seq<char>, to: Seq<char>) -> bool {
    match companion_move(doc, from, to) {
        Some((body, body_to)) => body != to && body_to != to,
        None => true,
    }
}

proof fn lemma_inbound_apart(
    ws: WsView,
    from: Seq<char>,
    to: Seq<char>,
    doc: crate::document::DocView,
    inbound: Seq<RewriteView>,
    i: int,
)
    requires
        crate::field::inbound_rewrites(
            ws,
            from,
            rename_moves(doc, from, to),
            Movers::Skip,
        ) matches Ok(v) && v == inbound,
        0 <= i < inbound.len(),
        !crate::files::occupied(ws.files, to),
        companion_move(doc, from, to) matches Some((_, bt)) ==> !crate::files::occupied(
            ws.files,
            bt,
        ),
    ensures
        inbound[i].path != from,
        inbound[i].path != to,
        companion_move(doc, from, to) matches Some((b, bt)) ==> inbound[i].path != b
            && inbound[i].path != bt,
{
    let moves = rename_moves(doc, from, to);
    crate::landing::law_inbound_rewrites(ws, from, moves, Movers::Skip);
    let p = inbound[i].path;
    crate::landing::law_file_is_taken(ws.files, p);
    assert(crate::maintain::landing(moves, p) is None);
    reveal_with_fuel(crate::maintain::paired_with, 3);
    match companion_move(doc, from, to) {
        Some((b, bt)) => {
            let pairs = seq![(from, to), (b, bt)];
            assert(pairs[0].0 == from);
            assert(pairs.drop_first()[0].0 == b);
        },
        None => {
            let pairs = seq![(from, to)];
            assert(pairs[0].0 == from);
        },
    }
}

/// After a move, the document is where it went, with its links recomputed, and its
/// companion beside it; every document that linked to them holds its new text;
/// every other file is as it was; and the identifier of the document leads to it.
pub proof fn law_rename_lands(ws: WsView, from: Seq<char>, to: Seq<char>, after: WsView)
    requires
        document_renaming(ws, from, to) matches Ok((cs, _)) && crate::change::landed(ws, cs)
            matches Ok(w) && w == after,
        crate::workspace::loaded(ws.files, from) matches Ok((_, doc)) && keeps_apart(doc, from, to),
    ensures
        crate::workspace::loaded(ws.files, from) matches Ok((text, doc)) && crate::field::inbound_rewrites(
            ws,
            from,
            rename_moves(doc, from, to),
            Movers::Skip,
        ) matches Ok(inbound) && body_move(ws, doc, from, to) matches Ok(body) && moved_text(
            ws,
            text,
            doc,
            from,
            to,
            body,
        ) matches Ok(out) && ({
            &&& crate::files::lookup(after.files, from) is None
            &&& crate::files::lookup(after.files, to) == Some(crate::files::FileView::Text(out))
            &&& body matches Some(mv) ==> {
                &&& mv.from != from && crate::files::lookup(ws.files, mv.from) is Some
                &&& crate::files::lookup(after.files, mv.from) is None
                &&& crate::files::lookup(after.files, mv.to) == (match mv.text {
                    Some(t) => Some(crate::files::FileView::Text(t)),
                    None => crate::files::lookup(ws.files, mv.from),
                })
            }
            &&& forall|i: int|
                0 <= i < inbound.len() ==> crate::files::lookup(
                    after.files,
                    (#[trigger] inbound[i]).path,
                ) == Some(crate::files::FileView::Text(inbound[i].text))
            &&& forall|p: Seq<char>|
                p != from && p != to && (body matches Some(mv) ==> p != mv.from && p != mv.to)
                    && !crate::landing::rewrites_path(inbound, p) ==> #[trigger] crate::files::lookup(
                    after.files,
                    p,
                ) == crate::files::lookup(ws.files, p)
        }),
        crate::registry::id_at(ws.ids, from) matches Some(id) ==> crate::registry::path_of(
            after.ids,
            id,
        ) == Some(to),
{
    let (text, doc) = crate::workspace::loaded(ws.files, from)->Ok_0;
    let inbound = crate::field::inbound_rewrites(
        ws,
        from,
        rename_moves(doc, from, to),
        Movers::Skip,
    )->Ok_0;
    let body = body_move(ws, doc, from, to)->Ok_0;
    let out = moved_text(ws, text, doc, from, to, body)->Ok_0;
    let cs = rename_changes(ws, from, to, out, body, inbound, rename_moves(doc, from, to));
    crate::landing::law_inbound_rewrites(ws, from, rename_moves(doc, from, to), Movers::Skip);
    crate::landing::law_file_is_taken(ws.files, from);
    match crate::registry::id_at(ws.ids, from) {
        Some(id) => {
            crate::registry::law_bound(ws.ids, id, to, id);
        },
        None => {},
    }
    let none = Seq::<crate::files::OpView>::empty();
    let a = none.push(crate::files::OpView::Rename(from, to));
    let b = a.push(crate::files::write_text(to, out));
    crate::landing::lemma_changed_push(ws.files, none, crate::files::OpView::Rename(from, to));
    crate::landing::lemma_changed_push(ws.files, a, crate::files::write_text(to, out));
    let d = crate::files::lookup(ws.files, from)->Some_0;
    let f0 = crate::files::without(ws.files, from);
    let f1 = crate::files::stored(f0, to, d);
    let f2 = crate::files::stored(f1, to, crate::files::FileView::Text(out));
    assert forall|p: Seq<char>| p != from && p != to implies #[trigger] crate::files::lookup(f2, p)
        == crate::files::lookup(ws.files, p) by {
        crate::files::law_without(ws.files, from, p);
        crate::files::law_stored(f0, to, d, p);
        crate::files::law_stored(f1, to, crate::files::FileView::Text(out), p);
    }
    crate::files::law_without(ws.files, from, from);
    crate::files::law_stored(f0, to, d, from);
    crate::files::law_stored(f1, to, crate::files::FileView::Text(out), from);
    assert forall|i: int| 0 <= i < inbound.len() implies (#[trigger] inbound[i]).path != from
        && inbound[i].path != to && (body matches Some(mv) ==> inbound[i].path != mv.from
        && inbound[i].path != mv.to) by {
        lemma_inbound_apart(ws, from, to, doc, inbound, i);
    }
    match body {
        None => {
            crate::landing::lemma_changed_add(
                ws.files,
                b,
                crate::change::rewrite_ops(inbound),
            );
            crate::landing::law_rewrites_land(f2, inbound);
        },
        Some(mv) => {
            let rename = crate::files::OpView::Rename(mv.from, mv.to);
            let c = b.push(rename);
            crate::landing::lemma_changed_push(ws.files, b, rename);
            let moved = match mv.text {
                Some(t) => c.push(crate::files::write_text(mv.to, t)),
                None => c,
            };
            match mv.text {
                Some(t) => {
                    crate::landing::lemma_changed_push(
                        ws.files,
                        c,
                        crate::files::write_text(mv.to, t),
                    );
                },
                None => {},
            }
            crate::landing::lemma_changed_add(
                ws.files,
                moved,
                crate::change::rewrite_ops(inbound),
            );
            match crate::files::lookup(f2, mv.from) {
                None => {},
                Some(e) => {
                    let g0 = crate::files::without(f2, mv.from);
                    let g1 = crate::files::stored(g0, mv.to, e);
                    let g2 = match mv.text {
                        Some(t) => crate::files::stored(
                            g1,
                            mv.to,
                            crate::files::FileView::Text(t),
                        ),
                        None => g1,
                    };
                    if mv.from != from {
                        crate::landing::law_file_is_taken(ws.files, mv.from);
                    }
                    assert forall|p: Seq<char>| p != mv.from && p != mv.to implies
                        #[trigger] crate::files::lookup(g2, p) == crate::files::lookup(f2, p) by {
                        crate::files::law_without(f2, mv.from, p);
                        crate::files::law_stored(g0, mv.to, e, p);
                        match mv.text {
                            Some(t) => {
                                crate::files::law_stored(
                                    g1,
                                    mv.to,
                                    crate::files::FileView::Text(t),
                                    p,
                                );
                            },
                            None => {},
                        }
                    }
                    crate::files::law_without(f2, mv.from, mv.from);
                    crate::files::law_stored(g0, mv.to, e, mv.from);
                    match mv.text {
                        Some(t) => {
                            crate::files::law_stored(
                                g1,
                                mv.to,
                                crate::files::FileView::Text(t),
                                mv.from,
                            );
                        },
                        None => {},
                    }
                    crate::landing::law_rewrites_land(g2, inbound);
                },
            }
        },
    }
}

/// After a move, everything that was there is there, or where it has gone.
pub proof fn law_rename_targets_stand(
    ws: WsView,
    from: Seq<char>,
    to: Seq<char>,
    after: WsView,
    path: Seq<char>,
)
    requires
        document_renaming(ws, from, to) matches Ok((cs, _)) && crate::change::landed(ws, cs)
            matches Ok(w) && w == after,
        crate::workspace::loaded(ws.files, from) matches Ok((_, doc)) && keeps_apart(doc, from, to),
        crate::files::lookup(ws.files, path) is Some,
    ensures
        crate::workspace::loaded(ws.files, from) matches Ok((_, doc)) && crate::files::lookup(
            after.files,
            crate::maintain::landing_or_same(rename_moves(doc, from, to), path),
        ) is Some,
{
    law_rename_lands(ws, from, to, after);
    let (text, doc) = crate::workspace::loaded(ws.files, from)->Ok_0;
    let moves = rename_moves(doc, from, to);
    let inbound = crate::field::inbound_rewrites(ws, from, moves, Movers::Skip)->Ok_0;
    crate::landing::law_file_is_taken(ws.files, path);
    reveal_with_fuel(crate::maintain::paired_with, 3);
    match companion_move(doc, from, to) {
        Some((b, bt)) => {
            let pairs = seq![(from, to), (b, bt)];
            assert(pairs[0] == (from, to));
            assert(pairs.drop_first()[0] == (b, bt));
            assert(pairs.drop_first().drop_first().len() == 0);
        },
        None => {
            let pairs = seq![(from, to)];
            assert(pairs[0] == (from, to));
            assert(pairs.drop_first().len() == 0);
        },
    }
    if crate::landing::rewrites_path(inbound, path) {
        let i = choose|i: int| 0 <= i < inbound.len() && (#[trigger] inbound[i]).path == path;
        crate::landing::law_inbound_rewrites(ws, from, moves, Movers::Skip);
        assert(crate::maintain::landing(moves, inbound[i].path) is None);
    }
}

/// A workspace stays whole when a document moves: a path reference of another
/// document that reached a file reaches, by the metadata that its edits describe,
/// that file or where it has gone, with the same label, wrapper and locator; and
/// there is a file there.
pub proof fn law_rename_keeps_whole(
    ws: WsView,
    from: Seq<char>,
    to: Seq<char>,
    after: WsView,
    source: Seq<char>,
    meta: MetaView,
    i: int,
    k: int,
)
    requires
        document_renaming(ws, from, to) matches Ok((cs, _)) && crate::change::landed(ws, cs)
            matches Ok(w) && w == after,
        crate::workspace::loaded(ws.files, from) matches Ok((_, doc)) && keeps_apart(doc, from, to),
        crate::follow::distinct_names(ws.relations.relations),
        0 <= i < ws.relations.relations.len(),
        0 <= k < crate::meta::links_at(meta, ws.relations.relations[i].name).len(),
        ({
            let doc = (crate::workspace::loaded(ws.files, from)->Ok_0).1;
            let name = ws.relations.relations[i].name;
            let raw = crate::meta::links_at(meta, name)[k];
            let target = crate::link::parse_link(raw).target;
            let place = crate::link::resolve_path(source, target);
            &&& crate::link::is_path_target(target)
            &&& place != source
            &&& crate::files::lookup(ws.files, place) is Some
            &&& crate::maintain::landing(rename_moves(doc, from, to), place) matches Some(gone)
                ==> crate::follow::can_reach(
                raw,
                crate::follow::field_style(ws, name),
                source,
                gone,
            )
        }),
    ensures
        ({
            let doc = (crate::workspace::loaded(ws.files, from)->Ok_0).1;
            let moves = rename_moves(doc, from, to);
            let name = ws.relations.relations[i].name;
            let raw = crate::meta::links_at(meta, name)[k];
            let place = crate::link::resolve_path(source, crate::link::parse_link(raw).target);
            let news = crate::meta::links_at(
                crate::follow::followed_meta(
                    ws,
                    source,
                    meta,
                    crate::field::moved_paths(ws.files, moves),
                    moves,
                ),
                name,
            );
            let gone = crate::maintain::landing_or_same(moves, place);
            &&& k < news.len()
            &&& crate::follow::reaches(news[k], raw, source, gone)
            &&& crate::files::lookup(after.files, gone) is Some
        }),
{
    let doc = (crate::workspace::loaded(ws.files, from)->Ok_0).1;
    let moves = rename_moves(doc, from, to);
    let moved = crate::field::moved_paths(ws.files, moves);
    let name = ws.relations.relations[i].name;
    let raw = crate::meta::links_at(meta, name)[k];
    let place = crate::link::resolve_path(source, crate::link::parse_link(raw).target);
    law_rename_targets_stand(ws, from, to, after, place);
    lemma_rename_settles(ws, from, to, after, place);
    crate::follow::law_followed_document(ws, source, meta, moved, moves, i, k);
}

proof fn lemma_rename_settles(
    ws: WsView,
    from: Seq<char>,
    to: Seq<char>,
    after: WsView,
    place: Seq<char>,
)
    requires
        document_renaming(ws, from, to) matches Ok((cs, _)) && crate::change::landed(ws, cs)
            matches Ok(w) && w == after,
        crate::workspace::loaded(ws.files, from) matches Ok((_, doc)) && keeps_apart(doc, from, to),
    ensures
        ({
            let doc = (crate::workspace::loaded(ws.files, from)->Ok_0).1;
            let moves = rename_moves(doc, from, to);
            let moved = crate::field::moved_paths(ws.files, moves);
            &&& crate::follow::settles(moved, moves)
            &&& crate::maintain::landing(moves, place) is Some ==> moved.contains(place)
        }),
{
    law_rename_lands(ws, from, to, after);
    let doc = (crate::workspace::loaded(ws.files, from)->Ok_0).1;
    let moves = rename_moves(doc, from, to);
    let moved = crate::field::moved_paths(ws.files, moves);
    crate::landing::law_file_is_taken(ws.files, from);
    reveal_with_fuel(crate::maintain::paired_with, 3);
    match companion_move(doc, from, to) {
        Some((b, bt)) => {
            let pairs = seq![(from, to), (b, bt)];
            crate::landing::law_file_is_taken(ws.files, b);
            assert(pairs[0] == (from, to));
            assert(pairs.drop_first()[0] == (b, bt));
            assert(pairs.drop_first().drop_first().len() == 0);
            assert(moved =~= seq![from, b]);
            assert(moved[0] == from && moved[1] == b);
        },
        None => {
            let pairs = seq![(from, to)];
            assert(pairs[0] == (from, to));
            assert(pairs.drop_first().len() == 0);
            assert(moved =~= seq![from]);
            assert(moved[0] == from);
        },
    }
}

/// A workspace stays whole when a document moves: a path reference that reached a
/// file, in a document that a survey of the workspace covers, reaches that file or
/// where it has gone, as the document reads after the move; and there is a file
/// there. The document reads as its edits describe.
pub proof fn law_rename_keeps_reading(
    ws: WsView,
    from: Seq<char>,
    to: Seq<char>,
    after: WsView,
    inverse: Seq<char>,
    source: Seq<char>,
    i: int,
    k: int,
)
    requires
        document_renaming(ws, from, to) matches Ok((cs, _)) && crate::change::landed(ws, cs)
            matches Ok(w) && w == after,
        crate::workspace::loaded(ws.files, from) matches Ok((_, doc)) && keeps_apart(doc, from, to),
        crate::follow::distinct_names(ws.relations.relations),
        crate::workspace::spanning_names(ws.relations) matches Ok((_, v)) && v == inverse,
        crate::walk::surveyed(ws, crate::walk::root_of(ws, from, inverse)).contains(source),
        0 <= i < ws.relations.relations.len(),
        ({
            let doc = (crate::workspace::loaded(ws.files, from)->Ok_0).1;
            let moves = rename_moves(doc, from, to);
            let moved = crate::field::moved_paths(ws.files, moves);
            let read = crate::workspace::loaded(ws.files, source)->Ok_0;
            let out = crate::field::followed(ws, source, read, moved, moves)->Ok_0;
            let name = ws.relations.relations[i].name;
            let raws = crate::meta::links_at(read.1.meta, name);
            let target = crate::link::parse_link(raws[k]).target;
            let place = crate::link::resolve_path(source, target);
            &&& crate::maintain::landing(moves, source) is None
            &&& out.1.meta == crate::follow::followed_meta(ws, source, read.1.meta, moved, moves)
            &&& 0 <= k < raws.len()
            &&& crate::link::is_path_target(target)
            &&& place != source
            &&& crate::files::lookup(ws.files, place) is Some
            &&& crate::maintain::landing(moves, place) matches Some(gone)
                ==> crate::follow::can_reach(
                raws[k],
                crate::follow::field_style(ws, name),
                source,
                gone,
            )
        }),
    ensures
        ({
            let doc = (crate::workspace::loaded(ws.files, from)->Ok_0).1;
            let moves = rename_moves(doc, from, to);
            let name = ws.relations.relations[i].name;
            let read = crate::workspace::loaded(ws.files, source)->Ok_0;
            let raws = crate::meta::links_at(read.1.meta, name);
            let place = crate::link::resolve_path(
                source,
                crate::link::parse_link(raws[k]).target,
            );
            let gone = crate::maintain::landing_or_same(moves, place);
            crate::workspace::loaded(after.files, source) matches Ok((_, now)) && k
                < crate::meta::links_at(now.meta, name).len() && crate::follow::reaches(
                crate::meta::links_at(now.meta, name)[k],
                raws[k],
                source,
                gone,
            ) && crate::files::lookup(after.files, gone) is Some
        }),
{
    let doc = (crate::workspace::loaded(ws.files, from)->Ok_0).1;
    let moves = rename_moves(doc, from, to);
    let moved = crate::field::moved_paths(ws.files, moves);
    law_rename_lands(ws, from, to, after);
    let inbound = crate::field::inbound_rewrites(ws, from, moves, Movers::Skip)->Ok_0;
    crate::landing::law_survey_follows(ws, from, inverse, moves, Movers::Skip, source);
    let read = crate::workspace::loaded(ws.files, source)->Ok_0;
    let out = crate::field::followed(ws, source, read, moved, moves)->Ok_0;
    crate::landing::law_followed_reads(ws, source, read, moved, moves);
    law_rename_keeps_whole(ws, from, to, after, source, read.1.meta, i, k);
    crate::landing::law_file_is_taken(ws.files, source);
    assert(source != from && source != to) by {
        reveal_with_fuel(crate::maintain::paired_with, 3);
        match companion_move(doc, from, to) {
            Some((b, bt)) => {
                assert(seq![(from, to), (b, bt)][0].0 == from);
            },
            None => {
                assert(seq![(from, to)][0].0 == from);
            },
        }
    }
    assert(body_move(ws, doc, from, to)->Ok_0 matches Some(mv) ==> source != mv.from && source
        != mv.to) by {
        reveal_with_fuel(crate::maintain::paired_with, 3);
        match companion_move(doc, from, to) {
            Some((b, bt)) => {
                let pairs = seq![(from, to), (b, bt)];
                assert(pairs.drop_first()[0].0 == b);
            },
            None => {},
        }
    }
    if out.0 != read.0 {
        let wanted = RewriteView { path: source, read: read.0, text: out.0 };
        let r = choose|r: int| 0 <= r < inbound.len() && #[trigger] inbound[r] == wanted;
        assert(crate::files::lookup(after.files, inbound[r].path) == Some(
            crate::files::FileView::Text(out.0),
        ));
    }
}

/// The metadata of a document that moves, as its edits describe its relations: each
/// reference recomputed where the directory changes, and as it was where it does not.
pub open spec fn moved_meta(
    ws: WsView,
    doc: crate::document::DocView,
    from: Seq<char>,
    to: Seq<char>,
) -> MetaView {
    if leaves_directory(from, to) {
        crate::follow::edits_made(
            doc.meta,
            crate::field::relation_edits(
                ws,
                doc.meta,
                ws.relations.relations,
                crate::field::moved_entry(from, to, rename_moves(doc, from, to)),
            ),
        )
    } else {
        doc.meta
    }
}

/// A document that moves takes its links along: a path reference of its own that
/// reached a file reaches that file or where it has gone, as the document reads where
/// it went; and there is a file there. In the directory it had, a document's
/// references to itself and to its companion are not respelled. The document reads as
/// its edits describe.
pub proof fn law_renamed_keeps_reading(
    ws: WsView,
    from: Seq<char>,
    to: Seq<char>,
    after: WsView,
    i: int,
    k: int,
)
    requires
        document_renaming(ws, from, to) matches Ok((cs, _)) && crate::change::landed(ws, cs)
            matches Ok(w) && w == after,
        crate::workspace::loaded(ws.files, from) matches Ok((_, doc)) && keeps_apart(doc, from, to),
        crate::follow::distinct_names(ws.relations.relations),
        0 <= i < ws.relations.relations.len(),
        ({
            let (text, doc) = crate::workspace::loaded(ws.files, from)->Ok_0;
            let moves = rename_moves(doc, from, to);
            let body = body_move(ws, doc, from, to)->Ok_0;
            let name = ws.relations.relations[i].name;
            let raws = crate::meta::links_at(doc.meta, name);
            let target = crate::link::parse_link(raws[k]).target;
            let place = crate::link::resolve_path(from, target);
            &&& !crate::path::escapes(to)
            &&& crate::document::parsed(
                to,
                moved_text(ws, text, doc, from, to, body)->Ok_0,
            ) matches Some(now) && crate::meta::links_at(now.meta, name) == crate::meta::links_at(
                moved_meta(ws, doc, from, to),
                name,
            )
            &&& 0 <= k < raws.len()
            &&& crate::link::is_path_target(target)
            &&& crate::files::lookup(ws.files, place) is Some
            &&& if leaves_directory(from, to) {
                crate::follow::can_reach(
                    raws[k],
                    crate::follow::field_style(ws, name),
                    to,
                    crate::maintain::landing_or_same(moves, place),
                )
            } else {
                crate::maintain::landing(moves, place) is None
            }
        }),
    ensures
        ({
            let doc = (crate::workspace::loaded(ws.files, from)->Ok_0).1;
            let moves = rename_moves(doc, from, to);
            let name = ws.relations.relations[i].name;
            let raws = crate::meta::links_at(doc.meta, name);
            let gone = crate::maintain::landing_or_same(
                moves,
                crate::link::resolve_path(from, crate::link::parse_link(raws[k]).target),
            );
            crate::workspace::loaded(after.files, to) matches Ok((_, now)) && k
                < crate::meta::links_at(now.meta, name).len() && crate::follow::reaches(
                crate::meta::links_at(now.meta, name)[k],
                raws[k],
                to,
                gone,
            ) && crate::files::lookup(after.files, gone) is Some
        }),
{
    let (text, doc) = crate::workspace::loaded(ws.files, from)->Ok_0;
    let moves = rename_moves(doc, from, to);
    let name = ws.relations.relations[i].name;
    let raws = crate::meta::links_at(doc.meta, name);
    let place = crate::link::resolve_path(from, crate::link::parse_link(raws[k]).target);
    law_rename_lands(ws, from, to, after);
    law_rename_targets_stand(ws, from, to, after, place);
    if leaves_directory(from, to) {
        crate::follow::law_moved_document(ws, doc.meta, from, to, moves, i, k);
    }
}

/// The rename of a directory is the move of its tree.
pub proof fn law_rename_directory(ws: WsView, from: Seq<char>, to: Seq<char>)
    requires
        is_directory(ws, crate::path::normalized(from)),
    ensures
        renaming(ws, from, to) == crate::move_tree::tree_move(ws, from, to),
{
    crate::path::law_normalize_idempotent(from);
    crate::path::law_normalize_idempotent(to);
}

/// The root goes along with a document or a directory that moves, and so do the parked
/// directories.
pub proof fn law_rename_carries_root(ws: WsView, from: Seq<char>, to: Seq<char>, after: WsView)
    requires
        renaming(ws, from, to) matches Ok((cs, _)) && crate::change::landed(ws, cs) matches Ok(w)
            && w == after,
    ensures
        ({
            let f = crate::path::normalized(from);
            let t = crate::path::normalized(to);
            let moves = if is_directory(ws, f) {
                MovesView::Tree(f, t)
            } else {
                rename_moves((crate::workspace::loaded(ws.files, f)->Ok_0).1, f, t)
            };
            &&& after.root == crate::change::root_along(ws.root, moves)
            &&& after.parked == crate::change::all_along(ws.parked, moves)
        }),
        !is_directory(ws, crate::path::normalized(from)) && ws.root == Some(
            crate::path::normalized(from),
        ) ==> after.root == Some(crate::path::normalized(to)),
{
    let f = crate::path::normalized(from);
    let t = crate::path::normalized(to);
    crate::path::law_normalize_idempotent(from);
    crate::path::law_normalize_idempotent(to);
    if !is_directory(ws, f) {
        reveal_with_fuel(crate::maintain::paired_with, 2);
        let doc = (crate::workspace::loaded(ws.files, f)->Ok_0).1;
        match companion_move(doc, f, t) {
            Some(pair) => {
                assert(seq![(f, t), pair][0] == (f, t));
            },
            None => {
                assert(seq![(f, t)][0] == (f, t));
            },
        }
    }
}

/// Where a path is when a document has moved, and a file with it.
pub open spec fn gone_with(
    from: Seq<char>,
    to: Seq<char>,
    body: Seq<char>,
    body_to: Seq<char>,
    path: Seq<char>,
) -> Seq<char> {
    if path == from {
        to
    } else if path == body {
        body_to
    } else {
        path
    }
}

/// Where paths are when a document has moved, and its content file, where it has one, with
/// it.
pub open spec fn gone_along(
    from: Seq<char>,
    to: Seq<char>,
    content: Option<(Seq<char>, Seq<char>)>,
) -> spec_fn(Seq<char>) -> Seq<char> {
    |p: Seq<char>|
        match content {
            Some((body, body_to)) => gone_with(from, to, body, body_to, p),
            None => if p == from {
                to
            } else {
                p
            },
        }
}

proof fn lemma_gone_with(
    doc: crate::document::DocView,
    from: Seq<char>,
    to: Seq<char>,
    path: Seq<char>,
)
    ensures
        crate::maintain::landing_or_same(rename_moves(doc, from, to), path) == (match companion_move(
            doc,
            from,
            to,
        ) {
            Some((body, body_to)) => gone_with(from, to, body, body_to, path),
            None => if path == from {
                to
            } else {
                path
            },
        }),
{
    reveal_with_fuel(crate::maintain::paired_with, 3);
    match companion_move(doc, from, to) {
        Some((body, body_to)) => {
            let pairs = seq![(from, to), (body, body_to)];
            assert(pairs[0] == (from, to));
            assert(pairs.drop_first()[0] == (body, body_to));
            assert(pairs.drop_first().drop_first().len() == 0);
        },
        None => {
            let pairs = seq![(from, to)];
            assert(pairs[0] == (from, to));
            assert(pairs.drop_first().len() == 0);
        },
    }
}

/// The content file of a document moves with it, beside it. To another directory, it holds
/// there the prose that it held, with links that lead, from there, where those led from
/// where it was, or where that has gone; what stands between the links is as it was. In the
/// same directory, and where it is no prose, it holds what it held. It is not where it was.
pub proof fn law_content_moves_along(ws: WsView, from: Seq<char>, to: Seq<char>, after: WsView)
    requires
        document_renaming(ws, from, to) matches Ok((cs, _)) && crate::change::landed(ws, cs)
            matches Ok(w) && w == after,
        crate::workspace::loaded(ws.files, from) matches Ok((_, doc)) && ({
            let body = crate::path::under(
                crate::path::parent_of(from),
                crate::meta::text_field(doc.meta, "content"@)->Some_0,
            );
            crate::meta::text_field(doc.meta, "content"@) is Some && body != to
                && crate::maintain::sibling_of(to, body) != to
        }),
    ensures
        ({
            let (_, doc) = crate::workspace::loaded(ws.files, from)->Ok_0;
            let body = crate::path::under(
                crate::path::parent_of(from),
                crate::meta::text_field(doc.meta, "content"@)->Some_0,
            );
            let body_to = crate::maintain::sibling_of(to, body);
            &&& crate::files::lookup(after.files, body) is None
            &&& if crate::path::parent_of(from) != crate::path::parent_of(to)
                && !crate::document::is_opaque(body) {
                crate::files::lookup(ws.files, body) matches Some(
                    crate::files::FileView::Text(raw),
                ) && exists|news: Seq<Seq<char>>|
                    {
                        &&& #[trigger] crate::following::leads_on(
                            raw,
                            body,
                            body_to,
                            ws.settings.references.path_style,
                            gone_along(from, to, Some((body, body_to))),
                            news,
                        )
                        &&& crate::files::lookup(after.files, body_to) == Some(
                            crate::files::FileView::Text(
                                crate::following::woven(
                                    raw,
                                    crate::prose::body_links(body, raw),
                                    news,
                                ),
                            ),
                        )
                    }
            } else {
                crate::files::lookup(after.files, body_to) == crate::files::lookup(ws.files, body)
            }
        }),
{
    let (_, doc) = crate::workspace::loaded(ws.files, from)->Ok_0;
    let body = crate::path::under(
        crate::path::parent_of(from),
        crate::meta::text_field(doc.meta, "content"@)->Some_0,
    );
    let body_to = crate::maintain::sibling_of(to, body);
    assert(companion_move(doc, from, to) == Some((body, body_to)));
    law_rename_lands(ws, from, to, after);
    let mv = body_move(ws, doc, from, to)->Ok_0->Some_0;
    if !crate::document::is_opaque(body) {
        let raw = (crate::workspace::loaded(ws.files, body)->Ok_0).0;
        if leaves_directory(from, to) {
            let moves = rename_moves(doc, from, to);
            let style = ws.settings.references.path_style;
            let links = crate::prose::body_links(body, raw);
            let news = crate::following::law_moved_prose(raw, body, body_to, moves, style);
            let rule = crate::maintain::moved_rule(raw, body, body_to, moves, style);
            assert forall|p: Seq<char>| #[trigger] crate::maintain::landing_or_same(moves, p)
                == gone_with(from, to, body, body_to, p) by {
                lemma_gone_with(doc, from, to, p);
            }
            let a = |p: Seq<char>| crate::maintain::landing_or_same(moves, p);
            let b = gone_along(from, to, Some((body, body_to)));
            assert(a =~= b);
            assert(crate::following::leads_on(raw, body, body_to, style, b, news));
            let none = Seq::<char>::empty();
            assert(none + raw =~= raw);
            let new = crate::maintain::respelled_body(raw, links, rule);
            crate::maintain::law_spliced_end(none, raw, new);
            assert(none + new =~= new);
            if crate::maintain::changes_by(links, rule).len() == 0 {
                assert(crate::maintain::changes_by(links, rule) =~= Seq::empty());
                assert(crate::maintain::rebuilt(raw, Seq::empty()) =~= raw);
            }
        }
    }
}

proof fn lemma_same_reading(p: Seq<char>, q: Seq<char>, text: Seq<char>)
    requires
        crate::document::file_format(p) == crate::document::file_format(q),
    ensures
        crate::document::parsed(p, text) == crate::document::parsed(q, text),
{
}

/// The content file of a document that moves, and where it goes.
pub open spec fn content_along(doc: crate::document::DocView, from: Seq<char>, to: Seq<char>) -> Option<
    (Seq<char>, Seq<char>),
> {
    match crate::meta::text_field(doc.meta, "content"@) {
        Some(raw) => {
            let body = crate::path::under(crate::path::parent_of(from), raw);
            Some((body, crate::maintain::sibling_of(to, body)))
        },
        None => None,
    }
}

proof fn lemma_moved_touches(
    ws: WsView,
    text: Seq<char>,
    doc: crate::document::DocView,
    from: Seq<char>,
    to: Seq<char>,
    body: Option<BodyMoveView>,
) -> (touches: Seq<crate::reading::Touch>)
    requires
        crate::document::parsed(from, text) == Some(doc),
        moved_text(ws, text, doc, from, to, body) is Ok,
        body matches Some(mv) ==> mv.pin is None && crate::meta::text_field(
            doc.meta,
            "content"@,
        ) is Some,
    ensures
        ({
            let moved = moved_text(ws, text, doc, from, to, body)->Ok_0;
            let metas = moved_meta(ws, doc, from, to);
            &&& crate::reading::all_touched(text, doc.carrier, touches) == Some(moved)
            &&& crate::reading::reads_through(from, text, touches) ==> crate::document::parsed(
                from,
                moved,
            ) == Some(
                crate::document::DocView {
                    meta: match body {
                        Some(mv) => crate::follow::one_edited(
                            metas,
                            crate::field::EditView {
                                way: crate::document::key_way("content"@),
                                text: crate::maintain::name_or_empty(mv.to),
                            },
                        ),
                        None => metas,
                    },
                    body: if leaves_directory(from, to) {
                        crate::maintain::respelled_body(
                            doc.body,
                            crate::prose::body_links(from, doc.body),
                            crate::maintain::moved_rule(
                                doc.body,
                                from,
                                to,
                                rename_moves(doc, from, to),
                                ws.settings.references.path_style,
                            ),
                        )
                    } else {
                        doc.body
                    },
                    ..doc
                },
            )
        }),
{
    let leaves = leaves_directory(from, to);
    let moves = rename_moves(doc, from, to);
    let style = ws.settings.references.path_style;
    let rule = crate::field::moved_entry(from, to, moves);
    let edits = crate::field::relation_edits(ws, doc.meta, ws.relations.relations, rule);
    let links = crate::prose::body_links(from, doc.body);
    let brule = crate::maintain::moved_rule(doc.body, from, to, moves, style);
    let changes = crate::maintain::changes_by(links, brule);
    let new = crate::maintain::respelled_body(doc.body, links, brule);
    let none = Seq::<crate::reading::Touch>::empty();
    let a = if leaves && doc.carrier is Some {
        crate::reading::replacements(edits)
    } else {
        none
    };
    let touch = crate::reading::Touch::Body(doc.body, new);
    let b = if leaves && changes.len() > 0 {
        none.push(touch)
    } else {
        none
    };
    let point = crate::reading::Touch::Replace(
        crate::document::key_way("content"@),
        crate::maintain::name_or_empty(body->Some_0.to),
    );
    let c = if body is Some {
        none.push(point)
    } else {
        none
    };
    let touches = a + b + c;
    if doc.carrier is Some {
        crate::reading::lemma_replacements(text, doc.carrier->Some_0, doc, edits);
    } else {
        crate::following::lemma_no_edits(ws, doc.meta, ws.relations.relations, rule);
    }
    crate::reading::lemma_touch_add(text, doc.carrier, doc, a, b);
    crate::reading::lemma_touch_add(text, doc.carrier, doc, a + b, c);
    let first = crate::reading::all_touched(text, doc.carrier, a);
    assert(first is Some);
    assert(crate::reading::all_carried(doc.carrier, a) == doc.carrier);
    let mid = crate::reading::all_meant(doc, a);
    crate::reading::lemma_touch_push(first->Some_0, doc.carrier, mid, none, touch);
    let second = crate::reading::all_touched(text, doc.carrier, a + b);
    assert(crate::reading::all_carried(doc.carrier, a + b) == doc.carrier);
    assert(second is Some);
    let then = crate::reading::all_meant(doc, a + b);
    crate::reading::lemma_touch_push(second->Some_0, doc.carrier, then, none, point);
    if changes.len() == 0 {
        assert(changes =~= Seq::empty());
        assert(crate::maintain::rebuilt(doc.body, changes) =~= doc.body);
    }
    if crate::reading::reads_through(from, text, touches) {
        crate::reading::law_touched_reads(from, text, touches);
    }
    touches
}

/// Whether a document that moved reads as one that took its links along: with references
/// that lead from its new place where those led from the old one, or where that has gone;
/// with the name of its content file where that has gone; and with a body whose links lead
/// on. In the directory it had, its other references and its body are as they were.
pub open spec fn reads_moved(
    ws: WsView,
    doc: crate::document::DocView,
    now: crate::document::DocView,
    from: Seq<char>,
    to: Seq<char>,
    i: int,
    k: int,
) -> bool {
    let name = ws.relations.relations[i].name;
    let raws = crate::meta::links_at(doc.meta, name);
    let news = crate::meta::links_at(now.meta, name);
    let target = crate::link::parse_link(raws[k]).target;
    let leaves = crate::path::parent_of(from) != crate::path::parent_of(to);
    let gone = gone_along(from, to, content_along(doc, from, to));
    let place = gone(crate::link::resolve_path(from, target));
    &&& news.len() == raws.len()
    &&& if crate::link::is_path_target(target) && leaves {
        crate::follow::can_reach(raws[k], crate::follow::field_style(ws, name), to, place)
            ==> crate::follow::reaches(news[k], raws[k], to, place)
    } else {
        news[k] == raws[k]
    }
    &&& content_along(doc, from, to) matches Some((_, body_to)) ==> crate::meta::text_field(
        now.meta,
        "content"@,
    ) == Some(crate::maintain::name_or_empty(body_to))
    &&& if leaves {
        exists|pieces: Seq<Seq<char>>|
            {
                &&& #[trigger] crate::following::leads_on(
                    doc.body,
                    from,
                    to,
                    ws.settings.references.path_style,
                    gone_along(from, to, content_along(doc, from, to)),
                    pieces,
                )
                &&& now.body == crate::following::woven(
                    doc.body,
                    crate::prose::body_links(from, doc.body),
                    pieces,
                )
            }
    } else {
        now.body == doc.body
    }
}

/// A document that moves with its content file, or without one, takes its links along. Its
/// edits read back, and it is of the same kind of file.
pub proof fn law_renamed_reads(
    ws: WsView,
    from: Seq<char>,
    to: Seq<char>,
    after: WsView,
    i: int,
    k: int,
)
    requires
        document_renaming(ws, from, to) matches Ok((cs, _)) && crate::change::landed(ws, cs)
            matches Ok(w) && w == after,
        crate::document::file_format(from) == crate::document::file_format(to),
        crate::follow::distinct_names(ws.relations.relations),
        0 <= i < ws.relations.relations.len(),
        ws.relations.relations[i].name != "content"@,
        crate::workspace::loaded(ws.files, from) matches Ok((_, doc)) && keeps_apart(doc, from, to)
            && crate::meta::text_field(doc.meta, "manifest"@) is None && 0 <= k
            < crate::meta::links_at(doc.meta, ws.relations.relations[i].name).len(),
    ensures
        ({
            let (text, doc) = crate::workspace::loaded(ws.files, from)->Ok_0;
            &&& crate::files::lookup(after.files, from) is None
            &&& exists|touches: Seq<crate::reading::Touch>|
                {
                    &&& #[trigger] crate::reading::all_touched(text, doc.carrier, touches) matches Some(
                        out,
                    ) && crate::files::lookup(after.files, to) == Some(
                        crate::files::FileView::Text(out),
                    )
                    &&& crate::reading::reads_through(from, text, touches) ==> (
                    crate::reading::all_touched(text, doc.carrier, touches) matches Some(out) && (
                    crate::document::parsed(to, out) matches Some(now) && reads_moved(
                        ws,
                        doc,
                        now,
                        from,
                        to,
                        i,
                        k,
                    )))
                }
        }),
{
    let (text, doc) = crate::workspace::loaded(ws.files, from)->Ok_0;
    law_rename_lands(ws, from, to, after);
    let body = body_move(ws, doc, from, to)->Ok_0;
    assert(content_along(doc, from, to) == companion_move(doc, from, to));
    let touches = lemma_moved_touches(ws, text, doc, from, to, body);
    let moved = moved_text(ws, text, doc, from, to, body)->Ok_0;
    if crate::reading::reads_through(from, text, touches) {
        lemma_same_reading(from, to, moved);
        let now = crate::document::parsed(to, moved)->Some_0;
        lemma_reads_moved(ws, doc, now, from, to, body, i, k);
    }
}

proof fn lemma_reads_moved(
    ws: WsView,
    doc: crate::document::DocView,
    now: crate::document::DocView,
    from: Seq<char>,
    to: Seq<char>,
    body: Option<BodyMoveView>,
    i: int,
    k: int,
)
    requires
        crate::follow::distinct_names(ws.relations.relations),
        0 <= i < ws.relations.relations.len(),
        ws.relations.relations[i].name != "content"@,
        content_along(doc, from, to) == companion_move(doc, from, to),
        match body {
            Some(mv) => companion_move(doc, from, to) == Some((mv.from, mv.to)),
            None => companion_move(doc, from, to) is None,
        },
        0 <= k < crate::meta::links_at(doc.meta, ws.relations.relations[i].name).len(),
        now == (crate::document::DocView {
            meta: match body {
                Some(mv) => crate::follow::one_edited(
                    moved_meta(ws, doc, from, to),
                    crate::field::EditView {
                        way: crate::document::key_way("content"@),
                        text: crate::maintain::name_or_empty(mv.to),
                    },
                ),
                None => moved_meta(ws, doc, from, to),
            },
            body: if leaves_directory(from, to) {
                crate::maintain::respelled_body(
                    doc.body,
                    crate::prose::body_links(from, doc.body),
                    crate::maintain::moved_rule(
                        doc.body,
                        from,
                        to,
                        rename_moves(doc, from, to),
                        ws.settings.references.path_style,
                    ),
                )
            } else {
                doc.body
            },
            ..doc
        }),
    ensures
        reads_moved(ws, doc, now, from, to, i, k),
{
    let name = ws.relations.relations[i].name;
    let raws = crate::meta::links_at(doc.meta, name);
    let target = crate::link::parse_link(raws[k]).target;
    let leaves = leaves_directory(from, to);
    let moves = rename_moves(doc, from, to);
    let style = ws.settings.references.path_style;
    let gone = gone_along(from, to, content_along(doc, from, to));
    assert forall|p: Seq<char>| #[trigger] crate::maintain::landing_or_same(moves, p) == gone(
        p,
    ) by {
        lemma_gone_with(doc, from, to, p);
    }
    let rule = crate::field::moved_entry(from, to, moves);
    let metas = moved_meta(ws, doc, from, to);
    crate::follow::law_references_respelled(ws, doc.meta, rule, i);
    match body {
        Some(mv) => {
            lemma_point_meant(
                ws,
                doc,
                metas,
                leaves,
                rule,
                crate::maintain::name_or_empty(mv.to),
            );
        },
        None => {},
    }
    assert(crate::meta::links_at(now.meta, name) == crate::meta::links_at(metas, name));
    if leaves {
        if crate::link::is_path_target(target) {
            if crate::follow::can_reach(
                raws[k],
                crate::follow::field_style(ws, name),
                to,
                gone(crate::link::resolve_path(from, target)),
            ) {
                crate::follow::law_moved_reference(
                    crate::follow::field_style(ws, name),
                    from,
                    to,
                    moves,
                    raws[k],
                );
            }
        }
        let pieces = crate::following::law_moved_prose(doc.body, from, to, moves, style);
        let other = |p: Seq<char>| crate::maintain::landing_or_same(moves, p);
        assert(other =~= gone);
        assert(crate::following::leads_on(doc.body, from, to, style, gone, pieces));
    }
}

/// A document that a survey covers follows a document that moves: it reads with every path
/// reference to that document, or to its companion, led to where it has gone, where it can
/// be respelled to, and with every other reference as it was; its body follows too. Its
/// edits read back.
pub proof fn law_referrers_follow(
    ws: WsView,
    from: Seq<char>,
    to: Seq<char>,
    after: WsView,
    inverse: Seq<char>,
    source: Seq<char>,
    i: int,
    k: int,
)
    requires
        document_renaming(ws, from, to) matches Ok((cs, _)) && crate::change::landed(ws, cs)
            matches Ok(w) && w == after,
        crate::workspace::loaded(ws.files, from) matches Ok((_, doc)) && keeps_apart(doc, from, to)
            && source != from && (companion_move(doc, from, to) matches Some((b, _)) ==> source
            != b),
        crate::follow::distinct_names(ws.relations.relations),
        crate::workspace::spanning_names(ws.relations) matches Ok((_, v)) && v == inverse,
        crate::walk::surveyed(ws, crate::walk::root_of(ws, from, inverse)).contains(source),
        0 <= i < ws.relations.relations.len(),
        ({
            let moves = rename_moves((crate::workspace::loaded(ws.files, from)->Ok_0).1, from, to);
            let read = crate::workspace::loaded(ws.files, source)->Ok_0;
            let name = ws.relations.relations[i].name;
            let raws = crate::meta::links_at(read.1.meta, name);
            let place = crate::landing::place_of(source, raws[k]);
            &&& 0 <= k < raws.len()
            &&& crate::link::is_path_target(crate::link::parse_link(raws[k]).target) ==> place
                != source && (crate::maintain::landing(moves, place) matches Some(gone)
                ==> crate::follow::can_reach(
                raws[k],
                crate::follow::field_style(ws, name),
                source,
                gone,
            ))
        }),
    ensures
        ({
            let (_, doc) = crate::workspace::loaded(ws.files, from)->Ok_0;
            let name = ws.relations.relations[i].name;
            let read = crate::workspace::loaded(ws.files, source)->Ok_0;
            let raws = crate::meta::links_at(read.1.meta, name);
            let place = crate::landing::place_of(source, raws[k]);
            let gone = gone_along(from, to, companion_move(doc, from, to))(place);
            exists|touches: Seq<crate::reading::Touch>|
                #[trigger] crate::reading::reads_through(source, read.0, touches) ==> (
                crate::reading::all_touched(read.0, read.1.carrier, touches) matches Some(out)
                    && crate::files::lookup(after.files, source) == Some(
                    crate::files::FileView::Text(out),
                ) && (crate::workspace::loaded(after.files, source) matches Ok((_, now)) && ({
                    let news = crate::meta::links_at(now.meta, name);
                    &&& news.len() == raws.len()
                    &&& if crate::link::is_path_target(
                        crate::link::parse_link(raws[k]).target,
                    ) && (place == from || (companion_move(doc, from, to) matches Some((b, _))
                        && place == b)) {
                        crate::follow::reaches(news[k], raws[k], source, gone)
                    } else {
                        news[k] == raws[k]
                    }
                    &&& now.body == crate::following::followed_body(
                        ws,
                        source,
                        read.1.body,
                        match companion_move(doc, from, to) {
                            Some((b, _)) => seq![from, b],
                            None => seq![from],
                        },
                        rename_moves(doc, from, to),
                    )
                })))
        }),
{
    let (_, doc) = crate::workspace::loaded(ws.files, from)->Ok_0;
    let moves = rename_moves(doc, from, to);
    let moved = crate::field::moved_paths(ws.files, moves);
    let name = ws.relations.relations[i].name;
    let read = crate::workspace::loaded(ws.files, source)->Ok_0;
    let raws = crate::meta::links_at(read.1.meta, name);
    let place = crate::landing::place_of(source, raws[k]);
    law_rename_lands(ws, from, to, after);
    lemma_gone_with(doc, from, to, place);
    lemma_rename_places(doc, from, to, ws.files, source);
    lemma_rename_places(doc, from, to, ws.files, place);
    let inbound = crate::field::inbound_rewrites(ws, from, moves, Movers::Skip)->Ok_0;
    crate::landing::law_survey_follows(ws, from, inverse, moves, Movers::Skip, source);
    let out = crate::field::followed(ws, source, read, moved, moves)->Ok_0;
    let touches = crate::following::law_followed_touches(ws, source, read, moved, moves);
    crate::landing::law_followed_reads(ws, source, read, moved, moves);
    crate::landing::law_file_is_taken(ws.files, source);
    lemma_rename_settles(ws, from, to, after, place);
    if out.0 != read.0 {
        let wanted = RewriteView { path: source, read: read.0, text: out.0 };
        let r = choose|r: int| 0 <= r < inbound.len() && #[trigger] inbound[r] == wanted;
        assert(crate::files::lookup(after.files, inbound[r].path) == Some(
            crate::files::FileView::Text(out.0),
        ));
    }
    if crate::reading::reads_through(source, read.0, touches) {
        crate::follow::law_followed_document(ws, source, read.1.meta, moved, moves, i, k);
    }
}

proof fn lemma_rename_places(
    doc: crate::document::DocView,
    from: Seq<char>,
    to: Seq<char>,
    files: crate::files::FileSeq,
    path: Seq<char>,
)
    ensures
        ({
            let moves = rename_moves(doc, from, to);
            let moved = crate::field::moved_paths(files, moves);
            let is_moved = path == from || (companion_move(doc, from, to) matches Some((b, _))
                && path == b);
            &&& crate::maintain::landing(moves, path) is Some <==> is_moved
            &&& moved.contains(path) <==> is_moved
            &&& moved == (match companion_move(doc, from, to) {
                Some((b, _)) => seq![from, b],
                None => seq![from],
            })
        }),
{
    reveal_with_fuel(crate::maintain::paired_with, 3);
    let moved = crate::field::moved_paths(files, rename_moves(doc, from, to));
    match companion_move(doc, from, to) {
        Some((body, body_to)) => {
            let pairs = seq![(from, to), (body, body_to)];
            assert(pairs[0] == (from, to));
            assert(pairs.drop_first()[0] == (body, body_to));
            assert(pairs.drop_first().drop_first().len() == 0);
            assert(moved =~= seq![from, body]);
            assert(moved[0] == from && moved[1] == body);
        },
        None => {
            let pairs = seq![(from, to)];
            assert(pairs[0] == (from, to));
            assert(pairs.drop_first().len() == 0);
            assert(moved =~= seq![from]);
            assert(moved[0] == from);
        },
    }
}

proof fn lemma_point_meant(
    ws: WsView,
    doc: crate::document::DocView,
    metas: MetaView,
    leaves: bool,
    rule: crate::field::EntryRule,
    name: Seq<char>,
)
    requires
        crate::follow::distinct_names(ws.relations.relations),
        metas == (if leaves {
            crate::follow::edits_made(
                doc.meta,
                crate::field::relation_edits(ws, doc.meta, ws.relations.relations, rule),
            )
        } else {
            doc.meta
        }),
        crate::meta::text_field(doc.meta, "content"@) is Some,
    ensures
        ({
            let edit = crate::field::EditView {
                way: crate::document::key_way("content"@),
                text: name,
            };
            let now = crate::follow::one_edited(metas, edit);
            &&& crate::meta::text_field(now, "content"@) == Some(name)
            &&& forall|key: Seq<char>|
                key != "content"@ ==> #[trigger] crate::meta::field(now, key)
                    == crate::meta::field(metas, key)
        }),
{
    lemma_edits_mapping(
        doc.meta,
        crate::field::relation_edits(ws, doc.meta, ws.relations.relations, rule),
    );
    let pairs = metas->Mapping_0;
    let value = MetaView::Text(name);
    crate::meta::law_put_reads_back(pairs, "content"@, value, "content"@);
    assert forall|key: Seq<char>| key != "content"@ implies #[trigger] crate::meta::field(
        MetaView::Mapping(crate::meta::put(pairs, "content"@, value)),
        key,
    ) == crate::meta::field(metas, key) by {
        crate::meta::law_put_reads_back(pairs, "content"@, value, key);
    }
}

proof fn lemma_edits_mapping(meta: MetaView, edits: Seq<crate::field::EditView>)
    requires
        meta is Mapping,
    ensures
        crate::follow::edits_made(meta, edits) is Mapping,
    decreases edits.len(),
{
    if edits.len() > 0 {
        lemma_edits_mapping(meta, edits.drop_last());
    }
}

} // verus!
