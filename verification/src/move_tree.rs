//! Another place for a directory, and the links that follow its files there.

use crate::change::{ChangeSet, ChangeView, Rewrite, RewriteView};
use crate::document::Document;
use crate::error::{Error, Fault};
use crate::field::{paths_within, Movers};
use crate::maintain::{landing_or_same, Moves, MovesView};
use crate::meta::{Meta, MetaView};
use crate::path::opt_text;
use crate::text::same_text;
use crate::transcode::{find_staged, staged};
use crate::workspace::{Outcome, Workspace, WsView};
use vstd::prelude::*;

verus! {

/// What keeps a directory from moving.
pub open spec fn tree_fault(ws: WsView, from: Seq<char>, to: Seq<char>) -> Option<
    Fault<Seq<char>>,
> {
    if from.len() == 0 {
        Some(Fault::RootMove)
    } else if !crate::files::occupied(ws.files, from) {
        Some(Fault::NotFound(from))
    } else if crate::files::lookup(ws.files, from) is Some {
        Some(Fault::NotADirectory(from))
    } else if to.len() == 0 || crate::path::is_within(to, from) {
        Some(Fault::IntoItself(from, to))
    } else if crate::files::occupied(ws.files, to) {
        Some(Fault::AlreadyExists(to))
    } else {
        None
    }
}

/// Whether a part of the path below a directory starts with a dot.
pub open spec fn is_hidden_below(path: Seq<char>, dir: Seq<char>) -> bool {
    exists|i: int|
        crate::path::parts(dir).len() <= i < crate::path::parts(path).len() && crate::text::begins(
            #[trigger] crate::path::parts(path)[i],
            "."@,
        )
}

/// Whether a file is in a directory that is not maintained.
pub open spec fn is_parked(parked: Seq<Seq<char>>, path: Seq<char>) -> bool {
    exists|i: int| 0 <= i < parked.len() && crate::path::is_within(path, #[trigger] parked[i])
}

/// Whether the links of a file under a directory are maintained.
pub open spec fn is_maintained(ws: WsView, path: Seq<char>, dir: Seq<char>) -> bool {
    !is_hidden_below(path, dir) && !is_parked(ws.parked, path) && !crate::document::is_opaque(path)
}

/// What keeps the files of a directory from taking their identifiers along.
pub open spec fn tree_ids_fault(ws: WsView, files: Seq<Seq<char>>, moves: MovesView) -> Option<
    Fault<Seq<char>>,
>
    decreases files.len(),
{
    if files.len() == 0 {
        None
    } else {
        match tree_ids_fault(ws, files.drop_last(), moves) {
            Some(e) => Some(e),
            None => crate::separate::handover_fault(
                ws,
                files.last(),
                landing_or_same(moves, files.last()),
            ),
        }
    }
}

/// The identifiers when these files have moved.
pub open spec fn tree_ids(ws: WsView, files: Seq<Seq<char>>, moves: MovesView) ->
    crate::registry::IdSeq
    decreases files.len(),
{
    if files.len() == 0 {
        ws.ids
    } else {
        let ids = tree_ids(ws, files.drop_last(), moves);
        match crate::registry::id_at(ws.ids, files.last()) {
            Some(id) => crate::registry::bound(ids, id, landing_or_same(moves, files.last())),
            None => ids,
        }
    }
}

/// The text of a document that moves with its directory.
pub open spec fn carried_text(
    ws: WsView,
    path: Seq<char>,
    text: Seq<char>,
    doc: crate::document::DocView,
    moves: MovesView,
) -> Outcome<Seq<char>> {
    let to = landing_or_same(moves, path);
    match crate::field::respelled_fields(
        ws,
        path,
        text,
        doc,
        crate::field::moved_entry(path, to, moves),
    ) {
        Err(e) => Err(e),
        Ok(out) => Ok(
            crate::maintain::body_moved(
                out,
                doc.body,
                path,
                to,
                moves,
                ws.settings.references.path_style,
            ),
        ),
    }
}

/// What becomes of the texts of these files: those that are maintained and can
/// be read have their links recomputed.
pub open spec fn carried_texts(
    ws: WsView,
    files: Seq<Seq<char>>,
    dir: Seq<char>,
    moves: MovesView,
) -> Outcome<Seq<RewriteView>>
    decreases files.len(),
{
    if files.len() == 0 {
        Ok(Seq::empty())
    } else {
        match carried_texts(ws, files.drop_last(), dir, moves) {
            Err(e) => Err(e),
            Ok(rest) => {
                let path = files.last();
                if !is_maintained(ws, path, dir) {
                    Ok(rest)
                } else {
                    match crate::workspace::loaded(ws.files, path) {
                        Err(_) => Ok(rest),
                        Ok((text, doc)) => match carried_text(ws, path, text, doc, moves) {
                            Err(e) => Err(e),
                            Ok(out) => if out == text {
                                Ok(rest)
                            } else {
                                Ok(rest.push(RewriteView { path, read: text, text: out }))
                            },
                        },
                    }
                }
            },
        }
    }
}

/// The rewrites without that of one document.
pub open spec fn unstaged(rewrites: Seq<RewriteView>, path: Seq<char>) -> Seq<RewriteView>
    decreases rewrites.len(),
{
    if rewrites.len() == 0 {
        Seq::empty()
    } else {
        let rest = unstaged(rewrites.drop_last(), path);
        if rewrites.last().path == path {
            rest
        } else {
            rest.push(rewrites.last())
        }
    }
}

/// The rewrites with that of one document in place of the one before.
pub open spec fn restaged(
    rewrites: Seq<RewriteView>,
    path: Seq<char>,
    read: Seq<char>,
    text: Seq<char>,
) -> Seq<RewriteView> {
    unstaged(rewrites, path).push(RewriteView { path, read, text })
}

/// Whether a row of a manifest names a file below its root.
pub open spec fn is_row(row: MetaView) -> bool {
    match crate::meta::text_field(row, "path"@) {
        Some(path) => !crate::path::escapes(path),
        None => false,
    }
}

/// Whether every row names a file below the root.
pub open spec fn hold_rows(rows: Seq<MetaView>) -> bool {
    forall|i: int| 0 <= i < rows.len() ==> is_row(#[trigger] rows[i])
}

/// Whether the rows of a manifest are well formed.
pub open spec fn are_rows(rows: Option<MetaView>) -> bool {
    match rows {
        None => true,
        Some(MetaView::Null) => true,
        Some(MetaView::List(rows)) => hold_rows(rows),
        Some(_) => false,
    }
}

/// The root of a manifest; none where it is not well formed.
pub open spec fn manifest_root(meta: MetaView) -> Option<Seq<char>> {
    if are_rows(crate::meta::field(meta, "files"@)) {
        crate::meta::text_field(meta, "root"@)
    } else {
        None
    }
}

/// The root of a manifest as it is written when its directory, or the manifest,
/// has moved.
pub open spec fn moved_root(store: Seq<char>, root: Seq<char>, moves: MovesView) -> Seq<char> {
    crate::path::relative_to(
        crate::path::parent_of(landing_or_same(moves, store)),
        landing_or_same(moves, crate::link::resolve_path(store, root)),
    ) + "/"@
}

/// A document as far as it was rewritten, or as it is.
pub open spec fn staged_or(rewrites: Seq<RewriteView>, path: Seq<char>, raw: Seq<char>) -> Seq<
    char,
> {
    match staged(rewrites, path) {
        Some(text) => text,
        None => raw,
    }
}

/// The rewrites with the checksum of a manifest in its node.
pub open spec fn repinned(
    ws: WsView,
    rewrites: Seq<RewriteView>,
    node: Seq<char>,
    manifest: Seq<char>,
) -> Outcome<Seq<RewriteView>> {
    match crate::workspace::loaded(ws.files, node) {
        Err(e) => Err(e),
        Ok((raw, doc)) => match doc.carrier {
            None => Ok(rewrites),
            Some(carrier) => match crate::document::set_at(
                staged_or(rewrites, node, raw),
                carrier,
                crate::document::key_way("content_hash"@),
                MetaView::Text(
                    crate::fixity::checksum(vstd::utf8::encode_utf8(manifest)),
                ),
            ) {
                None => Err(Fault::Metadata(node)),
                Some(out) => Ok(restaged(rewrites, node, raw, out)),
            },
        },
    }
}

/// The rewrites with the root of a manifest respelled, and its checksum in its
/// node where that holds one. A manifest that is not well formed is left alone.
pub open spec fn rerooted(
    ws: WsView,
    rewrites: Seq<RewriteView>,
    node: Seq<char>,
    store: Seq<char>,
    pinned: bool,
    moves: MovesView,
) -> Outcome<Seq<RewriteView>> {
    match crate::workspace::loaded(ws.files, store) {
        Err(e) => Err(e),
        Ok((raw, doc)) => match manifest_root(doc.meta) {
            None => Ok(rewrites),
            Some(root) => {
                let base = staged_or(rewrites, store, raw);
                match crate::document::set_in(
                    base,
                    doc.carrier,
                    "root"@,
                    MetaView::Text(moved_root(store, root, moves)),
                ) {
                    None => Err(Fault::Metadata(store)),
                    Some(out) => if out == base {
                        Ok(rewrites)
                    } else if pinned {
                        repinned(ws, restaged(rewrites, store, raw, out), node, out)
                    } else {
                        Ok(restaged(rewrites, store, raw, out))
                    },
                }
            },
        },
    }
}

/// The rewrites with the manifests of these files respelled.
pub open spec fn all_rerooted(
    ws: WsView,
    rewrites: Seq<RewriteView>,
    files: Seq<Seq<char>>,
    dir: Seq<char>,
    moves: MovesView,
) -> Outcome<Seq<RewriteView>>
    decreases files.len(),
{
    if files.len() == 0 {
        Ok(rewrites)
    } else {
        match all_rerooted(ws, rewrites, files.drop_last(), dir, moves) {
            Err(e) => Err(e),
            Ok(rest) => {
                let path = files.last();
                if !is_maintained(ws, path, dir) {
                    Ok(rest)
                } else {
                    match crate::workspace::loaded(ws.files, path) {
                        Err(_) => Ok(rest),
                        Ok((_, doc)) => match crate::maintain::manifest_file(doc, path) {
                            None => Ok(rest),
                            Some(store) => rerooted(
                                ws,
                                rest,
                                path,
                                store,
                                crate::meta::field(doc.meta, "content_hash"@) is Some,
                                moves,
                            ),
                        },
                    }
                }
            },
        }
    }
}

/// The renames of these files, each to a place where there is none.
pub open spec fn tree_renames(files: Seq<Seq<char>>, moves: MovesView) -> Seq<crate::files::OpView>
    decreases files.len(),
{
    if files.len() == 0 {
        Seq::empty()
    } else {
        let to = landing_or_same(moves, files.last());
        tree_renames(files.drop_last(), moves).push(crate::files::OpView::ExpectAbsent(to)).push(
            crate::files::OpView::Rename(files.last(), to),
        )
    }
}

/// The writes of rewritten documents where they land.
pub open spec fn landing_ops(rewrites: Seq<RewriteView>, moves: MovesView) -> Seq<
    crate::files::OpView,
>
    decreases rewrites.len(),
{
    if rewrites.len() == 0 {
        Seq::empty()
    } else {
        let last = rewrites.last();
        landing_ops(rewrites.drop_last(), moves).push(
            crate::files::OpView::Expect(last.path, last.read),
        ).push(crate::files::write_text(landing_or_same(moves, last.path), last.text))
    }
}

/// The changes that move a directory, or why there are none.
pub open spec fn tree_move(ws: WsView, from: Seq<char>, to: Seq<char>) -> Outcome<(ChangeView, ())> {
    let from = crate::path::normalized(from);
    let to = crate::path::normalized(to);
    let moves = MovesView::Tree(from, to);
    let files = paths_within(ws.files, from);
    match tree_fault(ws, from, to) {
        Some(e) => Err(e),
        None => match tree_ids_fault(ws, files, moves) {
            Some(e) => Err(e),
            None => match crate::field::inbound_rewrites(
                ws,
                crate::walk::anchor_of(ws, from),
                moves,
                Movers::Skip,
            ) {
                Err(e) => Err(e),
                Ok(inbound) => match carried_texts(ws, files, from, moves) {
                    Err(e) => Err(e),
                    Ok(carried) => match all_rerooted(ws, carried, files, from, moves) {
                        Err(e) => Err(e),
                        Ok(planned) => Ok(
                            (
                                crate::change::no_change(ws).with_all(
                                    tree_renames(files, moves),
                                ).with_all(landing_ops(planned, moves)).with_all(
                                    crate::change::rewrite_ops(inbound),
                                ).with_ids(tree_ids(ws, files, moves)).along(moves),
                                (),
                            ),
                        ),
                    },
                },
            },
        },
    }
}

proof fn lemma_tree_ids_fail(ws: WsView, files: Seq<Seq<char>>, moves: MovesView, n: int)
    requires
        0 <= n <= files.len(),
        tree_ids_fault(ws, files.take(n), moves) is Some,
    ensures
        tree_ids_fault(ws, files, moves) == tree_ids_fault(ws, files.take(n), moves),
    decreases files.len(),
{
    if n == files.len() {
        assert(files.take(n) =~= files);
    } else {
        assert(files.drop_last().take(n) =~= files.take(n));
        lemma_tree_ids_fail(ws, files.drop_last(), moves, n);
    }
}

proof fn lemma_carried_fails(
    ws: WsView,
    files: Seq<Seq<char>>,
    dir: Seq<char>,
    moves: MovesView,
    n: int,
)
    requires
        0 <= n <= files.len(),
        carried_texts(ws, files.take(n), dir, moves) is Err,
    ensures
        carried_texts(ws, files, dir, moves) == carried_texts(ws, files.take(n), dir, moves),
    decreases files.len(),
{
    if n == files.len() {
        assert(files.take(n) =~= files);
    } else {
        assert(files.drop_last().take(n) =~= files.take(n));
        lemma_carried_fails(ws, files.drop_last(), dir, moves, n);
    }
}

proof fn lemma_rerooted_fails(
    ws: WsView,
    rewrites: Seq<RewriteView>,
    files: Seq<Seq<char>>,
    dir: Seq<char>,
    moves: MovesView,
    n: int,
)
    requires
        0 <= n <= files.len(),
        all_rerooted(ws, rewrites, files.take(n), dir, moves) is Err,
    ensures
        all_rerooted(ws, rewrites, files, dir, moves) == all_rerooted(
            ws,
            rewrites,
            files.take(n),
            dir,
            moves,
        ),
    decreases files.len(),
{
    if n == files.len() {
        assert(files.take(n) =~= files);
    } else {
        assert(files.drop_last().take(n) =~= files.take(n));
        lemma_rerooted_fails(ws, rewrites, files.drop_last(), dir, moves, n);
    }
}

fn hidden_below(path: &str, dir: &str) -> (r: bool)
    ensures
        r == is_hidden_below(path@, dir@),
{
    let ps = crate::path::path_parts(path);
    let start = crate::path::path_parts(dir);
    proof {
        assert(crate::text::texts(ps@).len() == ps@.len());
        assert(crate::text::texts(start@).len() == start@.len());
    }
    let mut i: usize = start.len();
    while i < ps.len()
        invariant
            crate::text::texts(ps@) == crate::path::parts(path@),
            ps@.len() == crate::path::parts(path@).len(),
            crate::path::parts(dir@).len() <= i,
            forall|j: int|
                crate::path::parts(dir@).len() <= j < i && j < ps@.len() ==> !crate::text::begins(
                    #[trigger] crate::path::parts(path@)[j],
                    "."@,
                ),
        decreases ps@.len() - i,
    {
        proof {
            assert(crate::text::texts(ps@)[i as int] == ps@[i as int]@);
        }
        if crate::link::starts_with(&ps[i], ".") {
            return true;
        }
        i = i + 1;
    }
    false
}

fn unstage(rewrites: Vec<Rewrite>, path: &str) -> (r: Vec<Rewrite>)
    ensures
        crate::change::rewrites_view(r@) == unstaged(
            crate::change::rewrites_view(rewrites@),
            path@,
        ),
{
    let ghost all = crate::change::rewrites_view(rewrites@);
    let mut out: Vec<Rewrite> = Vec::new();
    let mut i: usize = 0;
    proof {
        assert(all.take(0) =~= Seq::empty());
        assert(crate::change::rewrites_view(out@) =~= Seq::empty());
    }
    while i < rewrites.len()
        invariant
            i <= rewrites@.len(),
            all == crate::change::rewrites_view(rewrites@),
            crate::change::rewrites_view(out@) == unstaged(all.take(i as int), path@),
        decreases rewrites@.len() - i,
    {
        let w = &rewrites[i];
        proof {
            assert(all.take(i + 1).drop_last() =~= all.take(i as int));
            assert(all.take(i + 1).last() == w@);
        }
        if !same_text(&w.path, path) {
            let ghost before = crate::change::rewrites_view(out@);
            let kept = Rewrite {
                path: w.path.clone(),
                read: w.read.clone(),
                text: w.text.clone(),
            };
            out.push(kept);
            proof {
                assert(crate::change::rewrites_view(out@) =~= before.push(kept@));
            }
        }
        i = i + 1;
    }
    proof {
        assert(all.take(i as int) =~= all);
    }
    out
}

fn restage(rewrites: Vec<Rewrite>, path: &str, read: String, text: String) -> (r: Vec<Rewrite>)
    ensures
        crate::change::rewrites_view(r@) == restaged(
            crate::change::rewrites_view(rewrites@),
            path@,
            read@,
            text@,
        ),
{
    let mut out = unstage(rewrites, path);
    let ghost before = crate::change::rewrites_view(out@);
    let last = Rewrite { path: path.to_owned(), read, text };
    out.push(last);
    proof {
        assert(crate::change::rewrites_view(out@) =~= before.push(last@));
    }
    out
}

fn staged_base(rewrites: &Vec<Rewrite>, path: &str, raw: &str) -> (r: String)
    ensures
        r@ == staged_or(crate::change::rewrites_view(rewrites@), path@, raw@),
{
    match find_staged(rewrites, path) {
        Some(text) => text,
        None => raw.to_owned(),
    }
}

fn read_rows(value: Option<&Meta>) -> (r: bool)
    ensures
        r == are_rows(crate::written::meta_ref(value)),
{
    broadcast use crate::meta::lemma_list_view;

    match value {
        None => true,
        Some(Meta::Null) => true,
        Some(Meta::List(rows)) => {
            let ghost all = crate::meta::items_view(rows@);
            proof {
                assert(crate::written::meta_ref(value) == Some(MetaView::List(all)));
            }
            let mut i: usize = 0;
            while i < rows.len()
                invariant
                    i <= rows@.len(),
                    all == crate::meta::items_view(rows@),
                    crate::written::meta_ref(value) == Some(MetaView::List(all)),
                    forall|j: int| 0 <= j < i ==> is_row(#[trigger] all[j]),
                decreases rows@.len() - i,
            {
                proof {
                    assert(all[i as int] == rows@[i as int]@);
                }
                let sound = match rows[i].get_text("path") {
                    Some(path) => !crate::path::escapes_root(&path),
                    None => false,
                };
                if !sound {
                    proof {
                        assert(0 <= i < all.len() && !is_row(all[i as int]));
                    }
                    return false;
                }
                i = i + 1;
            }
            true
        },
        Some(_) => false,
    }
}

/// The root of a manifest; none where it is not well formed.
pub fn read_manifest_root(meta: &Meta) -> (r: Option<String>)
    ensures
        opt_text(r) == manifest_root(meta@),
{
    if read_rows(meta.get("files")) {
        meta.get_text("root")
    } else {
        None
    }
}

/// The root of a manifest as it is written when its directory, or the manifest,
/// has moved.
pub fn spell_root(store: &str, root: &str, moves: &Moves) -> (r: String)
    ensures
        r@ == moved_root(store@, root@, moves@),
{
    let covered = moves.landed_or_same(&crate::link::resolve(store, root));
    let dir = crate::path::parent(&moves.landed_or_same(store));
    crate::path::relative(&dir, &covered).concat("/")
}

impl Workspace {
    fn tree_refusal(&self, from: &str, to: &str) -> (r: Option<Error>)
        ensures
            crate::files::fault_opt(r) == tree_fault(self@, from@, to@),
    {
        proof {
            reveal_strlit("");
            assert(from@.len() == 0 ==> from@ =~= ""@);
            assert(to@.len() == 0 ==> to@ =~= ""@);
        }
        if same_text(from, "") {
            Some(Fault::RootMove)
        } else if !self.is_taken(from) {
            Some(Fault::NotFound(from.to_owned()))
        } else if self.files.holds(from) {
            Some(Fault::NotADirectory(from.to_owned()))
        } else if same_text(to, "") || crate::path::lies_within(to, from) {
            Some(Fault::IntoItself(from.to_owned(), to.to_owned()))
        } else if self.is_taken(to) {
            Some(Fault::AlreadyExists(to.to_owned()))
        } else {
            None
        }
    }

    fn maintains(&self, path: &str, dir: &str) -> (r: bool)
        ensures
            r == is_maintained(self@, path@, dir@),
    {
        if hidden_below(path, dir) || crate::document::is_opaque_payload(path) {
            return false;
        }
        let mut i: usize = 0;
        while i < self.parked.len()
            invariant
                i <= self.parked@.len(),
                self@.parked == crate::text::texts(self.parked@),
                self@.parked.len() == self.parked@.len(),
                !is_hidden_below(path@, dir@),
                !crate::document::is_opaque(path@),
                forall|j: int|
                    0 <= j < i ==> !crate::path::is_within(path@, #[trigger] self@.parked[j]),
            decreases self.parked@.len() - i,
        {
            proof {
                assert(self@.parked[i as int] == self.parked@[i as int]@);
            }
            if crate::path::lies_within(path, &self.parked[i]) {
                return false;
            }
            i = i + 1;
        }
        true
    }

    fn tree_ids_refusal(&self, files: &Vec<String>, moves: &Moves) -> (r: Option<Error>)
        ensures
            crate::files::fault_opt(r) == tree_ids_fault(
                self@,
                crate::text::texts(files@),
                moves@,
            ),
    {
        let ghost all = crate::text::texts(files@);
        let mut i: usize = 0;
        proof {
            assert(all.take(0) =~= Seq::empty());
        }
        while i < files.len()
            invariant
                i <= files@.len(),
                all == crate::text::texts(files@),
                tree_ids_fault(self@, all.take(i as int), moves@) is None,
            decreases files@.len() - i,
        {
            proof {
                assert(all.take(i + 1).drop_last() =~= all.take(i as int));
                assert(all.take(i + 1).last() == files@[i as int]@);
            }
            match self.registry.id_for_path(&files[i]) {
                Some(id) => match self.move_conflict(&id, &moves.landed_or_same(&files[i])) {
                    Some(e) => {
                        proof {
                            lemma_tree_ids_fail(self@, all, moves@, i + 1);
                        }
                        return Some(e);
                    },
                    None => {},
                },
                None => {},
            }
            i = i + 1;
        }
        proof {
            assert(all.take(i as int) =~= all);
        }
        None
    }

    /// The text of a document that moves with its directory.
    pub fn carry_text(&self, path: &str, text: &str, doc: &Document, moves: &Moves) -> (r: Result<
        String,
        Error,
    >)
        ensures
            crate::workspace::told(r) == carried_text(self@, path@, text@, doc@, moves@),
    {
        let to = moves.landed_or_same(path);
        match self.rerelativize(text, doc, path, &to, moves) {
            Err(e) => Err(e),
            Ok(out) => Ok(
                crate::maintain::rerelativize_body_links(
                    &out,
                    &doc.body,
                    path,
                    &to,
                    moves,
                    self.settings.references.path_style,
                ),
            ),
        }
    }

    fn carry_texts(&self, files: &Vec<String>, dir: &str, moves: &Moves) -> (r: Result<
        Vec<Rewrite>,
        Error,
    >)
        ensures
            crate::field::told_rewrites(r) == carried_texts(
                self@,
                crate::text::texts(files@),
                dir@,
                moves@,
            ),
    {
        let ghost all = crate::text::texts(files@);
        let mut out: Vec<Rewrite> = Vec::new();
        let mut i: usize = 0;
        proof {
            assert(all.take(0) =~= Seq::empty());
            assert(crate::change::rewrites_view(out@) =~= Seq::empty());
        }
        while i < files.len()
            invariant
                i <= files@.len(),
                all == crate::text::texts(files@),
                carried_texts(self@, all.take(i as int), dir@, moves@) matches Ok(v) && v
                    == crate::change::rewrites_view(out@),
            decreases files@.len() - i,
        {
            let path = &files[i];
            proof {
                assert(all.take(i + 1).drop_last() =~= all.take(i as int));
                assert(all.take(i + 1).last() == path@);
            }
            if self.maintains(path, dir) {
                match self.load(path) {
                    Err(_) => {},
                    Ok((text, doc)) => match self.carry_text(path, &text, &doc, moves) {
                        Err(e) => {
                            proof {
                                lemma_carried_fails(self@, all, dir@, moves@, i + 1);
                            }
                            return Err(e);
                        },
                        Ok(new) => if !same_text(&new, &text) {
                            let ghost before = crate::change::rewrites_view(out@);
                            let rewrite = Rewrite { path: path.clone(), read: text, text: new };
                            out.push(rewrite);
                            proof {
                                assert(crate::change::rewrites_view(out@) =~= before.push(
                                    rewrite@,
                                ));
                            }
                        },
                    },
                }
            }
            i = i + 1;
        }
        proof {
            assert(all.take(i as int) =~= all);
        }
        Ok(out)
    }

    fn repin(&self, rewrites: Vec<Rewrite>, node: &str, manifest: &str) -> (r: Result<
        Vec<Rewrite>,
        Error,
    >)
        ensures
            crate::field::told_rewrites(r) == repinned(
                self@,
                crate::change::rewrites_view(rewrites@),
                node@,
                manifest@,
            ),
    {
        let (raw, doc) = match self.load(node) {
            Ok(read) => read,
            Err(e) => {
                return Err(e);
            },
        };
        let carrier = match doc.carrier {
            Some(carrier) => carrier,
            None => {
                return Ok(rewrites);
            },
        };
        let base = staged_base(&rewrites, node, &raw);
        let sum = Meta::Text(crate::fixity::digest(manifest.as_bytes()));
        let key = crate::document::key_path("content_hash");
        match crate::document::set_value(&base, carrier, &key, &sum) {
            Some(out) => Ok(restage(rewrites, node, raw, out)),
            None => Err(Fault::Metadata(node.to_owned())),
        }
    }

    /// Respells the root of a manifest after a move, and puts its checksum in its
    /// node where that holds one. A manifest that is not well formed is left
    /// alone.
    pub fn plan_manifest_root(
        &self,
        rewrites: Vec<Rewrite>,
        node: &str,
        store: &str,
        pinned: bool,
        moves: &Moves,
    ) -> (r: Result<Vec<Rewrite>, Error>)
        ensures
            crate::field::told_rewrites(r) == rerooted(
                self@,
                crate::change::rewrites_view(rewrites@),
                node@,
                store@,
                pinned,
                moves@,
            ),
    {
        let (raw, doc) = match self.load(store) {
            Ok(read) => read,
            Err(e) => {
                return Err(e);
            },
        };
        let root = match read_manifest_root(&doc.meta) {
            Some(root) => root,
            None => {
                return Ok(rewrites);
            },
        };
        let spelled = spell_root(store, &root, moves);
        let base = staged_base(&rewrites, store, &raw);
        let out = match crate::document::set_in_text(
            &base,
            doc.carrier,
            "root",
            &Meta::Text(spelled),
        ) {
            Some(out) => out,
            None => {
                return Err(Fault::Metadata(store.to_owned()));
            },
        };
        if same_text(&out, &base) {
            return Ok(rewrites);
        }
        let planned = restage(rewrites, store, raw, out.clone());
        if pinned {
            self.repin(planned, node, &out)
        } else {
            Ok(planned)
        }
    }

    fn plan_manifests(&self, rewrites: Vec<Rewrite>, files: &Vec<String>, dir: &str, moves: &Moves) -> (r:
        Result<Vec<Rewrite>, Error>)
        ensures
            crate::field::told_rewrites(r) == all_rerooted(
                self@,
                crate::change::rewrites_view(rewrites@),
                crate::text::texts(files@),
                dir@,
                moves@,
            ),
    {
        let ghost all = crate::text::texts(files@);
        let ghost start = crate::change::rewrites_view(rewrites@);
        let mut out = rewrites;
        let mut i: usize = 0;
        proof {
            assert(all.take(0) =~= Seq::empty());
        }
        while i < files.len()
            invariant
                i <= files@.len(),
                all == crate::text::texts(files@),
                start == crate::change::rewrites_view(rewrites@),
                all_rerooted(self@, start, all.take(i as int), dir@, moves@) matches Ok(v) && v
                    == crate::change::rewrites_view(out@),
            decreases files@.len() - i,
        {
            let path = &files[i];
            proof {
                assert(all.take(i + 1).drop_last() =~= all.take(i as int));
                assert(all.take(i + 1).last() == path@);
            }
            if self.maintains(path, dir) {
                match self.load(path) {
                    Err(_) => {},
                    Ok((_, doc)) => match crate::maintain::manifest_target(&doc, path) {
                        None => {},
                        Some(store) => {
                            let pinned = doc.meta.get("content_hash").is_some();
                            match self.plan_manifest_root(out, path, &store, pinned, moves) {
                                Ok(v) => {
                                    out = v;
                                },
                                Err(e) => {
                                    proof {
                                        lemma_rerooted_fails(
                                            self@,
                                            start,
                                            all,
                                            dir@,
                                            moves@,
                                            i + 1,
                                        );
                                    }
                                    return Err(e);
                                },
                            }
                        },
                    },
                }
            }
            i = i + 1;
        }
        proof {
            assert(all.take(i as int) =~= all);
        }
        Ok(out)
    }

    fn stage_renames(&self, cs: &mut ChangeSet, files: &Vec<String>, moves: &Moves)
        ensures
            final(cs)@ == old(cs)@.with_all(tree_renames(crate::text::texts(files@), moves@)),
    {
        let ghost all = crate::text::texts(files@);
        let ghost start = cs@;
        let mut i: usize = 0;
        proof {
            assert(all.take(0) =~= Seq::empty());
            assert(start.with_all(Seq::empty()).ops =~= start.ops);
        }
        while i < files.len()
            invariant
                i <= files@.len(),
                all == crate::text::texts(files@),
                cs@ == start.with_all(tree_renames(all.take(i as int), moves@)),
            decreases files@.len() - i,
        {
            proof {
                assert(all.take(i + 1).drop_last() =~= all.take(i as int));
                assert(all.take(i + 1).last() == files@[i as int]@);
            }
            let to = moves.landed_or_same(&files[i]);
            cs.expect_absent(&to);
            cs.rename(&files[i], &to);
            proof {
                assert(cs@.ops =~= start.with_all(tree_renames(all.take(i + 1), moves@)).ops);
            }
            i = i + 1;
        }
        proof {
            assert(all.take(i as int) =~= all);
        }
    }

    fn stage_landings(&self, cs: &mut ChangeSet, rewrites: &Vec<Rewrite>, moves: &Moves)
        ensures
            final(cs)@ == old(cs)@.with_all(
                landing_ops(crate::change::rewrites_view(rewrites@), moves@),
            ),
    {
        let ghost all = crate::change::rewrites_view(rewrites@);
        let ghost start = cs@;
        let mut i: usize = 0;
        proof {
            assert(all.take(0) =~= Seq::empty());
            assert(start.with_all(Seq::empty()).ops =~= start.ops);
        }
        while i < rewrites.len()
            invariant
                i <= rewrites@.len(),
                all == crate::change::rewrites_view(rewrites@),
                cs@ == start.with_all(landing_ops(all.take(i as int), moves@)),
            decreases rewrites@.len() - i,
        {
            let w = &rewrites[i];
            proof {
                assert(all.take(i + 1).drop_last() =~= all.take(i as int));
                assert(all.take(i + 1).last() == w@);
            }
            cs.expect(&w.path, &w.read);
            cs.write(&moves.landed_or_same(&w.path), &w.text);
            proof {
                assert(cs@.ops =~= start.with_all(landing_ops(all.take(i + 1), moves@)).ops);
            }
            i = i + 1;
        }
        proof {
            assert(all.take(i as int) =~= all);
        }
    }

    fn stage_ids(&self, cs: &mut ChangeSet, files: &Vec<String>, moves: &Moves)
        requires
            old(cs)@.ids == self@.ids,
        ensures
            final(cs)@ == old(cs)@.with_ids(
                tree_ids(self@, crate::text::texts(files@), moves@),
            ),
    {
        let ghost all = crate::text::texts(files@);
        let ghost start = cs@;
        let mut i: usize = 0;
        proof {
            assert(all.take(0) =~= Seq::empty());
        }
        while i < files.len()
            invariant
                i <= files@.len(),
                all == crate::text::texts(files@),
                cs@ == start.with_ids(tree_ids(self@, all.take(i as int), moves@)),
            decreases files@.len() - i,
        {
            proof {
                assert(all.take(i + 1).drop_last() =~= all.take(i as int));
                assert(all.take(i + 1).last() == files@[i as int]@);
            }
            match self.registry.id_for_path(&files[i]) {
                Some(id) => {
                    cs.bind(&id, &moves.landed_or_same(&files[i]));
                },
                None => {},
            }
            i = i + 1;
        }
        proof {
            assert(all.take(i as int) =~= all);
        }
    }

    /// The changes that move a directory.
    pub fn plan_move_tree(&self, from: &str, to: &str) -> (r: Result<ChangeSet, Error>)
        ensures
            match r {
                Ok(cs) => tree_move(self@, from@, to@) matches Ok((c, _)) && c == cs@,
                Err(e) => tree_move(self@, from@, to@) matches Err(f) && f == crate::error::fault(
                    e,
                ),
            },
    {
        let from = crate::path::normalize(from);
        let to = crate::path::normalize(to);
        match self.tree_refusal(&from, &to) {
            Some(e) => {
                return Err(e);
            },
            None => {},
        }
        let files = self.files_under(&from);
        let anchor = self.anchor(&from);
        let dir = from.clone();
        let moves = Moves::Tree(from, to);
        match self.tree_ids_refusal(&files, &moves) {
            Some(e) => {
                return Err(e);
            },
            None => {},
        }
        let inbound = match self.collect_inbound_rewrites(&anchor, &moves, Movers::Skip) {
            Ok(inbound) => inbound,
            Err(e) => {
                return Err(e);
            },
        };
        let carried = match self.carry_texts(&files, &dir, &moves) {
            Ok(carried) => carried,
            Err(e) => {
                return Err(e);
            },
        };
        let planned = match self.plan_manifests(carried, &files, &dir, &moves) {
            Ok(planned) => planned,
            Err(e) => {
                return Err(e);
            },
        };
        let mut cs = self.change();
        self.stage_renames(&mut cs, &files, &moves);
        self.stage_landings(&mut cs, &planned, &moves);
        cs.rewrite(&inbound);
        self.stage_ids(&mut cs, &files, &moves);
        cs.go_along(&moves);
        Ok(cs)
    }

    /// Moves a directory with everything in it. Every path reference to a file in
    /// it follows, those of its documents are recomputed, the roots of its
    /// manifests are respelled, and identifiers go along. A refusal changes
    /// nothing.
    pub fn move_tree(&mut self, from: &str, to: &str) -> (r: Result<(), Error>)
        ensures
            ({
                let done = crate::change::carried_out(
                    old(self)@,
                    tree_move(old(self)@, from@, to@),
                );
                match r {
                    Ok(_) => done matches Ok((after, _)) && after == final(self)@,
                    Err(e) => done matches Err(f) && f == crate::error::fault(e) && *final(self)
                        == *old(self),
                }
            }),
    {
        match self.plan_move_tree(from, to) {
            Ok(cs) => self.commit(cs),
            Err(e) => Err(e),
        }
    }
}

/// Files of which no two are at the same path, all inside the workspace.
pub open spec fn are_kept(files: crate::files::FileSeq) -> bool {
    &&& forall|i: int, j: int|
        0 <= i < j < files.len() ==> (#[trigger] files[i]).0 != (#[trigger] files[j]).0
    &&& forall|i: int| 0 <= i < files.len() ==> crate::path::is_inside((#[trigger] files[i]).0)
}

proof fn lemma_paths_within(files: crate::files::FileSeq, dir: Seq<char>)
    requires
        are_kept(files),
    ensures
        paths_within(files, dir).no_duplicates(),
        forall|i: int|
            0 <= i < paths_within(files, dir).len() ==> crate::path::is_inside(
                #[trigger] paths_within(files, dir)[i],
            ) && crate::path::is_within(paths_within(files, dir)[i], dir) && (exists|j: int|
                0 <= j < files.len() && (#[trigger] files[j]).0 == paths_within(files, dir)[i]),
        forall|j: int|
            0 <= j < files.len() && crate::path::is_within((#[trigger] files[j]).0, dir)
                ==> paths_within(files, dir).contains(files[j].0),
    decreases files.len(),
{
    if files.len() > 0 {
        let rest = files.drop_last();
        let n = files.len() - 1;
        assert(are_kept(rest)) by {
            assert forall|i: int, j: int| 0 <= i < j < rest.len() implies (#[trigger] rest[i]).0
                != (#[trigger] rest[j]).0 by {
                assert(files[i].0 != files[j].0);
            }
            assert forall|i: int| 0 <= i < rest.len() implies crate::path::is_inside(
                (#[trigger] rest[i]).0,
            ) by {
                assert(crate::path::is_inside(files[i].0));
            }
        }
        lemma_paths_within(rest, dir);
        let before = paths_within(rest, dir);
        let after = paths_within(files, dir);
        assert forall|i: int| 0 <= i < before.len() implies (exists|j: int|
            0 <= j < rest.len() && (#[trigger] files[j]).0 == before[i]) && #[trigger] before[i]
            != files[n].0 by {
            let j = choose|j: int| 0 <= j < rest.len() && (#[trigger] rest[j]).0 == before[i];
            assert(files[j].0 == before[i]);
            assert(files[j].0 != files[n].0);
        }
        if crate::path::is_within(files[n].0, dir) {
            assert(after =~= before.push(files[n].0));
            assert forall|i: int, j: int|
                0 <= i < after.len() && 0 <= j < after.len() && i != j implies after[i]
                != after[j] by {
                if i < before.len() && j < before.len() {
                    assert(before[i] != before[j]);
                } else if i < before.len() {
                    assert(before[i] != files[n].0);
                } else {
                    assert(before[j] != files[n].0);
                }
            }
        }
        assert forall|i: int| 0 <= i < after.len() implies crate::path::is_inside(
            #[trigger] after[i],
        ) && crate::path::is_within(after[i], dir) && (exists|j: int|
            0 <= j < files.len() && (#[trigger] files[j]).0 == after[i]) by {
            if i < before.len() {
                assert(after[i] == before[i]);
            } else {
                assert(files[n].0 == after[i]);
            }
        }
        assert forall|j: int|
            0 <= j < files.len() && crate::path::is_within(
                (#[trigger] files[j]).0,
                dir,
            ) implies after.contains(files[j].0) by {
            if j < n {
                assert(rest[j] == files[j]);
                let i = choose|i: int| 0 <= i < before.len() && before[i] == files[j].0;
                assert(after[i] == files[j].0);
            } else {
                assert(after[before.len() as int] == files[j].0);
            }
        }
    }
}

/// Paths whose destinations are apart from each other and from all of them.
pub open spec fn moves_freely(paths: Seq<Seq<char>>, moves: MovesView) -> bool {
    &&& paths.no_duplicates()
    &&& forall|i: int, j: int|
        0 <= i < paths.len() && 0 <= j < paths.len() ==> landing_or_same(
            moves,
            #[trigger] paths[i],
        ) != #[trigger] paths[j]
    &&& forall|i: int, j: int|
        0 <= i < j < paths.len() ==> landing_or_same(moves, #[trigger] paths[i])
            != landing_or_same(moves, #[trigger] paths[j])
}

proof fn lemma_tree_renames(
    files: crate::files::FileSeq,
    paths: Seq<Seq<char>>,
    moves: MovesView,
    n: int,
)
    requires
        moves_freely(paths, moves),
        0 <= n <= paths.len(),
        crate::files::changed_all(files, tree_renames(paths.take(n), moves)) is Ok,
    ensures
        crate::files::changed_all(files, tree_renames(paths.take(n), moves)) matches Ok(after) && (
        forall|i: int|
            0 <= i < n ==> crate::files::lookup(
                after,
                landing_or_same(moves, #[trigger] paths[i]),
            ) == crate::files::lookup(files, paths[i]) && crate::files::lookup(after, paths[i])
                is None) && (forall|i: int|
            n <= i < paths.len() ==> crate::files::lookup(after, #[trigger] paths[i])
                == crate::files::lookup(files, paths[i])),
    decreases n,
{
    if n == 0 {
        assert(paths.take(0) =~= Seq::empty());
    } else {
        assert(paths.take(n).drop_last() =~= paths.take(n - 1));
        assert(paths.take(n).last() == paths[n - 1]);
        let p = paths[n - 1];
        let to = landing_or_same(moves, p);
        let ops = tree_renames(paths.take(n - 1), moves);
        crate::landing::lemma_changed_push(
            files,
            ops,
            crate::files::OpView::ExpectAbsent(to),
        );
        crate::landing::lemma_changed_push(
            files,
            ops.push(crate::files::OpView::ExpectAbsent(to)),
            crate::files::OpView::Rename(p, to),
        );
        lemma_tree_renames(files, paths, moves, n - 1);
        let before = crate::files::changed_all(files, ops)->Ok_0;
        let after = crate::files::changed_all(files, tree_renames(paths.take(n), moves))->Ok_0;
        let d = crate::files::lookup(before, p)->Some_0;
        let gone = crate::files::without(before, p);
        assert(crate::files::lookup(before, p) == crate::files::lookup(files, p));
        assert(after == crate::files::stored(gone, to, d));
        crate::files::law_without(before, p, p);
        crate::files::law_stored(gone, to, d, p);
        assert(landing_or_same(moves, paths[n - 1]) != paths[n - 1]);
        assert forall|i: int| 0 <= i < n implies crate::files::lookup(
            after,
            landing_or_same(moves, #[trigger] paths[i]),
        ) == crate::files::lookup(files, paths[i]) && crate::files::lookup(after, paths[i])
            is None by {
            if i < n - 1 {
                let there = landing_or_same(moves, paths[i]);
                assert(there != paths[n - 1]);
                assert(there != landing_or_same(moves, paths[n - 1]));
                crate::files::law_without(before, p, there);
                crate::files::law_stored(gone, to, d, there);
                assert(paths[i] != paths[n - 1]);
                assert(landing_or_same(moves, paths[n - 1]) != paths[i]);
                crate::files::law_without(before, p, paths[i]);
                crate::files::law_stored(gone, to, d, paths[i]);
            }
        }
        assert forall|i: int| n <= i < paths.len() implies crate::files::lookup(
            after,
            #[trigger] paths[i],
        ) == crate::files::lookup(files, paths[i]) by {
            assert(paths[i] != paths[n - 1]);
            assert(landing_or_same(moves, paths[n - 1]) != paths[i]);
            crate::files::law_without(before, p, paths[i]);
            crate::files::law_stored(gone, to, d, paths[i]);
        }
    }
}

proof fn lemma_tree_free(ws: WsView, from: Seq<char>, to: Seq<char>)
    requires
        are_kept(ws.files),
        crate::path::is_inside(from),
        crate::path::is_inside(to),
        tree_fault(ws, from, to) is None,
    ensures
        moves_freely(paths_within(ws.files, from), MovesView::Tree(from, to)),
{
    lemma_paths_within(ws.files, from);
    let paths = paths_within(ws.files, from);
    let moves = MovesView::Tree(from, to);
    assert forall|i: int, j: int| 0 <= i < paths.len() && 0 <= j < paths.len() implies landing_or_same(
        moves,
        #[trigger] paths[i],
    ) != #[trigger] paths[j] by {
        crate::path::law_rebased(paths[i], from, to);
        let there = landing_or_same(moves, paths[i]);
        if there == paths[j] {
            let k = choose|k: int|
                0 <= k < ws.files.len() && (#[trigger] ws.files[k]).0 == paths[j];
            assert(crate::path::is_within(ws.files[k].0, to));
            assert(crate::files::occupied(ws.files, to));
        }
    }
    assert forall|i: int, j: int| 0 <= i < j < paths.len() implies landing_or_same(
        moves,
        #[trigger] paths[i],
    ) != landing_or_same(moves, #[trigger] paths[j]) by {
        assert(paths[i] != paths[j]);
        crate::maintain::law_tree_moves_apart(from, to, paths[i], paths[j]);
    }
}

/// Every file under a directory that moves arrives at its place in the new one, as
/// it was unless it is rewritten there, and is gone from the old one.
pub proof fn law_tree_lands(
    ws: WsView,
    from: Seq<char>,
    to: Seq<char>,
    after: WsView,
    path: Seq<char>,
)
    requires
        are_kept(ws.files),
        crate::path::is_inside(from),
        crate::path::is_inside(to),
        tree_move(ws, from, to) matches Ok((cs, _)) && crate::change::landed(ws, cs) matches Ok(w)
            && w == after,
        paths_within(ws.files, from).contains(path),
    ensures
        ({
            let moves = MovesView::Tree(from, to);
            let cs = (tree_move(ws, from, to)->Ok_0).0;
            let n = tree_renames(paths_within(ws.files, from), moves).len() as int;
            let there = landing_or_same(moves, path);
            &&& crate::path::is_within(there, to)
            &&& !crate::landing::any_touches(cs.ops.skip(n), there) ==> crate::files::lookup(
                after.files,
                there,
            ) == crate::files::lookup(ws.files, path)
            &&& !crate::landing::any_touches(cs.ops.skip(n), path) ==> crate::files::lookup(
                after.files,
                path,
            ) is None
        }),
{
    let moves = MovesView::Tree(from, to);
    let paths = paths_within(ws.files, from);
    let cs = (tree_move(ws, from, to)->Ok_0).0;
    let renames = tree_renames(paths, moves);
    let n = renames.len() as int;
    let rest = cs.ops.skip(n);
    lemma_tree_free(ws, from, to);
    lemma_paths_within(ws.files, from);
    assert(cs.ops =~= renames + rest);
    crate::landing::lemma_changed_add(ws.files, renames, rest);
    assert(paths.take(paths.len() as int) =~= paths);
    lemma_tree_renames(ws.files, paths, moves, paths.len() as int);
    let moved = crate::files::changed_all(ws.files, renames)->Ok_0;
    let i = choose|i: int| 0 <= i < paths.len() && paths[i] == path;
    let there = landing_or_same(moves, paths[i]);
    crate::path::law_rebased(paths[i], from, to);
    if !crate::landing::any_touches(rest, there) {
        crate::landing::law_untouched(moved, rest, there);
    }
    if !crate::landing::any_touches(rest, path) {
        crate::landing::law_untouched(moved, rest, path);
    }
}

proof fn lemma_landing_writes(rewrites: Seq<RewriteView>, moves: MovesView)
    ensures
        forall|i: int|
            0 <= i < landing_ops(rewrites, moves).len() ==> !((#[trigger] landing_ops(
                rewrites,
                moves,
            )[i]) is Remove) && !(landing_ops(rewrites, moves)[i] is Rename),
    decreases rewrites.len(),
{
    if rewrites.len() > 0 {
        lemma_landing_writes(rewrites.drop_last(), moves);
        let before = landing_ops(rewrites.drop_last(), moves);
        let all = landing_ops(rewrites, moves);
        assert forall|i: int| 0 <= i < all.len() implies !((#[trigger] all[i]) is Remove) && !(
        all[i] is Rename) by {
            if i < before.len() {
                assert(all[i] == before[i]);
            }
        }
    }
}

proof fn lemma_renames_elsewhere(paths: Seq<Seq<char>>, moves: MovesView, q: Seq<char>)
    requires
        forall|i: int|
            0 <= i < paths.len() ==> #[trigger] paths[i] != q && landing_or_same(moves, paths[i])
                != q,
    ensures
        !crate::landing::any_touches(tree_renames(paths, moves), q),
    decreases paths.len(),
{
    if paths.len() > 0 {
        let rest = paths.drop_last();
        assert forall|i: int| 0 <= i < rest.len() implies #[trigger] rest[i] != q
            && landing_or_same(moves, rest[i]) != q by {
            assert(paths[i] != q);
        }
        lemma_renames_elsewhere(rest, moves, q);
        let ops = tree_renames(paths, moves);
        let before = tree_renames(rest, moves);
        assert(paths[paths.len() - 1] != q);
        if crate::landing::any_touches(ops, q) {
            let i = choose|i: int|
                0 <= i < ops.len() && crate::landing::touches(#[trigger] ops[i], q);
            if i < before.len() {
                assert(before[i] == ops[i]);
            }
        }
    }
}

/// Everything that was there when a directory moved is there, or where it has gone.
pub proof fn law_tree_targets_stand(
    ws: WsView,
    from: Seq<char>,
    to: Seq<char>,
    after: WsView,
    j: int,
)
    requires
        are_kept(ws.files),
        crate::path::is_inside(from),
        crate::path::is_inside(to),
        tree_move(ws, from, to) matches Ok((cs, _)) && crate::change::landed(ws, cs) matches Ok(w)
            && w == after,
        0 <= j < ws.files.len(),
        crate::files::lookup(ws.files, ws.files[j].0) is Some,
    ensures
        crate::files::lookup(
            after.files,
            landing_or_same(MovesView::Tree(from, to), ws.files[j].0),
        ) is Some,
{
    let moves = MovesView::Tree(from, to);
    let path = ws.files[j].0;
    let paths = paths_within(ws.files, from);
    let cs = (tree_move(ws, from, to)->Ok_0).0;
    let renames = tree_renames(paths, moves);
    let carried = carried_texts(ws, paths, from, moves)->Ok_0;
    let planned = all_rerooted(ws, carried, paths, from, moves)->Ok_0;
    let inbound = crate::field::inbound_rewrites(
        ws,
        crate::walk::anchor_of(ws, from),
        moves,
        Movers::Skip,
    )->Ok_0;
    let writes = landing_ops(planned, moves) + crate::change::rewrite_ops(inbound);
    assert(cs.ops =~= renames + writes);
    lemma_tree_free(ws, from, to);
    lemma_paths_within(ws.files, from);
    crate::landing::lemma_changed_add(ws.files, renames, writes);
    assert(paths.take(paths.len() as int) =~= paths);
    lemma_tree_renames(ws.files, paths, moves, paths.len() as int);
    let moved = crate::files::changed_all(ws.files, renames)->Ok_0;
    let there = landing_or_same(moves, path);
    if crate::path::is_within(path, from) {
        assert(paths.contains(path));
        let i = choose|i: int| 0 <= i < paths.len() && paths[i] == path;
        assert(crate::files::lookup(moved, landing_or_same(moves, paths[i])) is Some);
    } else {
        assert forall|i: int| 0 <= i < paths.len() implies #[trigger] paths[i] != path
            && landing_or_same(moves, paths[i]) != path by {
            crate::path::law_rebased(paths[i], from, to);
            if landing_or_same(moves, paths[i]) == path {
                assert(crate::path::is_within(ws.files[j].0, to));
                assert(crate::files::occupied(ws.files, to));
            }
        }
        lemma_renames_elsewhere(paths, moves, path);
        crate::landing::law_untouched(ws.files, renames, path);
    }
    lemma_landing_writes(planned, moves);
    crate::landing::lemma_rewrites_write(inbound);
    assert forall|i: int| 0 <= i < writes.len() implies !((#[trigger] writes[i]) is Remove) && !(
    writes[i] is Rename) by {
        let first = landing_ops(planned, moves);
        if i < first.len() {
            assert(writes[i] == first[i]);
        } else {
            assert(writes[i] == crate::change::rewrite_ops(inbound)[i - first.len()]);
        }
    }
    crate::landing::law_writes_keep(moved, writes, there);
}

/// A workspace stays whole when a directory moves: a path reference that reached a
/// file, in a document outside the directory that a survey of the workspace covers,
/// reaches that file, or where it has gone, as the document reads after the move;
/// and there is a file there. The document reads as its edits describe, and is no
/// store that the move rewrites for what it keeps of the directory.
pub proof fn law_tree_keeps_reading(
    ws: WsView,
    from: Seq<char>,
    to: Seq<char>,
    after: WsView,
    inverse: Seq<char>,
    source: Seq<char>,
    i: int,
    k: int,
    j: int,
)
    requires
        are_kept(ws.files),
        crate::path::is_inside(from),
        crate::path::is_inside(to),
        tree_move(ws, from, to) matches Ok((cs, _)) && crate::change::landed(ws, cs) matches Ok(w)
            && w == after,
        crate::follow::distinct_names(ws.relations.relations),
        crate::workspace::spanning_names(ws.relations) matches Ok((_, v)) && v == inverse,
        0 <= i < ws.relations.relations.len(),
        0 <= j < ws.files.len(),
        ({
            let moves = MovesView::Tree(from, to);
            let moved = paths_within(ws.files, from);
            let anchor = crate::walk::anchor_of(ws, from);
            let read = crate::workspace::loaded(ws.files, source)->Ok_0;
            let out = crate::field::followed(ws, source, read, moved, moves)->Ok_0;
            let name = ws.relations.relations[i].name;
            let raws = crate::meta::links_at(read.1.meta, name);
            let carried = carried_texts(ws, moved, from, moves)->Ok_0;
            let planned = all_rerooted(ws, carried, moved, from, moves)->Ok_0;
            &&& crate::walk::surveyed(ws, crate::walk::root_of(ws, anchor, inverse)).contains(
                source,
            )
            &&& !crate::path::is_within(source, from)
            &&& !crate::landing::any_touches(landing_ops(planned, moves), source)
            &&& out.1.meta == crate::follow::followed_meta(ws, source, read.1.meta, moved, moves)
            &&& 0 <= k < raws.len()
            &&& crate::landing::can_follow(ws, source, name, raws[k], moved, moves)
            &&& ws.files[j].0 == crate::landing::place_of(source, raws[k])
            &&& crate::files::lookup(ws.files, ws.files[j].0) is Some
        }),
    ensures
        ({
            let name = ws.relations.relations[i].name;
            let read = crate::workspace::loaded(ws.files, source)->Ok_0;
            let raws = crate::meta::links_at(read.1.meta, name);
            let gone = landing_or_same(
                MovesView::Tree(from, to),
                crate::landing::place_of(source, raws[k]),
            );
            crate::workspace::loaded(after.files, source) matches Ok((_, now)) && k
                < crate::meta::links_at(now.meta, name).len() && crate::follow::reaches(
                crate::meta::links_at(now.meta, name)[k],
                raws[k],
                source,
                gone,
            ) && crate::files::lookup(after.files, gone) is Some
        }),
{
    let moves = MovesView::Tree(from, to);
    let anchor = crate::walk::anchor_of(ws, from);
    let paths = paths_within(ws.files, from);
    let cs = (tree_move(ws, from, to)->Ok_0).0;
    let renames = tree_renames(paths, moves);
    let carried = carried_texts(ws, paths, from, moves)->Ok_0;
    let planned = all_rerooted(ws, carried, paths, from, moves)->Ok_0;
    let inbound = crate::field::inbound_rewrites(ws, anchor, moves, Movers::Skip)->Ok_0;
    let landings = landing_ops(planned, moves);
    let writes = crate::change::rewrite_ops(inbound);
    assert(cs.ops =~= renames + landings + writes);
    crate::landing::lemma_changed_add(ws.files, renames + landings, writes);
    crate::landing::lemma_changed_add(ws.files, renames, landings);
    let moved = crate::files::changed_all(ws.files, renames)->Ok_0;
    let landed = crate::files::changed_all(moved, landings)->Ok_0;
    lemma_tree_free(ws, from, to);
    lemma_paths_within(ws.files, from);
    crate::landing::law_survey_follows(ws, anchor, inverse, moves, Movers::Skip, source);
    crate::landing::law_file_is_taken(ws.files, source);
    assert forall|n: int| 0 <= n < paths.len() implies #[trigger] paths[n] != source
        && landing_or_same(moves, paths[n]) != source by {
        crate::path::law_rebased(paths[n], from, to);
        let there = landing_or_same(moves, paths[n]);
        if there == source {
            let m = crate::files::lemma_lookup_at(ws.files, source);
            assert(crate::path::is_within(ws.files[m].0, to));
            assert(crate::files::occupied(ws.files, to));
        }
    }
    lemma_renames_elsewhere(paths, moves, source);
    crate::landing::law_untouched(ws.files, renames, source);
    crate::landing::law_untouched(moved, landings, source);
    crate::landing::law_inbound_rewrites(ws, anchor, moves, Movers::Skip);
    crate::landing::law_rewrites_land(landed, inbound);
    assert(crate::follow::settles(paths, moves)) by {
        assert forall|n: int| 0 <= n < paths.len() implies (crate::maintain::landing(
            moves,
            #[trigger] paths[n],
        )
            matches Some(there) ==> !paths.contains(there)) by {
            let there = landing_or_same(moves, paths[n]);
            if paths.contains(there) {
                let m = choose|m: int| 0 <= m < paths.len() && paths[m] == there;
                assert(landing_or_same(moves, paths[n]) != paths[m]);
            }
        }
    }
    crate::landing::law_follows_reading(
        ws,
        anchor,
        inverse,
        moves,
        Movers::Skip,
        source,
        after.files,
        i,
        k,
    );
    law_tree_targets_stand(ws, from, to, after, j);
}

/// Rewrites of files that are there, each once.
pub open spec fn are_sound(ws: WsView, rewrites: Seq<RewriteView>) -> bool {
    &&& crate::landing::distinct_paths(rewrites)
    &&& forall|i: int|
        0 <= i < rewrites.len() ==> crate::files::lookup(ws.files, (#[trigger] rewrites[i]).path)
            is Some
}

proof fn lemma_unstaged(ws: WsView, rewrites: Seq<RewriteView>, path: Seq<char>)
    requires
        are_sound(ws, rewrites),
    ensures
        are_sound(ws, unstaged(rewrites, path)),
        forall|i: int|
            0 <= i < unstaged(rewrites, path).len() ==> (#[trigger] unstaged(rewrites, path)[i]).path
                != path && rewrites.contains(unstaged(rewrites, path)[i]),
    decreases rewrites.len(),
{
    if rewrites.len() > 0 {
        let rest = rewrites.drop_last();
        let n = rewrites.len() - 1;
        assert(are_sound(ws, rest)) by {
            assert forall|i: int, j: int| 0 <= i < j < rest.len() implies (#[trigger] rest[i]).path
                != (#[trigger] rest[j]).path by {
                assert(rewrites[i].path != rewrites[j].path);
            }
            assert forall|i: int| 0 <= i < rest.len() implies crate::files::lookup(
                ws.files,
                (#[trigger] rest[i]).path,
            ) is Some by {
                assert(rest[i] == rewrites[i]);
            }
        }
        lemma_unstaged(ws, rest, path);
        let before = unstaged(rest, path);
        let all = unstaged(rewrites, path);
        assert forall|i: int| 0 <= i < all.len() implies (#[trigger] all[i]).path != path
            && rewrites.contains(all[i]) by {
            if i < before.len() {
                assert(all[i] == before[i]);
                assert(rest.contains(before[i]));
                let k = choose|k: int| 0 <= k < rest.len() && rest[k] == before[i];
                assert(rewrites[k] == all[i]);
            } else {
                assert(rewrites[n] == all[i]);
            }
        }
        assert forall|i: int, j: int| 0 <= i < j < all.len() implies (#[trigger] all[i]).path != (
        #[trigger] all[j]).path by {
            assert(all[i] == before[i]);
            if j < before.len() {
                assert(all[j] == before[j]);
            } else {
                assert(rest.contains(before[i]));
                let k = choose|k: int| 0 <= k < rest.len() && rest[k] == before[i];
                assert(rewrites[k] == all[i] && rewrites[n] == all[j]);
                assert(rewrites[k].path != rewrites[n].path);
            }
        }
        assert forall|i: int| 0 <= i < all.len() implies crate::files::lookup(
            ws.files,
            (#[trigger] all[i]).path,
        ) is Some by {
            let k = choose|k: int| 0 <= k < rewrites.len() && rewrites[k] == all[i];
            assert(crate::files::lookup(ws.files, rewrites[k].path) is Some);
        }
    }
}

proof fn lemma_restaged(
    ws: WsView,
    rewrites: Seq<RewriteView>,
    path: Seq<char>,
    read: Seq<char>,
    text: Seq<char>,
)
    requires
        are_sound(ws, rewrites),
        crate::files::lookup(ws.files, path) is Some,
    ensures
        are_sound(ws, restaged(rewrites, path, read, text)),
{
    lemma_unstaged(ws, rewrites, path);
    let before = unstaged(rewrites, path);
    let all = restaged(rewrites, path, read, text);
    assert forall|i: int, j: int| 0 <= i < j < all.len() implies (#[trigger] all[i]).path != (
    #[trigger] all[j]).path by {
        assert(all[i] == before[i]);
        if j < before.len() {
            assert(all[j] == before[j]);
        }
    }
    assert forall|i: int| 0 <= i < all.len() implies crate::files::lookup(
        ws.files,
        (#[trigger] all[i]).path,
    ) is Some by {
        if i < before.len() {
            assert(all[i] == before[i]);
        }
    }
}

proof fn lemma_rerooted(
    ws: WsView,
    rewrites: Seq<RewriteView>,
    node: Seq<char>,
    store: Seq<char>,
    pinned: bool,
    moves: MovesView,
)
    requires
        are_sound(ws, rewrites),
    ensures
        rerooted(ws, rewrites, node, store, pinned, moves) matches Ok(out) ==> are_sound(ws, out),
{
    match crate::workspace::loaded(ws.files, store) {
        Ok((raw, doc)) => match manifest_root(doc.meta) {
            Some(root) => {
                let base = staged_or(rewrites, store, raw);
                match crate::document::set_in(
                    base,
                    doc.carrier,
                    "root"@,
                    MetaView::Text(moved_root(store, root, moves)),
                ) {
                    Some(out) => {
                        lemma_restaged(ws, rewrites, store, raw, out);
                        let more = restaged(rewrites, store, raw, out);
                        match crate::workspace::loaded(ws.files, node) {
                            Ok((node_raw, node_doc)) => match node_doc.carrier {
                                Some(carrier) => match crate::document::set_at(
                                    staged_or(more, node, node_raw),
                                    carrier,
                                    crate::document::key_way("content_hash"@),
                                    MetaView::Text(
                                        crate::fixity::checksum(vstd::utf8::encode_utf8(out)),
                                    ),
                                ) {
                                    Some(pinned_out) => {
                                        lemma_restaged(ws, more, node, node_raw, pinned_out);
                                    },
                                    None => {},
                                },
                                None => {},
                            },
                            Err(_) => {},
                        }
                    },
                    None => {},
                }
            },
            None => {},
        },
        Err(_) => {},
    }
}

proof fn lemma_all_rerooted(
    ws: WsView,
    rewrites: Seq<RewriteView>,
    files: Seq<Seq<char>>,
    dir: Seq<char>,
    moves: MovesView,
)
    requires
        are_sound(ws, rewrites),
    ensures
        all_rerooted(ws, rewrites, files, dir, moves) matches Ok(out) ==> are_sound(ws, out),
    decreases files.len(),
{
    if files.len() > 0 {
        lemma_all_rerooted(ws, rewrites, files.drop_last(), dir, moves);
        match all_rerooted(ws, rewrites, files.drop_last(), dir, moves) {
            Ok(rest) => {
                let path = files.last();
                match crate::workspace::loaded(ws.files, path) {
                    Ok((_, doc)) => match crate::maintain::manifest_file(doc, path) {
                        Some(store) => {
                            lemma_rerooted(
                                ws,
                                rest,
                                path,
                                store,
                                crate::meta::field(doc.meta, "content_hash"@) is Some,
                                moves,
                            );
                        },
                        None => {},
                    },
                    Err(_) => {},
                }
            },
            Err(_) => {},
        }
    }
}

proof fn lemma_carried(
    ws: WsView,
    files: Seq<Seq<char>>,
    dir: Seq<char>,
    moves: MovesView,
)
    requires
        files.no_duplicates(),
    ensures
        carried_texts(ws, files, dir, moves) matches Ok(out) ==> are_sound(ws, out) && (forall|i:
            int| 0 <= i < out.len() ==> files.contains((#[trigger] out[i]).path)),
    decreases files.len(),
{
    if files.len() > 0 {
        let rest = files.drop_last();
        let n = files.len() - 1;
        assert(rest.no_duplicates());
        lemma_carried(ws, rest, dir, moves);
        match (carried_texts(ws, rest, dir, moves), carried_texts(ws, files, dir, moves)) {
            (Ok(before), Ok(all)) => {
                assert forall|i: int| 0 <= i < before.len() implies files.contains(
                    (#[trigger] before[i]).path,
                ) && before[i].path != files[n] by {
                    assert(rest.contains(before[i].path));
                    let k = choose|k: int| 0 <= k < rest.len() && rest[k] == before[i].path;
                    assert(files[k] == before[i].path);
                }
                assert(files.contains(files[n]));
                if all.len() > before.len() {
                    assert(all.drop_last() =~= before);
                    assert forall|i: int, j: int| 0 <= i < j < all.len() implies (
                    #[trigger] all[i]).path != (#[trigger] all[j]).path by {
                        assert(all[i] == before[i]);
                        if j < before.len() {
                            assert(all[j] == before[j]);
                        }
                    }
                    assert forall|i: int| 0 <= i < all.len() implies files.contains(
                        (#[trigger] all[i]).path,
                    ) && crate::files::lookup(ws.files, all[i].path) is Some by {
                        if i < before.len() {
                            assert(all[i] == before[i]);
                        }
                    }
                } else {
                    assert(all =~= before);
                }
            },
            _ => {},
        }
    }
}

proof fn lemma_staged(rewrites: Seq<RewriteView>, path: Seq<char>)
    ensures
        match staged(rewrites, path) {
            Some(text) => exists|i: int|
                0 <= i < rewrites.len() && (#[trigger] rewrites[i]).path == path && rewrites[i].text
                    == text,
            None => !crate::landing::rewrites_path(rewrites, path),
        },
    decreases rewrites.len(),
{
    if rewrites.len() > 0 {
        let rest = rewrites.drop_last();
        let n = rewrites.len() - 1;
        if rewrites.last().path == path {
            assert(rewrites[n].path == path && rewrites[n].text == rewrites.last().text);
        } else {
            lemma_staged(rest, path);
            match staged(rest, path) {
                Some(text) => {
                    let i = choose|i: int|
                        0 <= i < rest.len() && (#[trigger] rest[i]).path == path && rest[i].text
                            == text;
                    assert(rewrites[i].path == path && rewrites[i].text == text);
                },
                None => {
                    if crate::landing::rewrites_path(rewrites, path) {
                        let i = choose|i: int|
                            0 <= i < rewrites.len() && (#[trigger] rewrites[i]).path == path;
                        assert(rest[i].path == path);
                    }
                },
            }
        }
    }
}

/// Whether one of the rewrites lands here.
pub open spec fn lands_at(rewrites: Seq<RewriteView>, moves: MovesView, path: Seq<char>) -> bool {
    exists|i: int|
        0 <= i < rewrites.len() && landing_or_same(moves, (#[trigger] rewrites[i]).path) == path
}

proof fn lemma_landing_land(
    files: crate::files::FileSeq,
    rewrites: Seq<RewriteView>,
    moves: MovesView,
)
    requires
        forall|i: int, j: int|
            0 <= i < j < rewrites.len() ==> landing_or_same(moves, (#[trigger] rewrites[i]).path)
                != landing_or_same(moves, (#[trigger] rewrites[j]).path),
    ensures
        crate::files::changed_all(files, landing_ops(rewrites, moves)) matches Ok(after) && (forall|
            i: int,
        |
            0 <= i < rewrites.len() ==> crate::files::lookup(
                after,
                landing_or_same(moves, (#[trigger] rewrites[i]).path),
            ) == Some(crate::files::FileView::Text(rewrites[i].text))) && (forall|q: Seq<char>|
            !lands_at(rewrites, moves, q) ==> #[trigger] crate::files::lookup(after, q)
                == crate::files::lookup(files, q)),
    decreases rewrites.len(),
{
    if rewrites.len() > 0 {
        let rest = rewrites.drop_last();
        let n = rewrites.len() - 1;
        let last = rewrites.last();
        let to = landing_or_same(moves, last.path);
        assert forall|i: int, j: int| 0 <= i < j < rest.len() implies landing_or_same(
            moves,
            (#[trigger] rest[i]).path,
        ) != landing_or_same(moves, (#[trigger] rest[j]).path) by {
            assert(rest[i] == rewrites[i] && rest[j] == rewrites[j]);
        }
        lemma_landing_land(files, rest, moves);
        let ops = landing_ops(rest, moves);
        let expect = crate::files::OpView::Expect(last.path, last.read);
        crate::landing::lemma_changed_push(files, ops, expect);
        crate::landing::lemma_changed_push(
            files,
            ops.push(expect),
            crate::files::write_text(to, last.text),
        );
        let before = crate::files::changed_all(files, ops)->Ok_0;
        let data = crate::files::FileView::Text(last.text);
        let after = crate::files::stored(before, to, data);
        assert forall|i: int| 0 <= i < rewrites.len() implies crate::files::lookup(
            after,
            landing_or_same(moves, (#[trigger] rewrites[i]).path),
        ) == Some(crate::files::FileView::Text(rewrites[i].text)) by {
            crate::files::law_stored(
                before,
                to,
                data,
                landing_or_same(moves, rewrites[i].path),
            );
            if i < n {
                assert(rest[i] == rewrites[i]);
                assert(landing_or_same(moves, rewrites[i].path) != landing_or_same(
                    moves,
                    rewrites[n].path,
                ));
            }
        }
        assert forall|q: Seq<char>| !lands_at(rewrites, moves, q) implies #[trigger] crate::files::lookup(
            after,
            q,
        ) == crate::files::lookup(files, q) by {
            assert(landing_or_same(moves, rewrites[n].path) != q);
            if lands_at(rest, moves, q) {
                let i = choose|i: int|
                    0 <= i < rest.len() && landing_or_same(moves, (#[trigger] rest[i]).path) == q;
                assert(landing_or_same(moves, rewrites[i].path) == q);
            }
            crate::files::law_stored(before, to, data, q);
        }
    }
}

proof fn lemma_landing_apart(
    ws: WsView,
    from: Seq<char>,
    to: Seq<char>,
    a: Seq<char>,
    b: Seq<char>,
)
    requires
        are_kept(ws.files),
        crate::path::is_inside(from),
        crate::path::is_inside(to),
        tree_fault(ws, from, to) is None,
        crate::files::lookup(ws.files, a) is Some,
        crate::files::lookup(ws.files, b) is Some,
        a != b,
    ensures
        landing_or_same(MovesView::Tree(from, to), a) != landing_or_same(
            MovesView::Tree(from, to),
            b,
        ),
        crate::path::is_within(a, from) ==> crate::path::is_within(
            landing_or_same(MovesView::Tree(from, to), a),
            to,
        ),
        !crate::path::is_within(a, to),
{
    let m = crate::files::lemma_lookup_at(ws.files, a);
    let n = crate::files::lemma_lookup_at(ws.files, b);
    assert(crate::path::is_inside(ws.files[m].0) && crate::path::is_inside(ws.files[n].0));
    if crate::path::is_within(a, to) {
        assert(crate::path::is_within(ws.files[m].0, to));
        assert(crate::files::occupied(ws.files, to));
    }
    if crate::path::is_within(b, to) {
        assert(crate::path::is_within(ws.files[n].0, to));
        assert(crate::files::occupied(ws.files, to));
    }
    if crate::path::is_within(a, from) {
        crate::path::law_rebased(a, from, to);
    }
    if crate::path::is_within(b, from) {
        crate::path::law_rebased(b, from, to);
    }
    if crate::path::is_within(a, from) && crate::path::is_within(b, from) {
        crate::maintain::law_tree_moves_apart(from, to, a, b);
    }
}

/// The texts that a tree move plans, each with the document it is the text of.
pub open spec fn tree_planned(ws: WsView, from: Seq<char>, to: Seq<char>) -> Outcome<
    Seq<RewriteView>,
> {
    let moves = MovesView::Tree(from, to);
    let paths = paths_within(ws.files, from);
    match carried_texts(ws, paths, from, moves) {
        Err(e) => Err(e),
        Ok(carried) => all_rerooted(ws, carried, paths, from, moves),
    }
}

/// A file that moves with its directory holds, where it lands, the text that was planned
/// for it, or what it held.
pub proof fn law_tree_moved_file(
    ws: WsView,
    from: Seq<char>,
    to: Seq<char>,
    after: WsView,
    path: Seq<char>,
)
    requires
        are_kept(ws.files),
        crate::path::is_inside(from),
        crate::path::is_inside(to),
        tree_move(ws, from, to) matches Ok((cs, _)) && crate::change::landed(ws, cs) matches Ok(w)
            && w == after,
        crate::path::is_within(path, from),
        crate::files::lookup(ws.files, path) is Some,
    ensures
        tree_planned(ws, from, to) matches Ok(planned) && crate::files::lookup(
            after.files,
            landing_or_same(MovesView::Tree(from, to), path),
        ) == (match staged(planned, path) {
            Some(text) => Some(crate::files::FileView::Text(text)),
            None => crate::files::lookup(ws.files, path),
        }),
{
    let moves = MovesView::Tree(from, to);
    let anchor = crate::walk::anchor_of(ws, from);
    let paths = paths_within(ws.files, from);
    let cs = (tree_move(ws, from, to)->Ok_0).0;
    let renames = tree_renames(paths, moves);
    let carried = carried_texts(ws, paths, from, moves)->Ok_0;
    let planned = all_rerooted(ws, carried, paths, from, moves)->Ok_0;
    let inbound = crate::field::inbound_rewrites(ws, anchor, moves, Movers::Skip)->Ok_0;
    let landings = landing_ops(planned, moves);
    let writes = crate::change::rewrite_ops(inbound);
    assert(cs.ops =~= renames + landings + writes);
    crate::landing::lemma_changed_add(ws.files, renames + landings, writes);
    crate::landing::lemma_changed_add(ws.files, renames, landings);
    let moved = crate::files::changed_all(ws.files, renames)->Ok_0;
    let there = landing_or_same(moves, path);
    lemma_tree_free(ws, from, to);
    lemma_paths_within(ws.files, from);
    assert(paths.take(paths.len() as int) =~= paths);
    lemma_tree_renames(ws.files, paths, moves, paths.len() as int);
    let m = crate::files::lemma_lookup_at(ws.files, path);
    assert(paths.contains(ws.files[m].0));
    let x = choose|x: int| 0 <= x < paths.len() && paths[x] == path;
    assert(crate::files::lookup(moved, landing_or_same(moves, paths[x])) == crate::files::lookup(
        ws.files,
        paths[x],
    ));
    lemma_carried(ws, paths, from, moves);
    lemma_all_rerooted(ws, carried, paths, from, moves);
    assert forall|i: int, j: int| 0 <= i < j < planned.len() implies landing_or_same(
        moves,
        (#[trigger] planned[i]).path,
    ) != landing_or_same(moves, (#[trigger] planned[j]).path) by {
        lemma_landing_apart(ws, from, to, planned[i].path, planned[j].path);
    }
    lemma_landing_land(moved, planned, moves);
    let landed = crate::files::changed_all(moved, landings)->Ok_0;
    lemma_staged(planned, path);
    match staged(planned, path) {
        Some(t) => {
            let i = choose|i: int|
                0 <= i < planned.len() && (#[trigger] planned[i]).path == path && planned[i].text
                    == t;
            assert(crate::files::lookup(landed, landing_or_same(moves, planned[i].path)) == Some(
                crate::files::FileView::Text(t),
            ));
        },
        None => {
            assert(!lands_at(planned, moves, there)) by {
                if lands_at(planned, moves, there) {
                    let i = choose|i: int|
                        0 <= i < planned.len() && landing_or_same(
                            moves,
                            (#[trigger] planned[i]).path,
                        ) == there;
                    if planned[i].path != path {
                        lemma_landing_apart(ws, from, to, planned[i].path, path);
                    }
                }
            }
        },
    }
    crate::landing::law_inbound_rewrites(ws, anchor, moves, Movers::Skip);
    crate::landing::law_rewrites_land(landed, inbound);
    assert(!crate::landing::rewrites_path(inbound, there)) by {
        if crate::landing::rewrites_path(inbound, there) {
            let i = choose|i: int| 0 <= i < inbound.len() && (#[trigger] inbound[i]).path == there;
            assert(crate::workspace::loaded(ws.files, inbound[i].path) is Ok);
            let n = crate::files::lemma_lookup_at(ws.files, there);
            crate::path::law_rebased(path, from, to);
            assert(crate::path::is_within(ws.files[n].0, to));
            assert(crate::files::occupied(ws.files, to));
        }
    }
}

/// Whether a move of a directory reads this file: a document that it maintains, or the
/// manifest of one.
pub open spec fn is_read(ws: WsView, dir: Seq<char>, path: Seq<char>) -> bool {
    crate::workspace::loaded(ws.files, path) is Ok && (is_maintained(ws, path, dir) || exists|
        node: Seq<char>,
    |
        is_maintained(ws, node, dir) && #[trigger] crate::path::is_within(node, dir) && (
        crate::workspace::loaded(ws.files, node) matches Ok((_, doc))
            && crate::maintain::manifest_file(doc, node) == Some(path)))
}

/// Whether all of these rewrites are of files that a move of a directory reads.
pub open spec fn are_read(ws: WsView, dir: Seq<char>, rewrites: Seq<RewriteView>) -> bool {
    forall|i: int| 0 <= i < rewrites.len() ==> is_read(ws, dir, (#[trigger] rewrites[i]).path)
}

proof fn lemma_restaged_read(
    ws: WsView,
    dir: Seq<char>,
    rewrites: Seq<RewriteView>,
    path: Seq<char>,
    read: Seq<char>,
    text: Seq<char>,
)
    requires
        are_sound(ws, rewrites),
        are_read(ws, dir, rewrites),
        is_read(ws, dir, path),
    ensures
        are_read(ws, dir, restaged(rewrites, path, read, text)),
{
    lemma_unstaged(ws, rewrites, path);
    let before = unstaged(rewrites, path);
    let all = restaged(rewrites, path, read, text);
    assert forall|i: int| 0 <= i < all.len() implies is_read(ws, dir, (#[trigger] all[i]).path) by {
        if i < before.len() {
            assert(all[i] == before[i]);
            assert(rewrites.contains(before[i]));
            let k = choose|k: int| 0 <= k < rewrites.len() && rewrites[k] == before[i];
            assert(is_read(ws, dir, rewrites[k].path));
        }
    }
}

proof fn lemma_rerooted_read(
    ws: WsView,
    dir: Seq<char>,
    rewrites: Seq<RewriteView>,
    node: Seq<char>,
    store: Seq<char>,
    pinned: bool,
    moves: MovesView,
)
    requires
        are_sound(ws, rewrites),
        are_read(ws, dir, rewrites),
        is_maintained(ws, node, dir),
        crate::path::is_within(node, dir),
        crate::workspace::loaded(ws.files, node) matches Ok((_, doc))
            && crate::maintain::manifest_file(doc, node) == Some(store),
    ensures
        rerooted(ws, rewrites, node, store, pinned, moves) matches Ok(out) ==> are_read(
            ws,
            dir,
            out,
        ),
{
    match crate::workspace::loaded(ws.files, store) {
        Ok((raw, doc)) => {
            assert(is_read(ws, dir, store));
            assert(is_read(ws, dir, node));
            match manifest_root(doc.meta) {
                Some(root) => {
                    let base = staged_or(rewrites, store, raw);
                    match crate::document::set_in(
                        base,
                        doc.carrier,
                        "root"@,
                        MetaView::Text(moved_root(store, root, moves)),
                    ) {
                        Some(out) => {
                            lemma_restaged(ws, rewrites, store, raw, out);
                            lemma_restaged_read(ws, dir, rewrites, store, raw, out);
                            let more = restaged(rewrites, store, raw, out);
                            let (node_raw, node_doc) = crate::workspace::loaded(
                                ws.files,
                                node,
                            )->Ok_0;
                            match repinned(ws, more, node, out) {
                                Ok(_) => match node_doc.carrier {
                                    Some(carrier) => {
                                        let text = crate::document::set_at(
                                            staged_or(more, node, node_raw),
                                            carrier,
                                            crate::document::key_way("content_hash"@),
                                            MetaView::Text(
                                                crate::fixity::checksum(
                                                    vstd::utf8::encode_utf8(out),
                                                ),
                                            ),
                                        )->Some_0;
                                        lemma_restaged_read(
                                            ws,
                                            dir,
                                            more,
                                            node,
                                            node_raw,
                                            text,
                                        );
                                    },
                                    None => {},
                                },
                                Err(_) => {},
                            }
                        },
                        None => {},
                    }
                },
                None => {},
            }
        },
        Err(_) => {},
    }
}

proof fn lemma_all_read(
    ws: WsView,
    rewrites: Seq<RewriteView>,
    files: Seq<Seq<char>>,
    dir: Seq<char>,
    moves: MovesView,
)
    requires
        are_sound(ws, rewrites),
        are_read(ws, dir, rewrites),
        forall|i: int| 0 <= i < files.len() ==> crate::path::is_within(#[trigger] files[i], dir),
    ensures
        all_rerooted(ws, rewrites, files, dir, moves) matches Ok(out) ==> are_read(ws, dir, out),
    decreases files.len(),
{
    if files.len() > 0 {
        let rest_files = files.drop_last();
        assert forall|i: int| 0 <= i < rest_files.len() implies crate::path::is_within(
            #[trigger] rest_files[i],
            dir,
        ) by {
            assert(crate::path::is_within(files[i], dir));
        }
        lemma_all_read(ws, rewrites, rest_files, dir, moves);
        lemma_all_rerooted(ws, rewrites, rest_files, dir, moves);
        match all_rerooted(ws, rewrites, rest_files, dir, moves) {
            Ok(rest) => {
                let path = files.last();
                assert(crate::path::is_within(files[files.len() - 1], dir));
                if is_maintained(ws, path, dir) {
                    match crate::workspace::loaded(ws.files, path) {
                        Ok((_, doc)) => match crate::maintain::manifest_file(doc, path) {
                            Some(store) => {
                                lemma_rerooted_read(
                                    ws,
                                    dir,
                                    rest,
                                    path,
                                    store,
                                    crate::meta::field(doc.meta, "content_hash"@) is Some,
                                    moves,
                                );
                            },
                            None => {},
                        },
                        Err(_) => {},
                    }
                }
            },
            Err(_) => {},
        }
    }
}

proof fn lemma_carried_read(
    ws: WsView,
    files: Seq<Seq<char>>,
    dir: Seq<char>,
    moves: MovesView,
)
    ensures
        carried_texts(ws, files, dir, moves) matches Ok(out) ==> are_read(ws, dir, out),
    decreases files.len(),
{
    if files.len() > 0 {
        let rest = files.drop_last();
        lemma_carried_read(ws, rest, dir, moves);
        match (carried_texts(ws, rest, dir, moves), carried_texts(ws, files, dir, moves)) {
            (Ok(before), Ok(all)) => {
                assert forall|i: int| 0 <= i < all.len() implies is_read(
                    ws,
                    dir,
                    (#[trigger] all[i]).path,
                ) by {
                    if i < before.len() {
                        assert(all[i] == before[i]);
                    }
                }
            },
            _ => {},
        }
    }
}

/// A file that a move of a directory does not read, because it is hidden, parked, opaque
/// or cannot be read, moves as it is: it holds where it lands what it held.
pub proof fn law_tree_moves_unread(
    ws: WsView,
    from: Seq<char>,
    to: Seq<char>,
    after: WsView,
    path: Seq<char>,
)
    requires
        are_kept(ws.files),
        crate::path::is_inside(from),
        crate::path::is_inside(to),
        tree_move(ws, from, to) matches Ok((cs, _)) && crate::change::landed(ws, cs) matches Ok(w)
            && w == after,
        crate::path::is_within(path, from),
        crate::files::lookup(ws.files, path) is Some,
        !is_read(ws, from, path),
    ensures
        crate::files::lookup(after.files, landing_or_same(MovesView::Tree(from, to), path))
            == crate::files::lookup(ws.files, path),
{
    let moves = MovesView::Tree(from, to);
    let paths = paths_within(ws.files, from);
    let carried = carried_texts(ws, paths, from, moves)->Ok_0;
    let planned = tree_planned(ws, from, to)->Ok_0;
    lemma_paths_within(ws.files, from);
    lemma_carried(ws, paths, from, moves);
    lemma_carried_read(ws, paths, from, moves);
    lemma_all_read(ws, carried, paths, from, moves);
    law_tree_moved_file(ws, from, to, after, path);
    lemma_staged(planned, path);
    match staged(planned, path) {
        Some(text) => {
            let i = choose|i: int|
                0 <= i < planned.len() && (#[trigger] planned[i]).path == path && planned[i].text
                    == text;
            assert(is_read(ws, from, planned[i].path));
        },
        None => {},
    }
}

/// A file outside a directory that moves is where it was, and as it was unless a link in
/// it follows the move or it is the manifest of a document that moves.
pub proof fn law_tree_leaves_others(
    ws: WsView,
    from: Seq<char>,
    to: Seq<char>,
    after: WsView,
    path: Seq<char>,
)
    requires
        are_kept(ws.files),
        crate::path::is_inside(from),
        crate::path::is_inside(to),
        tree_move(ws, from, to) matches Ok((cs, _)) && crate::change::landed(ws, cs) matches Ok(w)
            && w == after,
        !crate::path::is_within(path, from),
        crate::files::lookup(ws.files, path) is Some,
        tree_planned(ws, from, to) matches Ok(planned) && !crate::landing::rewrites_path(
            planned,
            path,
        ),
        crate::field::inbound_rewrites(
            ws,
            crate::walk::anchor_of(ws, from),
            MovesView::Tree(from, to),
            Movers::Skip,
        ) matches Ok(inbound) && !crate::landing::rewrites_path(inbound, path),
    ensures
        crate::files::lookup(after.files, path) == crate::files::lookup(ws.files, path),
{
    let moves = MovesView::Tree(from, to);
    let anchor = crate::walk::anchor_of(ws, from);
    let paths = paths_within(ws.files, from);
    let cs = (tree_move(ws, from, to)->Ok_0).0;
    let renames = tree_renames(paths, moves);
    let carried = carried_texts(ws, paths, from, moves)->Ok_0;
    let planned = all_rerooted(ws, carried, paths, from, moves)->Ok_0;
    let inbound = crate::field::inbound_rewrites(ws, anchor, moves, Movers::Skip)->Ok_0;
    let landings = landing_ops(planned, moves);
    let writes = crate::change::rewrite_ops(inbound);
    assert(cs.ops =~= renames + landings + writes);
    crate::landing::lemma_changed_add(ws.files, renames + landings, writes);
    crate::landing::lemma_changed_add(ws.files, renames, landings);
    let moved = crate::files::changed_all(ws.files, renames)->Ok_0;
    lemma_paths_within(ws.files, from);
    lemma_carried(ws, paths, from, moves);
    lemma_all_rerooted(ws, carried, paths, from, moves);
    assert forall|n: int| 0 <= n < paths.len() implies #[trigger] paths[n] != path
        && landing_or_same(moves, paths[n]) != path by {
        crate::path::law_rebased(paths[n], from, to);
        if landing_or_same(moves, paths[n]) == path {
            let m = crate::files::lemma_lookup_at(ws.files, path);
            assert(crate::path::is_within(ws.files[m].0, to));
            assert(crate::files::occupied(ws.files, to));
        }
    }
    lemma_renames_elsewhere(paths, moves, path);
    crate::landing::law_untouched(ws.files, renames, path);
    assert forall|i: int, j: int| 0 <= i < j < planned.len() implies landing_or_same(
        moves,
        (#[trigger] planned[i]).path,
    ) != landing_or_same(moves, (#[trigger] planned[j]).path) by {
        lemma_landing_apart(ws, from, to, planned[i].path, planned[j].path);
    }
    lemma_landing_land(moved, planned, moves);
    let landed = crate::files::changed_all(moved, landings)->Ok_0;
    assert(!lands_at(planned, moves, path)) by {
        if lands_at(planned, moves, path) {
            let i = choose|i: int|
                0 <= i < planned.len() && landing_or_same(moves, (#[trigger] planned[i]).path)
                    == path;
            assert(planned[i].path != path);
            lemma_landing_apart(ws, from, to, planned[i].path, path);
        }
    }
    crate::landing::law_inbound_rewrites(ws, anchor, moves, Movers::Skip);
    crate::landing::law_rewrites_land(landed, inbound);
}

/// A document that moves with its directory takes its links along: a path reference of
/// its own that reached a file reaches that file, or where it has gone, as the document
/// reads where it lands; and there is a file there. The document reads as its edits
/// describe.
pub proof fn law_tree_moved_keeps_reading(
    ws: WsView,
    from: Seq<char>,
    to: Seq<char>,
    after: WsView,
    path: Seq<char>,
    i: int,
    k: int,
    j: int,
)
    requires
        are_kept(ws.files),
        crate::path::is_inside(from),
        crate::path::is_inside(to),
        tree_move(ws, from, to) matches Ok((cs, _)) && crate::change::landed(ws, cs) matches Ok(w)
            && w == after,
        crate::follow::distinct_names(ws.relations.relations),
        0 <= i < ws.relations.relations.len(),
        0 <= j < ws.files.len(),
        crate::path::is_within(path, from),
        ({
            let moves = MovesView::Tree(from, to);
            let there = landing_or_same(moves, path);
            let name = ws.relations.relations[i].name;
            crate::workspace::loaded(ws.files, path) matches Ok((text, doc)) && tree_planned(
                ws,
                from,
                to,
            ) matches Ok(planned) && crate::document::parsed(
                there,
                staged_or(planned, path, text),
            ) matches Some(now) && ({
                let raws = crate::meta::links_at(doc.meta, name);
                let target = crate::link::parse_link(raws[k]).target;
                let place = crate::link::resolve_path(path, target);
                &&& !crate::path::escapes(there)
                &&& crate::meta::links_at(now.meta, name) == crate::meta::links_at(
                    crate::follow::edits_made(
                        doc.meta,
                        crate::field::relation_edits(
                            ws,
                            doc.meta,
                            ws.relations.relations,
                            crate::field::moved_entry(path, there, moves),
                        ),
                    ),
                    name,
                )
                &&& 0 <= k < raws.len()
                &&& crate::link::is_path_target(target)
                &&& crate::follow::can_reach(
                    raws[k],
                    crate::follow::field_style(ws, name),
                    there,
                    landing_or_same(moves, place),
                )
                &&& ws.files[j].0 == place
                &&& crate::files::lookup(ws.files, place) is Some
            })
        }),
    ensures
        ({
            let moves = MovesView::Tree(from, to);
            let there = landing_or_same(moves, path);
            let name = ws.relations.relations[i].name;
            let doc = (crate::workspace::loaded(ws.files, path)->Ok_0).1;
            let raws = crate::meta::links_at(doc.meta, name);
            let gone = landing_or_same(moves, crate::landing::place_of(path, raws[k]));
            crate::workspace::loaded(after.files, there) matches Ok((_, now)) && k
                < crate::meta::links_at(now.meta, name).len() && crate::follow::reaches(
                crate::meta::links_at(now.meta, name)[k],
                raws[k],
                there,
                gone,
            ) && crate::files::lookup(after.files, gone) is Some
        }),
{
    let moves = MovesView::Tree(from, to);
    let there = landing_or_same(moves, path);
    let (text, doc) = crate::workspace::loaded(ws.files, path)->Ok_0;
    law_tree_moved_file(ws, from, to, after, path);
    law_tree_targets_stand(ws, from, to, after, j);
    crate::follow::law_moved_document(ws, doc.meta, path, there, moves, i, k);
}

proof fn lemma_tree_ids(ws: WsView, files: Seq<Seq<char>>, moves: MovesView, j: int)
    requires
        crate::registry::is_sound(ws.ids),
        moves_freely(files, moves),
        0 <= j < files.len(),
    ensures
        crate::registry::id_at(ws.ids, files[j]) matches Some(id) ==> crate::registry::path_of(
            tree_ids(ws, files, moves),
            id,
        ) == Some(landing_or_same(moves, files[j])),
    decreases files.len(),
{
    let rest = files.drop_last();
    let n = files.len() - 1;
    let ids = tree_ids(ws, rest, moves);
    let to = landing_or_same(moves, files[n]);
    match crate::registry::id_at(ws.ids, files[n]) {
        Some(last) => {
            crate::registry::law_bound(ids, last, to, last);
            crate::registry::law_sound_agrees(ws.ids, last, files[n]);
            if j < n {
                match crate::registry::id_at(ws.ids, files[j]) {
                    Some(id) => {
                        crate::registry::law_sound_agrees(ws.ids, id, files[j]);
                        assert(files[j] != files[n]);
                        crate::registry::law_bound(ids, last, to, id);
                    },
                    None => {},
                }
            }
        },
        None => {},
    }
    if j < n {
        assert(rest[j] == files[j]);
        assert(moves_freely(rest, moves)) by {
            assert forall|a: int, b: int| 0 <= a < rest.len() && 0 <= b < rest.len() implies
                landing_or_same(moves, #[trigger] rest[a]) != #[trigger] rest[b] by {
                assert(landing_or_same(moves, files[a]) != files[b]);
            }
            assert forall|a: int, b: int| 0 <= a < b < rest.len() implies landing_or_same(
                moves,
                #[trigger] rest[a],
            ) != landing_or_same(moves, #[trigger] rest[b]) by {
                assert(landing_or_same(moves, files[a]) != landing_or_same(moves, files[b]));
            }
        }
        lemma_tree_ids(ws, rest, moves, j);
        assert(landing_or_same(moves, files[j]) != landing_or_same(moves, files[n]));
    }
}

/// The identifier of a file that moves with its directory leads to where it lands.
pub proof fn law_tree_ids_follow(
    ws: WsView,
    from: Seq<char>,
    to: Seq<char>,
    after: WsView,
    path: Seq<char>,
    id: Seq<char>,
)
    requires
        are_kept(ws.files),
        crate::registry::is_sound(ws.ids),
        crate::path::is_inside(from),
        crate::path::is_inside(to),
        tree_move(ws, from, to) matches Ok((cs, _)) && crate::change::landed(ws, cs) matches Ok(w)
            && w == after,
        crate::path::is_within(path, from),
        crate::files::lookup(ws.files, path) is Some,
        crate::registry::id_at(ws.ids, path) == Some(id),
    ensures
        crate::registry::path_of(after.ids, id) == Some(
            landing_or_same(MovesView::Tree(from, to), path),
        ),
{
    let moves = MovesView::Tree(from, to);
    let paths = paths_within(ws.files, from);
    lemma_tree_free(ws, from, to);
    lemma_paths_within(ws.files, from);
    let m = crate::files::lemma_lookup_at(ws.files, path);
    assert(paths.contains(ws.files[m].0));
    let j = choose|j: int| 0 <= j < paths.len() && paths[j] == path;
    lemma_tree_ids(ws, paths, moves, j);
}

/// The root goes along with a directory that moves, and so do the parked directories.
pub proof fn law_tree_carries_root(ws: WsView, from: Seq<char>, to: Seq<char>, after: WsView)
    requires
        tree_move(ws, from, to) matches Ok((cs, _)) && crate::change::landed(ws, cs) matches Ok(w)
            && w == after,
    ensures
        ({
            let moves = MovesView::Tree(
                crate::path::normalized(from),
                crate::path::normalized(to),
            );
            &&& after.root == crate::change::root_along(ws.root, moves)
            &&& after.parked == crate::change::all_along(ws.parked, moves)
        }),
{
}

proof fn lemma_staged_carried(
    ws: WsView,
    files: Seq<Seq<char>>,
    dir: Seq<char>,
    moves: MovesView,
    path: Seq<char>,
)
    requires
        files.no_duplicates(),
        files.contains(path),
        is_maintained(ws, path, dir),
        crate::workspace::loaded(ws.files, path) is Ok,
        carried_texts(ws, files, dir, moves) is Ok,
    ensures
        ({
            let (text, doc) = crate::workspace::loaded(ws.files, path)->Ok_0;
            let out = carried_texts(ws, files, dir, moves)->Ok_0;
            carried_text(ws, path, text, doc, moves) == Ok::<Seq<char>, Fault<Seq<char>>>(
                staged_or(out, path, text),
            )
        }),
    decreases files.len(),
{
    let rest = files.drop_last();
    let n = files.len() - 1;
    let text = (crate::workspace::loaded(ws.files, path)->Ok_0).0;
    assert(rest.no_duplicates());
    let before = carried_texts(ws, rest, dir, moves)->Ok_0;
    let all = carried_texts(ws, files, dir, moves)->Ok_0;
    if files[n] == path {
        lemma_carried(ws, rest, dir, moves);
        lemma_staged(before, path);
        assert(staged(before, path) is None) by {
            if staged(before, path) is Some {
                let i = choose|i: int| 0 <= i < before.len() && (#[trigger] before[i]).path == path;
                assert(rest.contains(before[i].path));
                let k = choose|k: int| 0 <= k < rest.len() && rest[k] == path;
                assert(files[k] == files[n]);
            }
        }
    } else {
        let k = choose|k: int| 0 <= k < files.len() && files[k] == path;
        assert(rest[k] == path);
        lemma_staged_carried(ws, rest, dir, moves, path);
    }
    if all.len() > before.len() {
        assert(all.drop_last() =~= before);
    }
}

proof fn lemma_none_rerooted(
    ws: WsView,
    rewrites: Seq<RewriteView>,
    files: Seq<Seq<char>>,
    dir: Seq<char>,
    moves: MovesView,
)
    requires
        forall|q: Seq<char>|
            (#[trigger] crate::workspace::loaded(ws.files, q) matches Ok((_, doc))
                ==> crate::meta::text_field(doc.meta, "manifest"@) is None),
    ensures
        all_rerooted(ws, rewrites, files, dir, moves) == Ok::<Seq<RewriteView>, Fault<Seq<char>>>(
            rewrites,
        ),
    decreases files.len(),
{
    if files.len() > 0 {
        lemma_none_rerooted(ws, rewrites, files.drop_last(), dir, moves);
        assert(crate::workspace::loaded(ws.files, files.last()) matches Ok((_, doc))
            ==> crate::meta::text_field(doc.meta, "manifest"@) is None);
    }
}

/// A file that moves with its directory takes its links along: it reads, where it goes, with
/// references that lead from there where those led from where it was, or where that has
/// gone, and with a body whose links lead on; what stands between the links is as it was. It
/// is no payload, nor hidden or parked below the directory; no document names a manifest; it
/// is of the same kind of file there, and its edits read back.
pub proof fn law_tree_document_reads(
    ws: WsView,
    from: Seq<char>,
    to: Seq<char>,
    after: WsView,
    path: Seq<char>,
    i: int,
    k: int,
)
    requires
        are_kept(ws.files),
        crate::path::is_inside(from),
        crate::path::is_inside(to),
        tree_move(ws, from, to) matches Ok((cs, _)) && crate::change::landed(ws, cs) matches Ok(w)
            && w == after,
        crate::path::is_within(path, from),
        is_maintained(ws, path, from),
        crate::document::file_format(path) == crate::document::file_format(
            crate::path::rebased(path, from, to),
        ),
        forall|q: Seq<char>|
            (#[trigger] crate::workspace::loaded(ws.files, q) matches Ok((_, doc))
                ==> crate::meta::text_field(doc.meta, "manifest"@) is None),
        crate::follow::distinct_names(ws.relations.relations),
        0 <= i < ws.relations.relations.len(),
        crate::workspace::loaded(ws.files, path) matches Ok((_, doc)) && 0 <= k
            < crate::meta::links_at(doc.meta, ws.relations.relations[i].name).len(),
    ensures
        ({
            let there = crate::path::rebased(path, from, to);
            let name = ws.relations.relations[i].name;
            let (text, doc) = crate::workspace::loaded(ws.files, path)->Ok_0;
            let raws = crate::meta::links_at(doc.meta, name);
            let target = crate::link::parse_link(raws[k]).target;
            let place = crate::link::resolve_path(path, target);
            let gone = if crate::path::is_within(place, from) {
                crate::path::rebased(place, from, to)
            } else {
                place
            };
            exists|touches: Seq<crate::reading::Touch>|
                {
                    &&& #[trigger] crate::reading::all_touched(text, doc.carrier, touches) matches Some(
                        out,
                    ) && crate::files::lookup(after.files, there) == Some(
                        crate::files::FileView::Text(out),
                    )
                    &&& crate::reading::reads_through(path, text, touches) ==> (
                    crate::reading::all_touched(text, doc.carrier, touches) matches Some(out) && (
                    crate::document::parsed(there, out) matches Some(now) && ({
                        let news = crate::meta::links_at(now.meta, name);
                        &&& news.len() == raws.len()
                        &&& if crate::link::is_path_target(target) {
                            crate::follow::can_reach(
                                raws[k],
                                crate::follow::field_style(ws, name),
                                there,
                                gone,
                            ) ==> crate::follow::reaches(news[k], raws[k], there, gone)
                        } else {
                            news[k] == raws[k]
                        }
                        &&& exists|pieces: Seq<Seq<char>>|
                            {
                                &&& #[trigger] crate::following::leads_on(
                                    doc.body,
                                    path,
                                    there,
                                    ws.settings.references.path_style,
                                    gone_below(from, to),
                                    pieces,
                                )
                                &&& now.body == crate::following::woven(
                                    doc.body,
                                    crate::prose::body_links(path, doc.body),
                                    pieces,
                                )
                            }
                    })))
                }
        }),
{
    let moves = MovesView::Tree(from, to);
    let there = crate::path::rebased(path, from, to);
    let name = ws.relations.relations[i].name;
    let (text, doc) = crate::workspace::loaded(ws.files, path)->Ok_0;
    let raws = crate::meta::links_at(doc.meta, name);
    let target = crate::link::parse_link(raws[k]).target;
    let place = crate::link::resolve_path(path, target);
    let style = ws.settings.references.path_style;
    law_tree_moved_file(ws, from, to, after, path);
    let paths = paths_within(ws.files, from);
    lemma_paths_within(ws.files, from);
    crate::files::lemma_lookup_at(ws.files, path);
    let j = choose|j: int| 0 <= j < ws.files.len() && (#[trigger] ws.files[j]).0 == path;
    assert(paths.contains(ws.files[j].0));
    lemma_staged_carried(ws, paths, from, moves, path);
    let carried = carried_texts(ws, paths, from, moves)->Ok_0;
    lemma_none_rerooted(ws, carried, paths, from, moves);
    assert(landing_or_same(moves, path) == there);
    let touches = crate::following::law_carried_touches(ws, path, there, text, doc, moves);
    let out = crate::reading::all_touched(text, doc.carrier, touches)->Some_0;
    let rule = crate::field::moved_entry(path, there, moves);
    crate::follow::law_references_respelled(ws, doc.meta, rule, i);
    if crate::reading::reads_through(path, text, touches) {
        assert(crate::document::parsed(there, out) == crate::document::parsed(path, out));
        if crate::link::is_path_target(target) && crate::follow::can_reach(
            raws[k],
            crate::follow::field_style(ws, name),
            there,
            landing_or_same(moves, place),
        ) {
            crate::follow::law_moved_reference(
                crate::follow::field_style(ws, name),
                path,
                there,
                moves,
                raws[k],
            );
        }
        let pieces = crate::following::law_moved_prose(doc.body, path, there, moves, style);
        let a = |p: Seq<char>| landing_or_same(moves, p);
        assert(a =~= gone_below(from, to));
        assert(crate::following::leads_on(
            doc.body,
            path,
            there,
            style,
            gone_below(from, to),
            pieces,
        ));
    }
}

/// Where paths are when a directory has moved.
pub open spec fn gone_below(from: Seq<char>, to: Seq<char>) -> spec_fn(Seq<char>) -> Seq<char> {
    |p: Seq<char>|
        if crate::path::is_within(p, from) {
            crate::path::rebased(p, from, to)
        } else {
            p
        }
}

/// A path reference into a directory that moves, in a document outside it that a survey
/// covers, leads to where that has gone, and every other one where it led; and there is a
/// file there. The edits read back.
pub proof fn law_tree_is_followed(
    ws: WsView,
    from: Seq<char>,
    to: Seq<char>,
    after: WsView,
    inverse: Seq<char>,
    source: Seq<char>,
    i: int,
    k: int,
    j: int,
)
    requires
        are_kept(ws.files),
        crate::path::is_inside(from),
        crate::path::is_inside(to),
        tree_move(ws, from, to) matches Ok((cs, _)) && crate::change::landed(ws, cs) matches Ok(w)
            && w == after,
        crate::follow::distinct_names(ws.relations.relations),
        crate::workspace::spanning_names(ws.relations) matches Ok((_, v)) && v == inverse,
        0 <= i < ws.relations.relations.len(),
        0 <= j < ws.files.len(),
        ({
            let moves = MovesView::Tree(from, to);
            let moved = paths_within(ws.files, from);
            let anchor = crate::walk::anchor_of(ws, from);
            let read = crate::workspace::loaded(ws.files, source)->Ok_0;
            let name = ws.relations.relations[i].name;
            let raws = crate::meta::links_at(read.1.meta, name);
            let carried = carried_texts(ws, moved, from, moves)->Ok_0;
            let planned = all_rerooted(ws, carried, moved, from, moves)->Ok_0;
            &&& crate::walk::surveyed(ws, crate::walk::root_of(ws, anchor, inverse)).contains(
                source,
            )
            &&& !crate::path::is_within(source, from)
            &&& !crate::landing::any_touches(landing_ops(planned, moves), source)
            &&& 0 <= k < raws.len()
            &&& crate::landing::can_follow(ws, source, name, raws[k], moved, moves)
            &&& ws.files[j].0 == crate::landing::place_of(source, raws[k])
            &&& crate::files::lookup(ws.files, ws.files[j].0) is Some
        }),
    ensures
        ({
            let moves = MovesView::Tree(from, to);
            let read = crate::workspace::loaded(ws.files, source)->Ok_0;
            let name = ws.relations.relations[i].name;
            let raws = crate::meta::links_at(read.1.meta, name);
            exists|touches: Seq<crate::reading::Touch>|
                #[trigger] crate::reading::reads_through(source, read.0, touches)
                    ==> crate::following::leads_there(
                    ws,
                    after,
                    source,
                    name,
                    k,
                    crate::maintain::landing_or_same(
                        moves,
                        crate::landing::place_of(source, raws[k]),
                    ),
                )
        }),
{
    let moves = MovesView::Tree(from, to);
    let moved = paths_within(ws.files, from);
    let read = crate::workspace::loaded(ws.files, source)->Ok_0;
    crate::landing::law_survey_follows(
        ws,
        crate::walk::anchor_of(ws, from),
        inverse,
        moves,
        Movers::Skip,
        source,
    );
    let touches = crate::following::law_followed_touches(ws, source, read, moved, moves);
    if crate::reading::reads_through(source, read.0, touches) {
        law_tree_keeps_reading(ws, from, to, after, inverse, source, i, k, j);
    }
}

} // verus!
