//! Changes that an operation plans, and their landing as one.

use crate::error::{Error, Fault};
use crate::files::{FileData, Op, OpView};
use crate::link::Addressing;
use crate::maintain::{Moves, MovesView};
use crate::path::opt_text;
use crate::registry::{Registry, Trigger};
use crate::workspace::{Outcome, Workspace, WsView};
use vstd::prelude::*;

verus! {

/// What an operation is about to do: changes to the files, and the identifiers, the
/// root and the parked directories as they will be.
#[derive(Debug, PartialEq, Eq)]
pub struct ChangeSet {
    /// The changes to the files, in order.
    pub ops: Vec<Op>,
    /// The identifiers of documents.
    pub registry: Registry,
    /// How many identifiers were drawn.
    pub issued: u64,
    /// The documents that got an identifier.
    pub fresh: Vec<String>,
    /// The document the workspace starts at.
    pub root: Option<String>,
    /// Directories whose files are not maintained.
    pub parked: Vec<String>,
}

/// What a [`ChangeSet`] holds.
pub struct ChangeView {
    pub ops: Seq<OpView>,
    pub ids: crate::registry::IdSeq,
    pub issued: u64,
    pub fresh: Seq<Seq<char>>,
    pub root: Option<Seq<char>>,
    pub parked: Seq<Seq<char>>,
}

impl View for ChangeSet {
    type V = ChangeView;

    open spec fn view(&self) -> ChangeView {
        ChangeView {
            ops: crate::files::ops_view(self.ops@),
            ids: self.registry@,
            issued: self.issued,
            fresh: crate::text::texts(self.fresh@),
            root: opt_text(self.root),
            parked: crate::text::texts(self.parked@),
        }
    }
}

impl ChangeView {
    /// One more change.
    pub open spec fn with(self, op: OpView) -> ChangeView {
        ChangeView { ops: self.ops.push(op), ..self }
    }

    /// More changes.
    pub open spec fn with_all(self, ops: Seq<OpView>) -> ChangeView {
        ChangeView { ops: self.ops + ops, ..self }
    }

    /// Other identifiers.
    pub open spec fn with_ids(self, ids: crate::registry::IdSeq) -> ChangeView {
        ChangeView { ids, ..self }
    }

    /// One more parked directory.
    pub open spec fn parking(self, dir: Seq<char>) -> ChangeView {
        if self.parked.contains(dir) {
            self
        } else {
            ChangeView { parked: self.parked.push(dir), ..self }
        }
    }

    /// The root and the parked directories go along with a move.
    pub open spec fn along(self, moves: MovesView) -> ChangeView {
        ChangeView {
            root: root_along(self.root, moves),
            parked: all_along(self.parked, moves),
            ..self
        }
    }
}

/// Where the root is after a move.
pub open spec fn root_along(root: Option<Seq<char>>, moves: MovesView) -> Option<Seq<char>> {
    match root {
        Some(path) => Some(crate::maintain::landing_or_same(moves, path)),
        None => None,
    }
}

/// Where these paths are after a move.
pub open spec fn all_along(paths: Seq<Seq<char>>, moves: MovesView) -> Seq<Seq<char>> {
    paths.map_values(|path: Seq<char>| crate::maintain::landing_or_same(moves, path))
}

/// A text that takes the place of another one.
#[derive(Debug, PartialEq, Eq)]
pub struct Rewrite {
    /// The document.
    pub path: String,
    /// The text that was read.
    pub read: String,
    /// The text to write.
    pub text: String,
}

/// What a [`Rewrite`] holds.
pub struct RewriteView {
    pub path: Seq<char>,
    pub read: Seq<char>,
    pub text: Seq<char>,
}

impl View for Rewrite {
    type V = RewriteView;

    open spec fn view(&self) -> RewriteView {
        RewriteView { path: self.path@, read: self.read@, text: self.text@ }
    }
}

/// What rewrites hold.
pub open spec fn rewrites_view(v: Seq<Rewrite>) -> Seq<RewriteView> {
    v.map_values(|w: Rewrite| w@)
}

/// The changes that make rewrites: each expects what was read.
pub open spec fn rewrite_ops(v: Seq<RewriteView>) -> Seq<OpView>
    decreases v.len(),
{
    if v.len() == 0 {
        Seq::empty()
    } else {
        rewrite_ops(v.drop_last()).push(OpView::Expect(v.last().path, v.last().read)).push(
            crate::files::write_text(v.last().path, v.last().text),
        )
    }
}

impl ChangeSet {
    fn push(&mut self, op: Op)
        ensures
            final(self)@ == old(self)@.with(op@),
            final(self).registry == old(self).registry,
    {
        let ghost before = crate::files::ops_view(self.ops@);
        self.ops.push(op);
        proof {
            assert(crate::files::ops_view(self.ops@) =~= before.push(op@));
        }
    }

    /// A document must hold this text.
    pub fn expect(&mut self, path: &str, text: &str)
        ensures
            final(self)@ == old(self)@.with(OpView::Expect(path@, text@)),
    {
        self.push(Op::Expect(path.to_owned(), text.to_owned()));
    }

    /// There must be no file at a path.
    pub fn expect_absent(&mut self, path: &str)
        ensures
            final(self)@ == old(self)@.with(OpView::ExpectAbsent(path@)),
    {
        self.push(Op::ExpectAbsent(path.to_owned()));
    }

    /// A document is written.
    pub fn write(&mut self, path: &str, text: &str)
        ensures
            final(self)@ == old(self)@.with(crate::files::write_text(path@, text@)),
    {
        self.push(Op::Write(path.to_owned(), FileData::Text(text.to_owned())));
    }

    /// A file is written.
    pub fn write_data(&mut self, path: &str, data: FileData)
        ensures
            final(self)@ == old(self)@.with(OpView::Write(path@, data@)),
    {
        self.push(Op::Write(path.to_owned(), data));
    }

    /// A file is renamed.
    pub fn rename(&mut self, from: &str, to: &str)
        ensures
            final(self)@ == old(self)@.with(OpView::Rename(from@, to@)),
    {
        self.push(Op::Rename(from.to_owned(), to.to_owned()));
    }

    /// A file is removed.
    pub fn remove(&mut self, path: &str)
        ensures
            final(self)@ == old(self)@.with(OpView::Remove(path@)),
    {
        self.push(Op::Remove(path.to_owned()));
    }

    /// Documents are rewritten, each provided that it still holds what was read.
    pub fn rewrite(&mut self, rewrites: &Vec<Rewrite>)
        ensures
            final(self)@ == old(self)@.with_all(rewrite_ops(rewrites_view(rewrites@))),
    {
        let ghost start = self@;
        let ghost all = rewrites_view(rewrites@);
        let mut i: usize = 0;
        proof {
            assert(all.take(0) =~= Seq::empty());
            assert(start.with_all(Seq::empty()).ops =~= start.ops);
        }
        while i < rewrites.len()
            invariant
                i <= rewrites@.len(),
                all == rewrites_view(rewrites@),
                self@ == start.with_all(rewrite_ops(all.take(i as int))),
            decreases rewrites@.len() - i,
        {
            let w = &rewrites[i];
            proof {
                assert(all.take(i + 1).drop_last() =~= all.take(i as int));
                assert(all.take(i + 1).last() == w@);
            }
            let ghost before = self@;
            self.expect(&w.path, &w.read);
            self.write(&w.path, &w.text);
            proof {
                assert(self@.ops =~= start.with_all(rewrite_ops(all.take(i + 1))).ops);
            }
            i = i + 1;
        }
        proof {
            assert(all.take(i as int) =~= all);
        }
    }

    /// What the changes write at `path`.
    fn find_written(&self, path: &str) -> (r: Option<&FileData>)
        ensures
            match r {
                Some(d) => written(self@.ops, path@) == Some(d@),
                None => written(self@.ops, path@) is None,
            },
    {
        let ghost all = self@.ops;
        let mut i: usize = self.ops.len();
        proof {
            assert(all.take(i as int) =~= all);
        }
        while i > 0
            invariant
                i <= self.ops@.len(),
                all == self@.ops,
                written(all, path@) == written(all.take(i as int), path@),
            decreases i,
        {
            proof {
                assert(all.take(i as int).last() == self.ops@[i - 1]@);
                assert(all.take(i as int).drop_last() =~= all.take(i - 1));
            }
            match &self.ops[i - 1] {
                Op::Write(p, data) => if crate::text::same_text(p, path) {
                    return Some(data);
                },
                _ => {},
            }
            i = i - 1;
        }
        None
    }

    /// Has `path` carry `id`.
    pub fn bind(&mut self, id: &str, path: &str)
        ensures
            final(self)@ == old(self)@.with_ids(crate::registry::bound(old(self)@.ids, id@, path@)),
    {
        self.registry.register(id, path);
    }

    /// Has a directory be parked.
    pub fn park(&mut self, dir: &str)
        ensures
            final(self)@ == old(self)@.parking(dir@),
    {
        if !crate::walk::among(&self.parked, dir) {
            crate::walk::push_text(&mut self.parked, dir.to_owned());
        }
    }

    /// Has the root and the parked directories go along with a move.
    pub fn go_along(&mut self, moves: &Moves)
        ensures
            final(self)@ == old(self)@.along(moves@),
    {
        let ghost before = self@;
        self.root = match &self.root {
            Some(path) => Some(moves.landed_or_same(path)),
            None => None,
        };
        let mut parked = crate::walk::no_texts();
        let mut i: usize = 0;
        while i < self.parked.len()
            invariant
                i <= self.parked@.len(),
                self@.parked == before.parked,
                before.parked.len() == self.parked@.len(),
                crate::text::texts(parked@) == all_along(before.parked.take(i as int), moves@),
                self@ == (ChangeView { root: root_along(before.root, moves@), ..before }),
            decreases self.parked@.len() - i,
        {
            proof {
                assert(before.parked[i as int] == self.parked@[i as int]@);
                assert(all_along(before.parked.take(i + 1), moves@) =~= all_along(
                    before.parked.take(i as int),
                    moves@,
                ).push(crate::maintain::landing_or_same(moves@, before.parked[i as int])));
            }
            crate::walk::push_text(&mut parked, moves.landed_or_same(&self.parked[i]));
            i = i + 1;
        }
        proof {
            assert(before.parked.take(i as int) =~= before.parked);
        }
        self.parked = parked;
    }

    /// Retires `id`.
    pub fn retire(&mut self, id: &str)
        ensures
            final(self)@ == old(self)@.with_ids(crate::registry::retired(old(self)@.ids, id@)),
    {
        self.registry.unregister(id);
    }
}

/// No changes to a workspace.
pub open spec fn no_change(ws: WsView) -> ChangeView {
    ChangeView {
        ops: Seq::empty(),
        ids: ws.ids,
        issued: ws.issued,
        fresh: Seq::empty(),
        root: ws.root,
        parked: ws.parked,
    }
}

/// The identifier of the document at `path`, which gets one where it has none.
pub open spec fn identified(settings: crate::workspace::Settings, cs: ChangeView, path: Seq<char>) ->
    Outcome<(Seq<char>, ChangeView)> {
    match crate::registry::id_at(cs.ids, path) {
        Some(id) => Ok((id, cs)),
        None => match crate::registry::fresh_from(cs.ids, settings.seed, cs.issued) {
            Some(n) => {
                let id = crate::registry::minted(crate::registry::nth_seed(settings.seed, n));
                Ok(
                    (
                        id,
                        ChangeView {
                            ids: crate::registry::bound(cs.ids, id, path),
                            issued: (n + 1) as u64,
                            fresh: cs.fresh.push(path),
                            ..cs
                        },
                    ),
                )
            },
            None => Err(Fault::IdsExhausted),
        },
    }
}

/// The reference that a relation of `from` gets to `to`, and the changes with
/// the identifier that this takes.
pub open spec fn authored(
    ws: WsView,
    cs: ChangeView,
    relation: Seq<char>,
    from: Seq<char>,
    to: Seq<char>,
    title: Seq<char>,
) -> Outcome<(Seq<char>, ChangeView)> {
    let style = crate::workspace::reference_style(ws, relation);
    let known = crate::registry::id_at(cs.ids, to);
    if style.addressing == Addressing::Id && known is None && ws.settings.registration.fires(
        Trigger::Link,
    ) {
        match identified(ws.settings, cs, to) {
            Ok((id, cs)) => Ok((crate::link::reference_of(style, from, to, Some(id), title), cs)),
            Err(e) => Err(e),
        }
    } else {
        Ok((crate::link::reference_of(style, from, to, known, title), cs))
    }
}

/// The changes with an identifier for a new document, where new documents get
/// one.
pub open spec fn registered_on_create(ws: WsView, cs: ChangeView, path: Seq<char>) -> Outcome<
    ChangeView,
> {
    if ws.settings.registration.fires(Trigger::Create) {
        match identified(ws.settings, cs, path) {
            Ok((_, cs)) => Ok(cs),
            Err(e) => Err(e),
        }
    } else {
        Ok(cs)
    }
}

/// What the changes write at `path`.
pub open spec fn written(ops: Seq<OpView>, path: Seq<char>) -> Option<crate::files::FileView>
    decreases ops.len(),
{
    if ops.len() == 0 {
        None
    } else {
        match ops.last() {
            OpView::Write(p, data) => if p == path {
                Some(data)
            } else {
                written(ops.drop_last(), path)
            },
            _ => written(ops.drop_last(), path),
        }
    }
}

/// The text of a document as the changes leave it; none where there is no such
/// document.
pub open spec fn text_after(ws: WsView, cs: ChangeView, path: Seq<char>) -> Option<Seq<char>> {
    match written(cs.ops, path) {
        Some(crate::files::FileView::Text(text)) => Some(text),
        Some(crate::files::FileView::Bytes(_)) => None,
        None => match crate::files::lookup(ws.files, path) {
            Some(crate::files::FileView::Text(text)) => Some(text),
            _ => None,
        },
    }
}

/// The changes with a document carrying its identifier itself.
pub open spec fn one_stamped(ws: WsView, cs: ChangeView, path: Seq<char>) -> Outcome<ChangeView> {
    match (text_after(ws, cs, path), crate::registry::id_at(cs.ids, path)) {
        (Some(text), Some(id)) => match crate::document::parsed(path, text) {
            None => Err(Fault::Metadata(path)),
            Some(doc) => if crate::meta::field(doc.meta, "id"@) is Some {
                Ok(cs)
            } else {
                match crate::document::set_in(
                    text,
                    doc.carrier,
                    "id"@,
                    crate::meta::MetaView::Text(id),
                ) {
                    Some(out) => Ok(cs.with(crate::files::write_text(path, out))),
                    None => Err(Fault::Metadata(path)),
                }
            },
        },
        _ => Ok(cs),
    }
}

/// The changes with these documents carrying their identifiers themselves.
pub open spec fn all_stamped(ws: WsView, cs: ChangeView, paths: Seq<Seq<char>>) -> Outcome<
    ChangeView,
>
    decreases paths.len(),
{
    if paths.len() == 0 {
        Ok(cs)
    } else {
        match all_stamped(ws, cs, paths.drop_last()) {
            Err(e) => Err(e),
            Ok(cs) => one_stamped(ws, cs, paths.last()),
        }
    }
}

/// The changes with every document that got an identifier carrying it itself,
/// where documents do.
pub open spec fn stamped(ws: WsView, cs: ChangeView) -> Outcome<ChangeView> {
    if ws.settings.id_storage.stamps() {
        all_stamped(ws, cs, cs.fresh)
    } else {
        Ok(cs)
    }
}

/// What was planned, with every document that got an identifier carrying it
/// itself, where documents do.
pub open spec fn with_stamps<T>(ws: WsView, plan: Outcome<(ChangeView, T)>) -> Outcome<
    (ChangeView, T),
> {
    match plan {
        Err(e) => Err(e),
        Ok((cs, given)) => match stamped(ws, cs) {
            Ok(cs) => Ok((cs, given)),
            Err(e) => Err(e),
        },
    }
}

proof fn lemma_stamps_fail(ws: WsView, cs: ChangeView, paths: Seq<Seq<char>>, n: int)
    requires
        0 <= n <= paths.len(),
        all_stamped(ws, cs, paths.take(n)) is Err,
    ensures
        all_stamped(ws, cs, paths) == all_stamped(ws, cs, paths.take(n)),
    decreases paths.len(),
{
    if n == paths.len() {
        assert(paths.take(n) =~= paths);
    } else {
        assert(paths.drop_last().take(n) =~= paths.take(n));
        lemma_stamps_fail(ws, cs, paths.drop_last(), n);
    }
}

/// The workspace after changes, or why none of them is made.
pub open spec fn landed(ws: WsView, cs: ChangeView) -> Outcome<WsView> {
    match crate::files::applied(ws.files, cs.ops) {
        Ok(files) => Ok(
            WsView {
                files,
                ids: cs.ids,
                issued: cs.issued,
                root: cs.root,
                parked: cs.parked,
                ..ws
            },
        ),
        Err(e) => Err(e),
    }
}

/// The workspace after what was planned, and what that gives; or why nothing is
/// done.
pub open spec fn carried_out<T>(ws: WsView, plan: Outcome<(ChangeView, T)>) -> Outcome<
    (WsView, T),
> {
    match plan {
        Err(e) => Err(e),
        Ok((cs, given)) => match landed(ws, cs) {
            Ok(after) => Ok((after, given)),
            Err(e) => Err(e),
        },
    }
}

/// An identifier keeps a path from being taken by another document: it carries
/// a different one.
pub open spec fn move_objection(ids: crate::registry::IdSeq, id: Seq<char>, path: Seq<char>) ->
    Option<Fault<Seq<char>>> {
    match crate::registry::id_at(ids, path) {
        Some(held) => if held != id {
            Some(Fault::PathTaken(path, held))
        } else {
            None
        },
        None => None,
    }
}

impl Workspace {
    /// No changes yet.
    pub fn change(&self) -> (r: ChangeSet)
        ensures
            r@ == no_change(self@),
    {
        let r = ChangeSet {
            ops: Vec::new(),
            registry: self.registry.copy(),
            issued: self.issued,
            fresh: crate::walk::no_texts(),
            root: self.root.clone(),
            parked: crate::walk::copy_texts(&self.parked),
        };
        proof {
            assert(r@.ops =~= Seq::empty());
        }
        r
    }

    /// The identifier of the document at `path`, which gets one where it has
    /// none.
    pub fn identify(&self, cs: &mut ChangeSet, path: &str) -> (r: Result<String, Error>)
        ensures
            match r {
                Ok(id) => identified(self@.settings, old(cs)@, path@) == Ok::<
                    (Seq<char>, ChangeView),
                    Fault<Seq<char>>,
                >((id@, final(cs)@)),
                Err(e) => identified(self@.settings, old(cs)@, path@) == Err::<
                    (Seq<char>, ChangeView),
                    Fault<Seq<char>>,
                >(crate::error::fault(e)),
            },
    {
        match cs.registry.id_for_path(path) {
            Some(id) => Ok(id),
            None => match crate::registry::issue(&cs.registry, self.settings.seed, cs.issued) {
                Some((id, next)) => {
                    cs.registry.register(&id, path);
                    cs.issued = next;
                    crate::walk::push_text(&mut cs.fresh, path.to_owned());
                    Ok(id)
                },
                None => Err(Fault::IdsExhausted),
            },
        }
    }

    /// The reference that a relation of `from` gets to `to`. Where references
    /// of the relation go by identifier, `to` gets one if it has none and the
    /// policy allows it.
    pub fn authored_target(
        &self,
        cs: &mut ChangeSet,
        relation: &str,
        from: &str,
        to: &str,
        title: &str,
    ) -> (r: Result<String, Error>)
        ensures
            match r {
                Ok(text) => authored(self@, old(cs)@, relation@, from@, to@, title@) == Ok::<
                    (Seq<char>, ChangeView),
                    Fault<Seq<char>>,
                >((text@, final(cs)@)),
                Err(e) => authored(self@, old(cs)@, relation@, from@, to@, title@) == Err::<
                    (Seq<char>, ChangeView),
                    Fault<Seq<char>>,
                >(crate::error::fault(e)),
            },
    {
        let style = self.reference_style_for(relation);
        let mut id = cs.registry.id_for_path(to);
        if style.addressing == Addressing::Id && id.is_none() && self.settings.registration.fires_on(
            Trigger::Link,
        ) {
            match self.identify(cs, to) {
                Ok(fresh) => {
                    id = Some(fresh);
                },
                Err(e) => {
                    return Err(e);
                },
            }
        }
        Ok(crate::link::format_reference(style, from, to, &id, title))
    }

    /// Gives a new document an identifier, where new documents get one.
    pub fn register_on_create(&self, cs: &mut ChangeSet, path: &str) -> (r: Result<(), Error>)
        ensures
            match r {
                Ok(_) => registered_on_create(self@, old(cs)@, path@) == Ok::<
                    ChangeView,
                    Fault<Seq<char>>,
                >(final(cs)@),
                Err(e) => registered_on_create(self@, old(cs)@, path@) == Err::<
                    ChangeView,
                    Fault<Seq<char>>,
                >(crate::error::fault(e)),
            },
    {
        if self.settings.registration.fires_on(Trigger::Create) {
            match self.identify(cs, path) {
                Ok(_) => Ok(()),
                Err(e) => Err(e),
            }
        } else {
            Ok(())
        }
    }

    fn read_after(&self, cs: &ChangeSet, path: &str) -> (r: Option<String>)
        ensures
            opt_text(r) == text_after(self@, cs@, path@),
    {
        match cs.find_written(path) {
            Some(FileData::Text(text)) => Some(text.clone()),
            Some(FileData::Bytes(_)) => None,
            None => match self.files.get(path) {
                Some(FileData::Text(text)) => Some(text.clone()),
                _ => None,
            },
        }
    }

    fn stamp_one(&self, cs: &mut ChangeSet, path: &str) -> (r: Result<(), Error>)
        ensures
            ({
                let out = one_stamped(self@, old(cs)@, path@);
                match r {
                    Ok(_) => out matches Ok(c) && c == final(cs)@,
                    Err(e) => out matches Err(f) && f == crate::error::fault(e),
                }
            }),
    {
        match (self.read_after(cs, path), cs.registry.id_for_path(path)) {
            (Some(text), Some(id)) => match crate::document::Document::parse(path, &text) {
                None => Err(Fault::Metadata(path.to_owned())),
                Some(doc) => {
                    if doc.meta.get("id").is_some() {
                        return Ok(());
                    }
                    let value = crate::meta::Meta::Text(id);
                    match crate::document::set_in_text(&text, doc.carrier, "id", &value) {
                        Some(out) => {
                            cs.write(path, &out);
                            Ok(())
                        },
                        None => Err(Fault::Metadata(path.to_owned())),
                    }
                },
            },
            _ => Ok(()),
        }
    }

    /// Has every document that got an identifier carry it itself, where documents
    /// do.
    pub fn stamp_ids(&self, cs: ChangeSet) -> (r: Result<ChangeSet, Error>)
        ensures
            match r {
                Ok(out) => stamped(self@, cs@) matches Ok(c) && c == out@,
                Err(e) => stamped(self@, cs@) matches Err(f) && f == crate::error::fault(e),
            },
    {
        if !self.settings.id_storage.writes_frontmatter() {
            return Ok(cs);
        }
        let ghost start = cs@;
        let ghost all = cs@.fresh;
        let mut out = cs;
        let n: usize = out.fresh.len();
        let mut i: usize = 0;
        proof {
            assert(all.take(0) =~= Seq::empty());
        }
        while i < n
            invariant
                i <= n,
                start == cs@,
                all == start.fresh,
                n == all.len(),
                out@.fresh == all,
                out@.fresh.len() == out.fresh@.len(),
                self@.settings.id_storage.stamps(),
                all_stamped(self@, start, all.take(i as int)) matches Ok(c) && c == out@,
            decreases n - i,
        {
            let path = out.fresh[i].clone();
            proof {
                assert(all.take(i + 1).drop_last() =~= all.take(i as int));
                assert(all.take(i + 1).last() == path@) by {
                    assert(crate::text::texts(out.fresh@)[i as int] == out.fresh@[i as int]@);
                }
            }
            match self.stamp_one(&mut out, &path) {
                Ok(_) => {},
                Err(e) => {
                    proof {
                        lemma_stamps_fail(self@, start, all, i + 1);
                    }
                    return Err(e);
                },
            }
            i = i + 1;
        }
        proof {
            assert(all.take(i as int) =~= all);
        }
        Ok(out)
    }

    /// Why `path` cannot be taken by the document that carries `id`.
    pub fn move_conflict(&self, id: &str, path: &str) -> (r: Option<Error>)
        ensures
            crate::files::fault_opt(r) == move_objection(self@.ids, id@, path@),
    {
        match self.registry.id_for_path(path) {
            Some(held) => if !crate::text::same_text(&held, id) {
                Some(Fault::PathTaken(path.to_owned(), held))
            } else {
                None
            },
            None => None,
        }
    }

    /// Makes all of the changes, to the files and to the identifiers, or none.
    pub fn commit(&mut self, cs: ChangeSet) -> (r: Result<(), Error>)
        ensures
            match r {
                Ok(_) => landed(old(self)@, cs@) == Ok::<WsView, Fault<Seq<char>>>(final(self)@),
                Err(e) => landed(old(self)@, cs@) == Err::<WsView, Fault<Seq<char>>>(
                    crate::error::fault(e),
                ) && *final(self) == *old(self),
            },
    {
        match self.files.apply(&cs.ops) {
            Ok(_) => {
                self.registry = cs.registry;
                self.issued = cs.issued;
                self.root = cs.root;
                self.parked = cs.parked;
                Ok(())
            },
            Err(e) => Err(e),
        }
    }

    /// Gives the document at `path` an identifier, on an occasion on which
    /// documents get one. One that it has stays.
    pub fn register(&mut self, path: &str, event: Trigger) -> (r: Result<String, Error>)
        ensures
            ({
                let path = crate::path::normalized(path@);
                let known = crate::registry::id_at(old(self)@.ids, path);
                let given = identified(old(self)@.settings, no_change(old(self)@), path);
                match r {
                    Ok(id) => crate::files::occupied(old(self)@.files, path) && (known is Some || old(
                        self,
                    )@.settings.registration.fires(event)) && (match given {
                        Ok((given_id, cs)) => id@ == given_id && final(self)@ == (WsView {
                            ids: cs.ids,
                            issued: cs.issued,
                            ..old(self)@
                        }),
                        Err(_) => false,
                    }),
                    Err(e) => *final(self) == *old(self) && crate::error::fault(e) == (
                    if !crate::files::occupied(old(self)@.files, path) {
                        Fault::NotFound(path)
                    } else if known is None && !old(self)@.settings.registration.fires(event) {
                        Fault::DoesNotRegister(path)
                    } else {
                        Fault::IdsExhausted
                    }) && (crate::files::occupied(old(self)@.files, path) && (known is Some || old(
                        self,
                    )@.settings.registration.fires(event)) ==> given is Err),
                }
            }),
    {
        let path = crate::path::normalize(path);
        if !self.is_taken(&path) {
            return Err(Fault::NotFound(path));
        }
        if self.registry.id_for_path(&path).is_none() && !self.settings.registration.fires_on(
            event,
        ) {
            return Err(Fault::DoesNotRegister(path));
        }
        let mut cs = self.change();
        match self.identify(&mut cs, &path) {
            Ok(id) => {
                self.registry = cs.registry;
                self.issued = cs.issued;
                Ok(id)
            },
            Err(e) => Err(e),
        }
    }
}

/// Stamps are written after all other changes, to the documents that are stamped.
pub proof fn lemma_stamped_ops(ws: WsView, cs: ChangeView, paths: Seq<Seq<char>>, path: Seq<char>)
    requires
        !paths.contains(path),
        all_stamped(ws, cs, paths) is Ok,
    ensures
        all_stamped(ws, cs, paths) matches Ok(out) && out.ids == cs.ids
            && cs.ops.len() <= out.ops.len() && out.ops.take(cs.ops.len() as int) == cs.ops && (
        forall|i: int|
            cs.ops.len() <= i < out.ops.len() ==> !crate::landing::touches(
                #[trigger] out.ops[i],
                path,
            )),
    decreases paths.len(),
{
    if paths.len() == 0 {
        assert(cs.ops.take(cs.ops.len() as int) =~= cs.ops);
    } else {
        let rest = paths.drop_last();
        let n = paths.len() - 1;
        assert(!rest.contains(path)) by {
            if rest.contains(path) {
                let i = choose|i: int| 0 <= i < rest.len() && rest[i] == path;
                assert(paths[i] == path);
            }
        }
        lemma_stamped_ops(ws, cs, rest, path);
        assert(paths[n] != path) by {
            assert(paths.contains(paths[n]));
        }
        let before = all_stamped(ws, cs, rest)->Ok_0;
        let out = all_stamped(ws, cs, paths)->Ok_0;
        assert(out.ops.take(cs.ops.len() as int) =~= cs.ops) by {
            assert(before.ops.take(cs.ops.len() as int) == cs.ops);
            assert forall|i: int| 0 <= i < cs.ops.len() implies out.ops[i] == cs.ops[i] by {
                assert(before.ops.take(cs.ops.len() as int)[i] == before.ops[i]);
            }
        }
        assert forall|i: int| cs.ops.len() <= i < out.ops.len() implies !crate::landing::touches(
            #[trigger] out.ops[i],
            path,
        ) by {
            if i < before.ops.len() {
                assert(out.ops[i] == before.ops[i]);
            }
        }
    }
}


/// Whether a reference of `from` to `to` can be authored so that it reads back: by
/// path, or by an identifier that is plain.
pub open spec fn can_author(
    style: crate::link::ReferenceStyle,
    from: Seq<char>,
    to: Seq<char>,
    id: Option<Seq<char>>,
    title: Seq<char>,
) -> bool {
    &&& !(style.addressing is Alias)
    &&& crate::path::is_inside(to)
    &&& match (style.addressing, id) {
        (Addressing::Id, Some(id)) => crate::link::is_spelled(
            crate::link::id_link(style, id, title),
        ) && !crate::link::needs_brackets("id:"@ + id) && !crate::link::is_external("id:"@ + id)
            && id.len() > 0 && !id.contains('/') && !("id:"@ + id).contains('#'),
        _ => crate::link::is_spelled(crate::link::path_link(style, from, to, title))
            && crate::path::is_inside(crate::path::parent_of(from)) && crate::link::is_path_target(
            crate::link::path_text_of(style.path_style, from, to),
        ) && !crate::link::path_text_of(style.path_style, from, to).contains('#'),
    }
}

/// A reference that is authored leads where it should, by the identifiers that the
/// changes leave.
pub proof fn law_authored_leads(
    ws: WsView,
    cs: ChangeView,
    relation: Seq<char>,
    from: Seq<char>,
    to: Seq<char>,
    title: Seq<char>,
)
    requires
        crate::registry::is_sound(cs.ids),
        authored(ws, cs, relation, from, to, title) matches Ok((_, out)) && can_author(
            crate::workspace::reference_style(ws, relation),
            from,
            to,
            crate::registry::id_at(out.ids, to),
            title,
        ),
    ensures
        authored(ws, cs, relation, from, to, title) matches Ok((raw, out))
            && crate::workspace::reference_path(out.ids, ws.name, from, raw) == Some(to)
            && crate::registry::is_sound(out.ids),
{
    let style = crate::workspace::reference_style(ws, relation);
    let (raw, out) = authored(ws, cs, relation, from, to, title)->Ok_0;
    let known = crate::registry::id_at(cs.ids, to);
    match crate::registry::fresh_from(cs.ids, ws.settings.seed, cs.issued) {
        Some(n) => {
            let id = crate::registry::minted(crate::registry::nth_seed(ws.settings.seed, n));
            crate::registry::law_sound_kept(cs.ids, id, to);
            crate::registry::law_bound(cs.ids, id, to, id);
        },
        None => {},
    }
    match (style.addressing, crate::registry::id_at(out.ids, to)) {
        (Addressing::Id, Some(id)) => {
            crate::link::law_id_reference_names(style, from, to, id, title);
            crate::registry::law_sound_agrees(out.ids, id, to);
        },
        (_, id) => {
            crate::link::law_path_reference_arrives(style, from, to, id, title);
        },
    }
}

/// A document that gets an identifier takes none from another one: every reference
/// that led somewhere leads there still.
pub proof fn law_identified_keeps(ws: WsView, cs: ChangeView, path: Seq<char>)
    requires
        crate::registry::is_sound(cs.ids),
    ensures
        identified(ws.settings, cs, path) matches Ok((_, out)) ==> crate::registry::keeps_paths(
            cs.ids,
            out.ids,
        ) && crate::registry::is_sound(out.ids),
{
    match (
        crate::registry::id_at(cs.ids, path),
        crate::registry::fresh_from(cs.ids, ws.settings.seed, cs.issued),
    ) {
        (None, Some(_)) => {
            crate::registry::law_fresh_keeps_paths(
                cs.ids,
                ws.settings.seed,
                cs.issued,
                path,
            );
        },
        _ => {},
    }
}

/// Stamping changes no identifier, nor which documents got one, nor where the workspace
/// starts.
pub proof fn lemma_stamps_keep(ws: WsView, cs: ChangeView, paths: Seq<Seq<char>>)
    ensures
        all_stamped(ws, cs, paths) matches Ok(out) ==> out.fresh == cs.fresh
            && out.ids == cs.ids && out.root == cs.root && out.parked == cs.parked,
    decreases paths.len(),
{
    if paths.len() > 0 {
        lemma_stamps_keep(ws, cs, paths.drop_last());
    }
}

/// Stamping writes only at the documents that got an identifier, and changes no
/// identifier.
pub proof fn lemma_stamps_write(
    ws: WsView,
    cs: ChangeView,
    fresh: Seq<Seq<char>>,
    paths: Seq<Seq<char>>,
)
    requires
        crate::landing::only_writes(cs.ops, paths),
        forall|i: int| 0 <= i < fresh.len() ==> paths.contains(#[trigger] fresh[i]),
    ensures
        all_stamped(ws, cs, fresh) matches Ok(out) ==> crate::landing::only_writes(out.ops, paths)
            && out.ids == cs.ids,
    decreases fresh.len(),
{
    if fresh.len() > 0 {
        let rest = fresh.drop_last();
        assert forall|i: int| 0 <= i < rest.len() implies paths.contains(#[trigger] rest[i]) by {
            assert(paths.contains(fresh[i]));
        }
        lemma_stamps_write(ws, cs, rest, paths);
        assert(paths.contains(fresh[fresh.len() - 1]));
        match all_stamped(ws, cs, rest) {
            Ok(before) => {
                match one_stamped(ws, before, fresh.last()) {
                    Ok(out) => {
                        assert(out.ops == before.ops || (out.ops.len() == before.ops.len() + 1
                            && out.ops.drop_last() =~= before.ops));
                        assert forall|i: int| 0 <= i < out.ops.len() implies crate::landing::writes_at(
                            #[trigger] out.ops[i],
                            paths,
                        ) by {
                            if i < before.ops.len() {
                                assert(crate::landing::writes_at(before.ops[i], paths));
                            }
                        }
                    },
                    Err(_) => {},
                }
            },
            Err(_) => {},
        }
    }
}

/// What only writes at some documents, and gives identifiers to some of those, leaves
/// a workspace whole, stamped or not.
pub proof fn lemma_written_stays_whole<T>(
    ws: WsView,
    plan: crate::workspace::Outcome<(ChangeView, T)>,
    paths: Seq<Seq<char>>,
    after: WsView,
)
    requires
        plan matches Ok((cs, _)) && crate::landing::only_writes(cs.ops, paths) && (forall|i: int|
            0 <= i < cs.fresh.len() ==> paths.contains(#[trigger] cs.fresh[i]))
            && crate::registry::keeps_paths(ws.ids, cs.ids) && cs.root == ws.root && cs.parked
            == ws.parked,
        with_stamps(ws, plan) matches Ok((cs, _)) && landed(ws, cs) matches Ok(w) && w == after,
    ensures
        crate::landing::stays_whole(ws, after, paths),
        plan matches Ok((cs, _)) && after.ids == cs.ids,
{
    let (cs, _) = plan->Ok_0;
    let (out, _) = with_stamps(ws, plan)->Ok_0;
    lemma_stamps_write(ws, cs, cs.fresh, paths);
    lemma_stamps_keep(ws, cs, cs.fresh);
    assert forall|q: Seq<char>| true implies (!paths.contains(q) ==> #[trigger] crate::files::lookup(
        after.files,
        q,
    ) == crate::files::lookup(ws.files, q)) && (crate::files::lookup(ws.files, q) is Some
        ==> crate::files::lookup(after.files, q) is Some) by {
        crate::landing::law_only_writes(ws.files, out.ops, paths, q);
    }
}

} // verus!
