//! The links in the metadata of a document, and their respelling: when what they
//! reach moves, when the document moves, and when the style changes.

use crate::change::{Rewrite, RewriteView};
use crate::codec::{Step, StepView};
use crate::document::{Document, MetaCarrier};
use crate::error::{Error, Fault};
use crate::link::{Link, LinkStyle};
use crate::maintain::{respell, rewrite_body_inbound, Moves, MovesView};
use crate::meta::Meta;
use crate::path::opt_text;
use crate::text::same_text;
use crate::walk::{no_texts, push_text};
use crate::workspace::{Outcome, Workspace, WsView};
use vstd::prelude::*;

verus! {

/// What is to become of a reference in the metadata: its new spelling in a
/// style, or nothing.
pub type EntryRule = spec_fn(LinkStyle, Seq<char>) -> Option<Seq<char>>;

/// A way to respell references.
pub trait LinkRule {
    /// What is to become of each reference.
    spec fn rule(&self) -> EntryRule;

    /// What is to become of a reference: its new spelling, or nothing.
    fn apply(&self, style: LinkStyle, raw: &str) -> (r: Option<String>)
        ensures
            opt_text(r) == (self.rule())(style, raw@),
    ;
}

/// A value of the metadata that gets new text.
#[derive(Debug, PartialEq, Eq)]
pub struct Edit {
    /// Where it stands.
    pub way: Vec<Step>,
    /// The text.
    pub text: String,
}

/// What an [`Edit`] holds.
pub struct EditView {
    pub way: Seq<StepView>,
    pub text: Seq<char>,
}

impl View for Edit {
    type V = EditView;

    open spec fn view(&self) -> EditView {
        EditView { way: crate::codec::way(self.way@), text: self.text@ }
    }
}

/// What edits hold.
pub open spec fn edits_view(v: Seq<Edit>) -> Seq<EditView> {
    v.map_values(|e: Edit| e@)
}

/// The edits that a rule asks for in a list. Items that are not text are left
/// alone.
pub open spec fn item_edits(
    field: Seq<char>,
    items: Seq<crate::meta::MetaView>,
    style: LinkStyle,
    rule: EntryRule,
) -> Seq<EditView>
    decreases items.len(),
{
    if items.len() == 0 {
        Seq::empty()
    } else {
        let rest = item_edits(field, items.drop_last(), style, rule);
        match items.last() {
            crate::meta::MetaView::Text(raw) => match rule(style, raw) {
                Some(text) => rest.push(
                    EditView { way: crate::document::item_way(field, items.len() - 1), text },
                ),
                None => rest,
            },
            _ => rest,
        }
    }
}

/// The edits that a rule asks for in a field.
pub open spec fn field_edits(
    field: Seq<char>,
    value: Option<crate::meta::MetaView>,
    style: LinkStyle,
    rule: EntryRule,
) -> Seq<EditView> {
    match value {
        Some(crate::meta::MetaView::Text(raw)) => match rule(style, raw) {
            Some(text) => seq![EditView { way: crate::document::key_way(field), text }],
            None => Seq::empty(),
        },
        Some(crate::meta::MetaView::List(items)) => item_edits(field, items, style, rule),
        _ => Seq::empty(),
    }
}

/// The edits that a rule asks for in the fields that are relations.
pub open spec fn relation_edits(
    ws: WsView,
    meta: crate::meta::MetaView,
    relations: Seq<crate::relation::RelationView>,
    rule: EntryRule,
) -> Seq<EditView>
    decreases relations.len(),
{
    if relations.len() == 0 {
        Seq::empty()
    } else {
        let name = relations.last().name;
        relation_edits(ws, meta, relations.drop_last(), rule) + field_edits(
            name,
            crate::meta::field(meta, name),
            crate::workspace::reference_style(ws, name).path_style,
            rule,
        )
    }
}

/// A document's text with edits made.
pub open spec fn edited(text: Seq<char>, carrier: MetaCarrier, edits: Seq<EditView>) -> Option<
    Seq<char>,
>
    decreases edits.len(),
{
    if edits.len() == 0 {
        Some(text)
    } else {
        match edited(text, carrier, edits.drop_last()) {
            Some(t) => crate::document::replace_at(
                t,
                carrier,
                edits.last().way,
                crate::meta::MetaView::Text(edits.last().text),
            ),
            None => None,
        }
    }
}

/// The edits that a rule asks for in a field.
pub fn find_edits<R: LinkRule>(
    field: &str,
    value: Option<&Meta>,
    style: LinkStyle,
    rule: &R,
    out: &mut Vec<Edit>,
)
    ensures
        edits_view(final(out)@) == edits_view(old(out)@) + field_edits(
            field@,
            match value {
                Some(v) => Some(v@),
                None => None,
            },
            style,
            rule.rule(),
        ),
{
    broadcast use crate::meta::lemma_list_view;

    let ghost before = edits_view(out@);
    match value {
        Some(Meta::Text(raw)) => match rule.apply(style, raw) {
            Some(text) => {
                let edit = Edit { way: crate::document::key_path(field), text };
                out.push(edit);
                proof {
                    assert(edits_view(out@) =~= before + seq![edit@]);
                }
            },
            None => {
                proof {
                    assert(edits_view(out@) =~= before + Seq::<EditView>::empty());
                }
            },
        },
        Some(Meta::List(items)) => {
            let ghost all = crate::meta::items_view(items@);
            let mut i: usize = 0;
            proof {
                assert(all.take(0) =~= Seq::empty());
                assert(before + item_edits(field@, all.take(0), style, rule.rule()) =~= before);
            }
            while i < items.len()
                invariant
                    i <= items@.len(),
                    all == crate::meta::items_view(items@),
                    edits_view(out@) == before + item_edits(
                        field@,
                        all.take(i as int),
                        style,
                        rule.rule(),
                    ),
                decreases items@.len() - i,
            {
                proof {
                    assert(all.take(i + 1).drop_last() =~= all.take(i as int));
                    assert(all.take(i + 1).last() == items@[i as int]@);
                }
                match &items[i] {
                    Meta::Text(raw) => match rule.apply(style, raw) {
                        Some(text) => {
                            let ghost so_far = edits_view(out@);
                            let edit = Edit { way: crate::document::item_path(field, i), text };
                            out.push(edit);
                            proof {
                                assert(edits_view(out@) =~= so_far.push(edit@));
                                assert(edits_view(out@) =~= before + item_edits(
                                    field@,
                                    all.take(i + 1),
                                    style,
                                    rule.rule(),
                                ));
                            }
                        },
                        None => {},
                    },
                    _ => {},
                }
                i = i + 1;
            }
            proof {
                assert(all.take(i as int) =~= all);
            }
        },
        _ => {
            proof {
                assert(edits_view(out@) =~= before + Seq::<EditView>::empty());
            }
        },
    }
}

/// A document's text with edits made.
pub fn make_edits(text: &str, carrier: MetaCarrier, edits: &Vec<Edit>) -> (r: Option<String>)
    ensures
        opt_text(r) == edited(text@, carrier, edits_view(edits@)),
{
    let ghost all = edits_view(edits@);
    let mut out = text.to_owned();
    let mut i: usize = 0;
    proof {
        assert(all.take(0) =~= Seq::empty());
    }
    while i < edits.len()
        invariant
            i <= edits@.len(),
            all == edits_view(edits@),
            edited(text@, carrier, all.take(i as int)) == Some(out@),
        decreases edits@.len() - i,
    {
        proof {
            assert(all.take(i + 1).drop_last() =~= all.take(i as int));
            assert(all.take(i + 1).last() == edits@[i as int]@);
        }
        let value = Meta::Text(edits[i].text.clone());
        match crate::document::replace_value(&out, carrier, &edits[i].way, &value) {
            Some(t) => {
                out = t;
            },
            None => {
                proof {
                    lemma_edited_fails(text@, carrier, all, i + 1);
                }
                return None;
            },
        }
        i = i + 1;
    }
    proof {
        assert(all.take(i as int) =~= all);
    }
    Some(out)
}

proof fn lemma_edited_fails(text: Seq<char>, carrier: MetaCarrier, edits: Seq<EditView>, n: int)
    requires
        0 <= n <= edits.len(),
        edited(text, carrier, edits.take(n)) is None,
    ensures
        edited(text, carrier, edits) is None,
    decreases edits.len(),
{
    if n == edits.len() {
        assert(edits.take(n) =~= edits);
    } else {
        assert(edits.drop_last().take(n) =~= edits.take(n));
        lemma_edited_fails(text, carrier, edits.drop_last(), n);
    }
}

/// Every path reference from `source` to `from` is sent to `to`.
pub open spec fn inbound_entry(source: Seq<char>, from: Seq<char>, to: Seq<char>) -> EntryRule {
    |style: LinkStyle, raw: Seq<char>|
        {
            let link = crate::link::parse_link(raw);
            if crate::link::is_path_target(link.target) && crate::link::resolve_path(
                source,
                link.target,
            ) == from {
                Some(crate::maintain::respelling(link, style, source, to))
            } else {
                None
            }
        }
}

/// Every path reference from `source` to `from` is sent to `to`.
pub struct Inbound<'a> {
    pub source: &'a str,
    pub from: &'a str,
    pub to: &'a str,
}

impl<'a> LinkRule for Inbound<'a> {
    open spec fn rule(&self) -> EntryRule {
        inbound_entry(self.source@, self.from@, self.to@)
    }

    fn apply(&self, style: LinkStyle, raw: &str) -> (r: Option<String>) {
        let link = Link::parse(raw);
        if link.is_path_target() && same_text(
            &crate::link::resolve(self.source, &link.target),
            self.from,
        ) {
            Some(respell(&link, style, self.source, self.to))
        } else {
            None
        }
    }
}

/// Every path reference of a document that moves from `from` to `to` keeps
/// pointing where it pointed, or where that has gone.
pub open spec fn moved_entry(from: Seq<char>, to: Seq<char>, moves: MovesView) -> EntryRule {
    |style: LinkStyle, raw: Seq<char>|
        {
            let link = crate::link::parse_link(raw);
            let out = crate::maintain::respelling(
                link,
                style,
                to,
                crate::maintain::landing_or_same(
                    moves,
                    crate::link::resolve_path(from, link.target),
                ),
            );
            if crate::link::is_path_target(link.target) && out != raw {
                Some(out)
            } else {
                None
            }
        }
}

/// Every path reference of a document that moves from `from` to `to` keeps
/// pointing where it pointed, or where that has gone.
pub struct Moved<'a> {
    pub from: &'a str,
    pub to: &'a str,
    pub moves: &'a Moves,
}

impl<'a> LinkRule for Moved<'a> {
    open spec fn rule(&self) -> EntryRule {
        moved_entry(self.from@, self.to@, self.moves@)
    }

    fn apply(&self, style: LinkStyle, raw: &str) -> (r: Option<String>) {
        let link = Link::parse(raw);
        if !link.is_path_target() {
            return None;
        }
        let target = self.moves.landed_or_same(&crate::link::resolve(self.from, &link.target));
        let out = respell(&link, style, self.to, &target);
        if same_text(&out, raw) {
            None
        } else {
            Some(out)
        }
    }
}

/// Every path reference is written in one style. A bare name is no path.
pub open spec fn restyled_entry(file: Seq<char>, style: LinkStyle) -> EntryRule {
    |_style: LinkStyle, raw: Seq<char>|
        {
            let link = crate::link::parse_link(raw);
            if crate::link::is_path_target(link.target) && !crate::link::is_alias_shaped(
                link.target,
            ) {
                Some(
                    crate::maintain::respelling(
                        link,
                        style,
                        file,
                        crate::link::resolve_path(file, link.target),
                    ),
                )
            } else {
                None
            }
        }
}

/// Every path reference is written in one style.
pub struct Restyled<'a> {
    pub file: &'a str,
    pub style: LinkStyle,
}

impl<'a> LinkRule for Restyled<'a> {
    open spec fn rule(&self) -> EntryRule {
        restyled_entry(self.file@, self.style)
    }

    fn apply(&self, _style: LinkStyle, raw: &str) -> (r: Option<String>) {
        let link = Link::parse(raw);
        if link.is_path_target() && !crate::link::alias_shaped(&link.target) {
            let target = crate::link::resolve(self.file, &link.target);
            Some(respell(&link, self.style, self.file, &target))
        } else {
            None
        }
    }
}

/// Every labelled reference from `source` to `target` gets this label.
pub open spec fn relabelled_entry(
    ws: WsView,
    source: Seq<char>,
    target: Seq<char>,
    title: Seq<char>,
) -> EntryRule {
    |_style: LinkStyle, raw: Seq<char>|
        {
            let link = crate::link::parse_link(raw);
            if link.label is Some && link.label != Some(title) && crate::workspace::link_target(
                ws.ids,
                ws.name,
                source,
                link.target,
            ) == crate::workspace::TargetView::Path(target) {
                Some(crate::link::rendered(crate::link::with_label(link, title)))
            } else {
                None
            }
        }
}

/// Every labelled reference from `source` to `target` gets this label.
pub struct Relabelled<'a> {
    pub ws: &'a Workspace,
    pub source: &'a str,
    pub target: &'a str,
    pub title: &'a str,
}

impl<'a> LinkRule for Relabelled<'a> {
    open spec fn rule(&self) -> EntryRule {
        relabelled_entry(self.ws@, self.source@, self.target@, self.title@)
    }

    fn apply(&self, _style: LinkStyle, raw: &str) -> (r: Option<String>) {
        let link = Link::parse(raw);
        let stale = match &link.label {
            Some(label) => !same_text(label, self.title),
            None => false,
        };
        if !stale {
            return None;
        }
        match self.ws.resolve_path(self.source, raw) {
            Some(p) => if same_text(&p, self.target) {
                Some(link.with_label(self.title).render())
            } else {
                None
            },
            None => None,
        }
    }
}

/// A document's text with every relation respelled by a rule. Without metadata
/// there is nothing to respell.
pub open spec fn respelled_fields(
    ws: WsView,
    path: Seq<char>,
    text: Seq<char>,
    doc: crate::document::DocView,
    rule: EntryRule,
) -> Outcome<Seq<char>> {
    match doc.carrier {
        None => Ok(text),
        Some(carrier) => match edited(
            text,
            carrier,
            relation_edits(ws, doc.meta, ws.relations.relations, rule),
        ) {
            Some(out) => Ok(out),
            None => Err(Fault::Metadata(path)),
        },
    }
}

/// A document's text with one field sent from `from` to `to`; none where nothing
/// in it leads there.
pub open spec fn retargeted(
    ws: WsView,
    text: Seq<char>,
    doc: crate::document::DocView,
    field: Seq<char>,
    source: Seq<char>,
    from: Seq<char>,
    to: Seq<char>,
) -> Outcome<Option<Seq<char>>> {
    let edits = field_edits(
        field,
        crate::meta::field(doc.meta, field),
        crate::workspace::reference_style(ws, field).path_style,
        inbound_entry(source, from, to),
    );
    match doc.carrier {
        Some(carrier) => if edits.len() == 0 {
            Ok(None)
        } else {
            match edited(text, carrier, edits) {
                Some(out) => Ok(Some(out)),
                None => Err(Fault::Metadata(source)),
            }
        },
        None => Ok(None),
    }
}

/// A text and its document.
pub type Read = (Seq<char>, crate::document::DocView);

/// The document that a text is, at a path.
pub open spec fn reread(path: Seq<char>, text: Seq<char>) -> Outcome<Read> {
    match crate::document::parsed(path, text) {
        Some(doc) => Ok((text, doc)),
        None => Err(Fault::Metadata(path)),
    }
}

/// A document with these relations sent from `from` to `to`, one after another.
pub open spec fn retargeted_all(
    ws: WsView,
    source: Seq<char>,
    read: Read,
    relations: Seq<crate::relation::RelationView>,
    from: Seq<char>,
    to: Seq<char>,
) -> Outcome<Read>
    decreases relations.len(),
{
    if relations.len() == 0 {
        Ok(read)
    } else {
        match retargeted_all(ws, source, read, relations.drop_last(), from, to) {
            Err(e) => Err(e),
            Ok((text, doc)) => match retargeted(
                ws,
                text,
                doc,
                relations.last().name,
                source,
                from,
                to,
            ) {
                Err(e) => Err(e),
                Ok(None) => Ok((text, doc)),
                Ok(Some(out)) => reread(source, out),
            },
        }
    }
}

/// A document with every path reference to `from`, in its body and in its
/// relations, sent to `to`.
pub open spec fn inbound_read(
    ws: WsView,
    source: Seq<char>,
    read: Read,
    from: Seq<char>,
    to: Seq<char>,
) -> Outcome<Read> {
    let text = crate::maintain::body_inbound(
        read.0,
        read.1.body,
        source,
        from,
        to,
        ws.settings.references.path_style,
    );
    if text != read.0 {
        match reread(source, text) {
            Ok(read) => retargeted_all(ws, source, read, ws.relations.relations, from, to),
            Err(e) => Err(e),
        }
    } else {
        retargeted_all(ws, source, read, ws.relations.relations, from, to)
    }
}

/// A document with every path reference to a moved path sent after it, but for
/// those to itself.
pub open spec fn followed(
    ws: WsView,
    source: Seq<char>,
    read: Read,
    moved: Seq<Seq<char>>,
    moves: MovesView,
) -> Outcome<Read>
    decreases moved.len(),
{
    if moved.len() == 0 {
        Ok(read)
    } else {
        match followed(ws, source, read, moved.drop_last(), moves) {
            Err(e) => Err(e),
            Ok(read) => match crate::maintain::landing(moves, moved.last()) {
                Some(to) => if moved.last() == source {
                    Ok(read)
                } else {
                    inbound_read(ws, source, read, moved.last(), to)
                },
                None => Ok(read),
            },
        }
    }
}

/// The paths of files under a directory.
pub open spec fn paths_within(files: crate::files::FileSeq, dir: Seq<char>) -> Seq<Seq<char>>
    decreases files.len(),
{
    if files.len() == 0 {
        Seq::empty()
    } else {
        let rest = paths_within(files.drop_last(), dir);
        if crate::path::is_within(files.last().0, dir) {
            rest.push(files.last().0)
        } else {
            rest
        }
    }
}

/// The paths that a move takes along.
pub open spec fn moved_paths(files: crate::files::FileSeq, moves: MovesView) -> Seq<Seq<char>> {
    match moves {
        MovesView::Files(pairs) => pairs.map_values(|p: (Seq<char>, Seq<char>)| p.0),
        MovesView::Tree(from, _) => paths_within(files, from),
    }
}

/// Whether a document that itself moves is sent after the paths that move with
/// it.
#[derive(Debug, Clone, Copy, PartialEq, Eq, Structural)]
pub enum Movers {
    /// It is: it stays in its directory, and nothing else touches its links.
    Rewrite,
    /// It is not: it recomputes every link it holds.
    Skip,
}

/// What becomes of the documents, each sent after the moved paths.
pub open spec fn rewrites_among(
    ws: WsView,
    docs: Seq<Seq<char>>,
    moves: MovesView,
    movers: Movers,
) -> Outcome<Seq<RewriteView>>
    decreases docs.len(),
{
    if docs.len() == 0 {
        Ok(Seq::empty())
    } else {
        match rewrites_among(ws, docs.drop_last(), moves, movers) {
            Err(e) => Err(e),
            Ok(rest) => {
                let source = docs.last();
                if movers is Skip && crate::maintain::landing(moves, source) is Some {
                    Ok(rest)
                } else {
                    match crate::workspace::loaded(ws.files, source) {
                        Err(e) => Err(e),
                        Ok(read) => match followed(
                            ws,
                            source,
                            read,
                            moved_paths(ws.files, moves),
                            moves,
                        ) {
                            Err(e) => Err(e),
                            Ok(out) => if out.0 == read.0 {
                                Ok(rest)
                            } else {
                                Ok(
                                    rest.push(
                                        RewriteView { path: source, read: read.0, text: out.0 },
                                    ),
                                )
                            },
                        },
                    }
                }
            },
        }
    }
}

/// What becomes of every document that links to a moved path.
pub open spec fn inbound_rewrites(
    ws: WsView,
    anchor: Seq<char>,
    moves: MovesView,
    movers: Movers,
) -> Outcome<Seq<RewriteView>> {
    match crate::workspace::spanning_names(ws.relations) {
        Err(e) => Err(e),
        Ok((_, inverse)) => rewrites_among(
            ws,
            crate::walk::surveyed(ws, crate::walk::root_of(ws, anchor, inverse)),
            moves,
            movers,
        ),
    }
}

proof fn lemma_retargeted_fails(
    ws: WsView,
    source: Seq<char>,
    read: Read,
    relations: Seq<crate::relation::RelationView>,
    from: Seq<char>,
    to: Seq<char>,
    n: int,
)
    requires
        0 <= n <= relations.len(),
        retargeted_all(ws, source, read, relations.take(n), from, to) is Err,
    ensures
        retargeted_all(ws, source, read, relations, from, to) == retargeted_all(
            ws,
            source,
            read,
            relations.take(n),
            from,
            to,
        ),
    decreases relations.len(),
{
    if n == relations.len() {
        assert(relations.take(n) =~= relations);
    } else {
        assert(relations.drop_last().take(n) =~= relations.take(n));
        lemma_retargeted_fails(ws, source, read, relations.drop_last(), from, to, n);
    }
}

proof fn lemma_followed_fails(
    ws: WsView,
    source: Seq<char>,
    read: Read,
    moved: Seq<Seq<char>>,
    moves: MovesView,
    n: int,
)
    requires
        0 <= n <= moved.len(),
        followed(ws, source, read, moved.take(n), moves) is Err,
    ensures
        followed(ws, source, read, moved, moves) == followed(
            ws,
            source,
            read,
            moved.take(n),
            moves,
        ),
    decreases moved.len(),
{
    if n == moved.len() {
        assert(moved.take(n) =~= moved);
    } else {
        assert(moved.drop_last().take(n) =~= moved.take(n));
        lemma_followed_fails(ws, source, read, moved.drop_last(), moves, n);
    }
}

proof fn lemma_rewrites_fail(
    ws: WsView,
    docs: Seq<Seq<char>>,
    moves: MovesView,
    movers: Movers,
    n: int,
)
    requires
        0 <= n <= docs.len(),
        rewrites_among(ws, docs.take(n), moves, movers) is Err,
    ensures
        rewrites_among(ws, docs, moves, movers) == rewrites_among(ws, docs.take(n), moves, movers),
    decreases docs.len(),
{
    if n == docs.len() {
        assert(docs.take(n) =~= docs);
    } else {
        assert(docs.drop_last().take(n) =~= docs.take(n));
        lemma_rewrites_fail(ws, docs.drop_last(), moves, movers, n);
    }
}

/// The document that a text is, at a path.
pub fn read_again(path: &str, text: String) -> (r: Result<(String, Document), Error>)
    ensures
        crate::workspace::told_doc(r) == reread(path@, text@),
{
    match Document::parse(path, &text) {
        Some(doc) => Ok((text, doc)),
        None => Err(Fault::Metadata(path.to_owned())),
    }
}

/// What rewrites hold, where they could be made.
pub open spec fn told_rewrites(r: Result<Vec<Rewrite>, Error>) -> Outcome<Seq<RewriteView>> {
    match r {
        Ok(v) => Ok(crate::change::rewrites_view(v@)),
        Err(e) => Err(crate::error::fault(e)),
    }
}

impl Workspace {
    /// The edits that a rule asks for in the fields that are relations.
    pub fn relation_changes<R: LinkRule>(&self, meta: &Meta, rule: &R) -> (r: Vec<Edit>)
        ensures
            edits_view(r@) == relation_edits(
                self@,
                meta@,
                self@.relations.relations,
                rule.rule(),
            ),
    {
        let ghost relations = self@.relations.relations;
        let mut out: Vec<Edit> = Vec::new();
        let mut i: usize = 0;
        proof {
            assert(relations.take(0) =~= Seq::empty());
            assert(edits_view(out@) =~= Seq::empty());
        }
        while i < self.relations.relations.len()
            invariant
                i <= self.relations.relations@.len(),
                relations == self@.relations.relations,
                edits_view(out@) == relation_edits(
                    self@,
                    meta@,
                    relations.take(i as int),
                    rule.rule(),
                ),
            decreases self.relations.relations@.len() - i,
        {
            let name = &self.relations.relations[i].name;
            proof {
                assert(relations.take(i + 1).drop_last() =~= relations.take(i as int));
                assert(relations.take(i + 1).last() == self.relations.relations@[i as int]@);
            }
            let style = self.reference_style_for(name).path_style;
            find_edits(name, meta.get(name), style, rule, &mut out);
            i = i + 1;
        }
        proof {
            assert(relations.take(i as int) =~= relations);
        }
        out
    }

    /// A document's text with every relation respelled by a rule. Without
    /// metadata there is nothing to respell.
    pub fn respell_fields<R: LinkRule>(
        &self,
        path: &str,
        text: &str,
        doc: &Document,
        rule: &R,
    ) -> (r: Result<String, Error>)
        ensures
            crate::workspace::told(r) == respelled_fields(
                self@,
                path@,
                text@,
                doc@,
                rule.rule(),
            ),
    {
        match doc.carrier {
            None => Ok(text.to_owned()),
            Some(carrier) => match make_edits(
                text,
                carrier,
                &self.relation_changes(&doc.meta, rule),
            ) {
                Some(out) => Ok(out),
                None => Err(Fault::Metadata(path.to_owned())),
            },
        }
    }

    /// Recomputes the path references in the relations of a document that moves
    /// from `from` to `to`, so that they still reach what they reached, or where
    /// `moves` takes it. References that are not paths are left alone.
    pub fn rerelativize(&self, text: &str, doc: &Document, from: &str, to: &str, moves: &Moves) -> (r:
        Result<String, Error>)
        ensures
            crate::workspace::told(r) == respelled_fields(
                self@,
                from@,
                text@,
                doc@,
                moved_entry(from@, to@, moves@),
            ),
    {
        self.respell_fields(from, text, doc, &Moved { from, to, moves })
    }

    /// Writes the path references in the relations of `file` in `style`. Bare
    /// names, and references that are not paths, are left alone.
    pub fn restyle_frontmatter_links(
        &self,
        text: &str,
        doc: &Document,
        file: &str,
        style: LinkStyle,
    ) -> (r: Result<String, Error>)
        ensures
            crate::workspace::told(r) == respelled_fields(
                self@,
                file@,
                text@,
                doc@,
                restyled_entry(file@, style),
            ),
    {
        self.respell_fields(file, text, doc, &Restyled { file, style })
    }

    /// Sends every path reference in `field` of the document at `source` that
    /// reaches `from` to `to`. Each keeps its label and its wrapper; none where
    /// nothing in the field leads there.
    pub fn retarget_entry(
        &self,
        text: &str,
        doc: &Document,
        field: &str,
        source: &str,
        from: &str,
        to: &str,
    ) -> (r: Result<Option<String>, Error>)
        ensures
            crate::workspace::told_opt(r) == retargeted(
                self@,
                text@,
                doc@,
                field@,
                source@,
                from@,
                to@,
            ),
    {
        let style = self.reference_style_for(field).path_style;
        let mut edits: Vec<Edit> = Vec::new();
        proof {
            assert(edits_view(edits@) =~= Seq::empty());
        }
        find_edits(field, doc.meta.get(field), style, &Inbound { source, from, to }, &mut edits);
        proof {
            let found = field_edits(
                field@,
                crate::meta::field(doc@.meta, field@),
                style,
                inbound_entry(source@, from@, to@),
            );
            assert(edits_view(edits@) =~= found);
            assert(edits_view(edits@).len() == edits@.len());
        }
        match doc.carrier {
            Some(carrier) => if edits.len() == 0 {
                Ok(None)
            } else {
                match make_edits(text, carrier, &edits) {
                    Some(out) => Ok(Some(out)),
                    None => Err(Fault::Metadata(source.to_owned())),
                }
            },
            None => Ok(None),
        }
    }

    fn retarget_all(&self, source: &str, read: (String, Document), from: &str, to: &str) -> (r:
        Result<(String, Document), Error>)
        ensures
            crate::workspace::told_doc(r) == retargeted_all(
                self@,
                source@,
                (read.0@, read.1@),
                self@.relations.relations,
                from@,
                to@,
            ),
    {
        let ghost relations = self@.relations.relations;
        let ghost start = (read.0@, read.1@);
        let mut text = read.0;
        let mut doc = read.1;
        let mut i: usize = 0;
        proof {
            assert(relations.take(0) =~= Seq::empty());
        }
        while i < self.relations.relations.len()
            invariant
                i <= self.relations.relations@.len(),
                relations == self@.relations.relations,
                start == (read.0@, read.1@),
                retargeted_all(self@, source@, start, relations.take(i as int), from@, to@) == Ok::<
                    Read,
                    Fault<Seq<char>>,
                >((text@, doc@)),
            decreases self.relations.relations@.len() - i,
        {
            let name = &self.relations.relations[i].name;
            proof {
                assert(relations.take(i + 1).drop_last() =~= relations.take(i as int));
                assert(relations.take(i + 1).last() == self.relations.relations@[i as int]@);
            }
            match self.retarget_entry(&text, &doc, name, source, from, to) {
                Err(e) => {
                    proof {
                        lemma_retargeted_fails(
                            self@,
                            source@,
                            start,
                            relations,
                            from@,
                            to@,
                            i + 1,
                        );
                    }
                    return Err(e);
                },
                Ok(None) => {},
                Ok(Some(out)) => match read_again(source, out) {
                    Ok((t, d)) => {
                        text = t;
                        doc = d;
                    },
                    Err(e) => {
                        proof {
                            lemma_retargeted_fails(
                                self@,
                                source@,
                                start,
                                relations,
                                from@,
                                to@,
                                i + 1,
                            );
                        }
                        return Err(e);
                    },
                },
            }
            i = i + 1;
        }
        proof {
            assert(relations.take(i as int) =~= relations);
        }
        Ok((text, doc))
    }

    /// Sends every path reference of the document at `source` that reaches
    /// `from`, in its body and in its relations, to `to`.
    pub fn rewrite_inbound_text(&self, source: &str, read: (String, Document), from: &str, to: &str) -> (r:
        Result<(String, Document), Error>)
        ensures
            crate::workspace::told_doc(r) == inbound_read(
                self@,
                source@,
                (read.0@, read.1@),
                from@,
                to@,
            ),
    {
        let (original, doc) = read;
        let text = rewrite_body_inbound(
            &original,
            &doc.body,
            source,
            from,
            to,
            self.settings.references.path_style,
        );
        if same_text(&text, &original) {
            return self.retarget_all(source, (original, doc), from, to);
        }
        match read_again(source, text) {
            Ok(read) => self.retarget_all(source, read, from, to),
            Err(e) => Err(e),
        }
    }

    fn follow(&self, source: &str, read: (String, Document), moved: &Vec<String>, moves: &Moves) -> (r:
        Result<(String, Document), Error>)
        ensures
            crate::workspace::told_doc(r) == followed(
                self@,
                source@,
                (read.0@, read.1@),
                crate::text::texts(moved@),
                moves@,
            ),
    {
        let ghost all = crate::text::texts(moved@);
        let ghost start = (read.0@, read.1@);
        let mut text = read.0;
        let mut doc = read.1;
        let mut i: usize = 0;
        proof {
            assert(all.take(0) =~= Seq::empty());
        }
        while i < moved.len()
            invariant
                i <= moved@.len(),
                all == crate::text::texts(moved@),
                start == (read.0@, read.1@),
                followed(self@, source@, start, all.take(i as int), moves@) == Ok::<
                    Read,
                    Fault<Seq<char>>,
                >((text@, doc@)),
            decreases moved@.len() - i,
        {
            let from = &moved[i];
            proof {
                assert(all.take(i + 1).drop_last() =~= all.take(i as int));
                assert(all.take(i + 1).last() == from@);
            }
            match moves.landed(from) {
                Some(to) => if !same_text(from, source) {
                    match self.rewrite_inbound_text(source, (text, doc), from, &to) {
                        Ok((t, d)) => {
                            text = t;
                            doc = d;
                        },
                        Err(e) => {
                            proof {
                                lemma_followed_fails(
                                    self@,
                                    source@,
                                    start,
                                    all,
                                    moves@,
                                    i + 1,
                                );
                            }
                            return Err(e);
                        },
                    }
                },
                None => {},
            }
            i = i + 1;
        }
        proof {
            assert(all.take(i as int) =~= all);
        }
        Ok((text, doc))
    }

    /// The paths of files under a directory.
    pub fn files_under(&self, dir: &str) -> (r: Vec<String>)
        ensures
            crate::text::texts(r@) == paths_within(self@.files, dir@),
    {
        let ghost files = self@.files;
        let mut out = no_texts();
        let mut i: usize = 0;
        proof {
            assert(files.take(0) =~= Seq::empty());
        }
        while i < self.files.entries.len()
            invariant
                i <= self.files.entries@.len(),
                files == self@.files,
                files.len() == self.files.entries@.len(),
                crate::text::texts(out@) == paths_within(files.take(i as int), dir@),
            decreases self.files.entries@.len() - i,
        {
            let path = &self.files.entries[i].0;
            proof {
                assert(files.take(i + 1).drop_last() =~= files.take(i as int));
                assert(files.take(i + 1).last() == files[i as int]);
                assert(files[i as int].0 == path@);
            }
            if crate::path::lies_within(path, dir) {
                push_text(&mut out, path.clone());
            }
            i = i + 1;
        }
        proof {
            assert(files.take(i as int) =~= files);
        }
        out
    }

    fn list_moved(&self, moves: &Moves) -> (r: Vec<String>)
        ensures
            crate::text::texts(r@) == moved_paths(self@.files, moves@),
    {
        match moves {
            Moves::Files(pairs) => {
                let mut out = no_texts();
                let mut i: usize = 0;
                while i < pairs.len()
                    invariant
                        i <= pairs@.len(),
                        crate::text::texts(out@).len() == i,
                        forall|j: int|
                            0 <= j < i ==> #[trigger] crate::text::texts(out@)[j] == pairs@[j].0@,
                    decreases pairs@.len() - i,
                {
                    push_text(&mut out, pairs[i].0.clone());
                    i = i + 1;
                }
                proof {
                    assert(crate::text::texts(out@) =~= moved_paths(self@.files, moves@));
                }
                out
            },
            Moves::Tree(from, _) => self.files_under(from),
        }
    }

    fn rewrites(&self, docs: &Vec<String>, moves: &Moves, movers: Movers) -> (r: Result<
        Vec<Rewrite>,
        Error,
    >)
        ensures
            told_rewrites(r) == rewrites_among(
                self@,
                crate::text::texts(docs@),
                moves@,
                movers,
            ),
    {
        let ghost all = crate::text::texts(docs@);
        let moved = self.list_moved(moves);
        let mut out: Vec<Rewrite> = Vec::new();
        let mut i: usize = 0;
        proof {
            assert(all.take(0) =~= Seq::empty());
            assert(crate::change::rewrites_view(out@) =~= Seq::empty());
        }
        while i < docs.len()
            invariant
                i <= docs@.len(),
                all == crate::text::texts(docs@),
                crate::text::texts(moved@) == moved_paths(self@.files, moves@),
                rewrites_among(self@, all.take(i as int), moves@, movers) == Ok::<
                    Seq<RewriteView>,
                    Fault<Seq<char>>,
                >(crate::change::rewrites_view(out@)),
            decreases docs@.len() - i,
        {
            let source = &docs[i];
            proof {
                assert(all.take(i + 1).drop_last() =~= all.take(i as int));
                assert(all.take(i + 1).last() == source@);
            }
            let skip = match movers {
                Movers::Skip => moves.landed(source).is_some(),
                Movers::Rewrite => false,
            };
            if !skip {
                match self.load(source) {
                    Err(e) => {
                        proof {
                            lemma_rewrites_fail(self@, all, moves@, movers, i + 1);
                        }
                        return Err(e);
                    },
                    Ok((original, doc)) => match self.follow(
                        source,
                        (original.clone(), doc),
                        &moved,
                        moves,
                    ) {
                        Err(e) => {
                            proof {
                                lemma_rewrites_fail(self@, all, moves@, movers, i + 1);
                            }
                            return Err(e);
                        },
                        Ok((text, _)) => if !same_text(&text, &original) {
                            let ghost before = crate::change::rewrites_view(out@);
                            let rewrite = Rewrite { path: source.clone(), read: original, text };
                            out.push(rewrite);
                            proof {
                                assert(crate::change::rewrites_view(out@) =~= before.push(
                                    rewrite@,
                                ));
                            }
                        },
                    },
                }
            }
            i = i + 1;
        }
        proof {
            assert(all.take(i as int) =~= all);
        }
        Ok(out)
    }

    /// What becomes of every document that links to a path that `moves` takes
    /// along: its path references to that path follow it. References by
    /// identifier are left alone, and so is a document's reference to itself.
    pub fn collect_inbound_rewrites(&self, anchor: &str, moves: &Moves, movers: Movers) -> (r: Result<
        Vec<Rewrite>,
        Error,
    >)
        ensures
            told_rewrites(r) == inbound_rewrites(self@, anchor@, moves@, movers),
    {
        match self.spanning_pair() {
            Err(e) => Err(e),
            Ok((_, inverse)) => {
                let root = self.spanning_root(anchor, &inverse);
                let named = self.name_files();
                let docs = self.survey(&named, &root);
                self.rewrites(&docs, moves, movers)
            },
        }
    }
}

} // verus!
