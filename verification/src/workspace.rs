//! A workspace: its files, its vocabulary, its settings, and the identifiers
//! that its documents carry.

use crate::codec::MetaFormat;
use crate::document::Document;
use crate::error::{Error, Fault};
use crate::files::{FileData, Files};
use crate::link::{IdRef, Link, ReferenceStyle};
use crate::path::opt_text;
use crate::registry::{IdStorage, Registration, Registry};
use crate::relation::RelationSet;
use crate::text::same_text;
use vstd::prelude::*;

verus! {

/// What a workspace is set to do.
#[derive(Debug, Clone, Copy, PartialEq, Eq, Structural)]
pub struct Settings {
    /// How links are authored, unless their relation says otherwise.
    pub references: ReferenceStyle,
    /// The language of new metadata.
    pub metadata: MetaFormat,
    /// Where identifiers are kept.
    pub id_storage: IdStorage,
    /// Whether checksums of content files are kept.
    pub fixity: bool,
    /// When documents get identifiers.
    pub registration: Registration,
    /// What identifiers are drawn from.
    pub seed: u64,
}

/// A workspace.
#[derive(Debug, PartialEq, Eq)]
pub struct Workspace {
    /// The vocabulary.
    pub relations: RelationSet,
    /// The settings.
    pub settings: Settings,
    /// The name other workspaces know this one by; empty for none.
    pub name: String,
    /// The field that says when a document was updated; empty for none.
    pub updated_field: String,
    /// The document the workspace starts at. It goes along with what moves it.
    pub root: Option<String>,
    /// Directories whose files are not maintained. They go along with what moves them.
    pub parked: Vec<String>,
    /// The identifiers of documents.
    pub registry: Registry,
    /// How many identifiers were drawn.
    pub issued: u64,
    /// The files.
    pub files: Files,
}

/// What a [`Workspace`] holds.
pub struct WsView {
    pub relations: crate::relation::RelationSetView,
    pub settings: Settings,
    pub name: Seq<char>,
    pub updated_field: Seq<char>,
    pub root: Option<Seq<char>>,
    pub parked: Seq<Seq<char>>,
    pub ids: crate::registry::IdSeq,
    pub issued: u64,
    pub files: crate::files::FileSeq,
}

impl View for Workspace {
    type V = WsView;

    open spec fn view(&self) -> WsView {
        WsView {
            relations: self.relations@,
            settings: self.settings,
            name: self.name@,
            updated_field: self.updated_field@,
            root: opt_text(self.root),
            parked: crate::text::texts(self.parked@),
            ids: self.registry@,
            issued: self.issued,
            files: self.files@,
        }
    }
}

/// What an operation gives, over what stands for text in a contract.
pub type Outcome<T> = Result<T, Fault<Seq<char>>>;

/// What an operation that gives text gives.
pub open spec fn told(r: Result<String, Error>) -> Outcome<Seq<char>> {
    match r {
        Ok(s) => Ok(s@),
        Err(e) => Err(crate::error::fault(e)),
    }
}

/// What an operation that may give text gives.
pub open spec fn told_opt(r: Result<Option<String>, Error>) -> Outcome<Option<Seq<char>>> {
    match r {
        Ok(s) => Ok(opt_text(s)),
        Err(e) => Err(crate::error::fault(e)),
    }
}

/// The text and the parts of the document at `path`.
pub open spec fn loaded(files: crate::files::FileSeq, path: Seq<char>) -> Outcome<
    (Seq<char>, crate::document::DocView),
> {
    if crate::path::escapes(path) {
        Err(Fault::Escape(path))
    } else {
        match crate::files::lookup(files, path) {
            None => Err(Fault::NotFound(path)),
            Some(crate::files::FileView::Bytes(_)) => Err(Fault::NotText(path)),
            Some(crate::files::FileView::Text(text)) => match crate::document::parsed(path, text) {
                Some(doc) => Ok((text, doc)),
                None => Err(Fault::Metadata(path)),
            },
        }
    }
}

/// What is in the file at `path`.
pub open spec fn file_at(files: crate::files::FileSeq, path: Seq<char>) -> Outcome<
    crate::files::FileView,
> {
    if crate::path::escapes(path) {
        Err(Fault::Escape(path))
    } else {
        match crate::files::lookup(files, path) {
            None => Err(Fault::NotFound(path)),
            Some(data) => Ok(data),
        }
    }
}

/// The text of the file at `path`.
pub open spec fn text_at(files: crate::files::FileSeq, path: Seq<char>) -> Outcome<Seq<char>> {
    match file_at(files, path) {
        Err(e) => Err(e),
        Ok(crate::files::FileView::Bytes(_)) => Err(Fault::NotText(path)),
        Ok(crate::files::FileView::Text(text)) => Ok(text),
    }
}

/// What a loaded document holds.
pub open spec fn told_doc(r: Result<(String, Document), Error>) -> Outcome<
    (Seq<char>, crate::document::DocView),
> {
    match r {
        Ok((text, doc)) => Ok((text@, doc@)),
        Err(e) => Err(crate::error::fault(e)),
    }
}

/// Where a link leads.
#[derive(Debug, PartialEq, Eq)]
pub enum Target {
    /// To a path of the workspace.
    Path(String),
    /// To an identifier that nothing carries.
    UnresolvedId(String),
    /// To an identifier of the workspace of this name.
    Foreign(String, String),
    /// Out of the workspace.
    External,
    /// Into the document it stands in.
    SameDocument,
}

/// What a [`Target`] holds.
pub enum TargetView {
    Path(Seq<char>),
    UnresolvedId(Seq<char>),
    Foreign(Seq<char>, Seq<char>),
    External,
    SameDocument,
}

impl View for Target {
    type V = TargetView;

    open spec fn view(&self) -> TargetView {
        match self {
            Target::Path(p) => TargetView::Path(p@),
            Target::UnresolvedId(id) => TargetView::UnresolvedId(id@),
            Target::Foreign(ws, id) => TargetView::Foreign(ws@, id@),
            Target::External => TargetView::External,
            Target::SameDocument => TargetView::SameDocument,
        }
    }
}

/// Where an identifier of this workspace leads.
pub open spec fn id_target(ids: crate::registry::IdSeq, id: Seq<char>) -> TargetView {
    match crate::registry::path_of(ids, id) {
        Some(path) => TargetView::Path(crate::path::normalized(path)),
        None => TargetView::UnresolvedId(id),
    }
}

/// Where a link that stands in `doc` leads.
pub open spec fn link_target(
    ids: crate::registry::IdSeq,
    name: Seq<char>,
    doc: Seq<char>,
    target: Seq<char>,
) -> TargetView {
    if crate::link::is_external(target) {
        TargetView::External
    } else if crate::link::is_same_document(target) {
        TargetView::SameDocument
    } else {
        match crate::link::id_ref(target) {
            Some(crate::link::IdRefView::Local(id)) => id_target(ids, id),
            Some(crate::link::IdRefView::Foreign(ws, id)) => if name.len() > 0 && ws == name {
                id_target(ids, id)
            } else {
                TargetView::Foreign(ws, id)
            },
            Some(crate::link::IdRefView::Malformed) => TargetView::UnresolvedId(target),
            None => TargetView::Path(crate::link::resolve_path(doc, target)),
        }
    }
}

/// The path that a reference written in `doc` leads to.
pub open spec fn reference_path(
    ids: crate::registry::IdSeq,
    name: Seq<char>,
    doc: Seq<char>,
    raw: Seq<char>,
) -> Option<Seq<char>> {
    match link_target(ids, name, doc, crate::link::parse_link(raw).target) {
        TargetView::Path(p) => Some(p),
        _ => None,
    }
}

/// The paths that references lead to.
pub open spec fn reference_paths(
    ids: crate::registry::IdSeq,
    name: Seq<char>,
    doc: Seq<char>,
    raws: Seq<Seq<char>>,
) -> Seq<Option<Seq<char>>> {
    raws.map_values(|raw: Seq<char>| reference_path(ids, name, doc, raw))
}

/// The path that what stands at a place leads to.
pub open spec fn slot_path(
    ids: crate::registry::IdSeq,
    name: Seq<char>,
    doc: Seq<char>,
    slot: Option<Seq<char>>,
) -> Option<Seq<char>> {
    match slot {
        Some(raw) => reference_path(ids, name, doc, raw),
        None => None,
    }
}

/// The paths that what stands at each place leads to; none where it is no
/// reference.
pub open spec fn slot_paths(
    ids: crate::registry::IdSeq,
    name: Seq<char>,
    doc: Seq<char>,
    slots: Seq<Option<Seq<char>>>,
) -> Seq<Option<Seq<char>>> {
    slots.map_values(|slot: Option<Seq<char>>| slot_path(ids, name, doc, slot))
}

/// The place of the first of `paths` that is `wanted`.
pub open spec fn first_at(paths: Seq<Option<Seq<char>>>, wanted: Seq<char>) -> Option<int>
    decreases paths.len(),
{
    if paths.len() == 0 {
        None
    } else if paths[0] == Some(wanted) {
        Some(0)
    } else {
        match first_at(paths.drop_first(), wanted) {
            Some(i) => Some(i + 1),
            None => None,
        }
    }
}

/// Where the identifier `id` leads.
fn resolve_id(ids: &Registry, id: String) -> (r: Target)
    ensures
        r@ == id_target(ids@, id@),
{
    match ids.resolve(&id) {
        Some(path) => Target::Path(crate::path::normalize(&path)),
        None => Target::UnresolvedId(id),
    }
}

/// Where a link that stands in `doc` leads.
pub fn resolve_in(ids: &Registry, name: &str, doc: &str, link: &Link) -> (r: Target)
    ensures
        r@ == link_target(ids@, name@, doc@, link@.target),
{
    proof {
        reveal_strlit("");
        assert(name@.len() == 0 ==> name@ =~= ""@);
    }
    if link.is_external() {
        return Target::External;
    }
    if link.is_same_document() {
        return Target::SameDocument;
    }
    match link.id_ref() {
        Some(IdRef::Local(id)) => resolve_id(ids, id),
        Some(IdRef::Foreign(ws, id)) => if !same_text(name, "") && same_text(&ws, name) {
            resolve_id(ids, id)
        } else {
            Target::Foreign(ws, id)
        },
        Some(IdRef::Malformed) => Target::UnresolvedId(link.target.clone()),
        None => Target::Path(crate::link::resolve(doc, &link.target)),
    }
}

/// The path that a reference written in `doc` leads to.
pub fn path_in(ids: &Registry, name: &str, doc: &str, raw: &str) -> (r: Option<String>)
    ensures
        opt_text(r) == reference_path(ids@, name@, doc@, raw@),
{
    match resolve_in(ids, name, doc, &Link::parse(raw)) {
        Target::Path(p) => Some(p),
        _ => None,
    }
}

/// The place of the first reference that leads to `wanted`.
pub fn position_in(ids: &Registry, name: &str, doc: &str, raws: &Vec<String>, wanted: &str) -> (r:
    Option<usize>)
    ensures
        match r {
            Some(i) => i < raws@.len() && first_at(
                reference_paths(ids@, name@, doc@, crate::text::texts(raws@)),
                wanted@,
            ) == Some(i as int),
            None => first_at(
                reference_paths(ids@, name@, doc@, crate::text::texts(raws@)),
                wanted@,
            ) is None,
        },
{
    let ghost all = reference_paths(ids@, name@, doc@, crate::text::texts(raws@));
    let mut i: usize = 0;
    proof {
        assert(all.skip(0) =~= all);
    }
    while i < raws.len()
        invariant
            i <= raws@.len(),
            all == reference_paths(ids@, name@, doc@, crate::text::texts(raws@)),
            match first_at(all.skip(i as int), wanted@) {
                Some(k) => first_at(all, wanted@) == Some(k + i),
                None => first_at(all, wanted@) is None,
            },
        decreases raws@.len() - i,
    {
        proof {
            assert(all.skip(i as int)[0] == all[i as int]);
            assert(all[i as int] == reference_path(ids@, name@, doc@, raws@[i as int]@));
            assert(all.skip(i as int).drop_first() =~= all.skip(i + 1));
        }
        match path_in(ids, name, doc, &raws[i]) {
            Some(p) => if same_text(&p, wanted) {
                return Some(i);
            },
            None => {},
        }
        i = i + 1;
    }
    None
}

/// The place of the first of `slots` that leads to `wanted`.
pub fn slot_in(ids: &Registry, name: &str, doc: &str, slots: &Vec<Option<String>>, wanted: &str) -> (r:
    Option<usize>)
    ensures
        match r {
            Some(i) => i < slots@.len() && first_at(
                slot_paths(ids@, name@, doc@, crate::meta::slots_view(slots@)),
                wanted@,
            ) == Some(i as int),
            None => first_at(
                slot_paths(ids@, name@, doc@, crate::meta::slots_view(slots@)),
                wanted@,
            ) is None,
        },
{
    let ghost all = slot_paths(ids@, name@, doc@, crate::meta::slots_view(slots@));
    let mut i: usize = 0;
    proof {
        assert(all.skip(0) =~= all);
    }
    while i < slots.len()
        invariant
            i <= slots@.len(),
            all == slot_paths(ids@, name@, doc@, crate::meta::slots_view(slots@)),
            match first_at(all.skip(i as int), wanted@) {
                Some(k) => first_at(all, wanted@) == Some(k + i),
                None => first_at(all, wanted@) is None,
            },
        decreases slots@.len() - i,
    {
        proof {
            assert(all.skip(i as int)[0] == all[i as int]);
            assert(crate::meta::slots_view(slots@)[i as int] == opt_text(slots@[i as int]));
            assert(all[i as int] == slot_path(ids@, name@, doc@, opt_text(slots@[i as int])));
            assert(all.skip(i as int).drop_first() =~= all.skip(i + 1));
        }
        match &slots[i] {
            Some(raw) => match path_in(ids, name, doc, raw) {
                Some(p) => if same_text(&p, wanted) {
                    return Some(i);
                },
                None => {},
            },
            None => {},
        }
        i = i + 1;
    }
    None
}

/// The spanning relation and its inverse.
pub open spec fn spanning_names(relations: crate::relation::RelationSetView) -> Outcome<
    (Seq<char>, Seq<char>),
> {
    match relations.spanning {
        None => Err(Fault::NoSpanning),
        Some(spanning) => match crate::relation::inverse_of(relations.relations, spanning) {
            None => Err(Fault::NoInverse(spanning)),
            Some(inverse) => Ok((spanning, inverse)),
        },
    }
}

/// The references of the spanning relation.
pub open spec fn child_references(
    relations: crate::relation::RelationSetView,
    meta: crate::meta::MetaView,
) -> Seq<Seq<char>> {
    match relations.spanning {
        Some(spanning) => crate::meta::links_at(meta, spanning),
        None => Seq::empty(),
    }
}

/// The style of references of a relation.
pub open spec fn reference_style(ws: WsView, relation: Seq<char>) -> ReferenceStyle {
    match crate::relation::style_of_relation(ws.relations.relations, relation) {
        Some(style) => style,
        None => ws.settings.references,
    }
}

/// The path that the first reference in a field leads to.
pub open spec fn single_path(
    ws: WsView,
    doc: crate::document::DocView,
    field: Seq<char>,
    path: Seq<char>,
) -> Option<Seq<char>> {
    let raws = crate::meta::links_at(doc.meta, field);
    if raws.len() == 0 {
        None
    } else {
        reference_path(ws.ids, ws.name, path, raws[0])
    }
}

/// The place of the first reference in a field that leads to `wanted`: the index of
/// the item in the list that the field holds, whatever else stands there.
pub open spec fn entry_at(
    ws: WsView,
    doc: crate::document::DocView,
    field: Seq<char>,
    path: Seq<char>,
    wanted: Seq<char>,
) -> Option<int> {
    first_at(
        slot_paths(ws.ids, ws.name, path, crate::meta::slots_at(doc.meta, field)),
        wanted,
    )
}

/// The place that is found is the first one where `wanted` is.
pub proof fn lemma_first_at(paths: Seq<Option<Seq<char>>>, wanted: Seq<char>)
    ensures
        first_at(paths, wanted) matches Some(i) ==> 0 <= i < paths.len() && paths[i] == Some(wanted)
            && (forall|j: int| 0 <= j < i ==> #[trigger] paths[j] != Some(wanted)),
        first_at(paths, wanted) is None ==> forall|j: int|
            0 <= j < paths.len() ==> #[trigger] paths[j] != Some(wanted),
    decreases paths.len(),
{
    if paths.len() > 0 && paths[0] != Some(wanted) {
        let rest = paths.drop_first();
        lemma_first_at(rest, wanted);
        match first_at(rest, wanted) {
            Some(k) => {
                assert forall|j: int| 0 <= j < k + 1 implies #[trigger] paths[j] != Some(wanted) by {
                    if j > 0 {
                        assert(rest[j - 1] == paths[j]);
                    }
                }
            },
            None => {
                assert forall|j: int| 0 <= j < paths.len() implies #[trigger] paths[j] != Some(
                    wanted,
                ) by {
                    if j > 0 {
                        assert(rest[j - 1] == paths[j]);
                    }
                }
            },
        }
    }
}

/// The index of an entry is that of an item of the list that its field holds: the
/// least one whose item is text that leads to `wanted`. There is none exactly where
/// no item does.
pub proof fn law_entry_at(
    ws: WsView,
    doc: crate::document::DocView,
    field: Seq<char>,
    path: Seq<char>,
    wanted: Seq<char>,
    items: Seq<crate::meta::MetaView>,
)
    requires
        crate::meta::field(doc.meta, field) == Some(crate::meta::MetaView::List(items)),
    ensures
        entry_at(ws, doc, field, path, wanted) matches Some(i) ==> 0 <= i < items.len() && leads(
            ws,
            path,
            items[i],
            wanted,
        ) && (forall|j: int| 0 <= j < i ==> !leads(ws, path, #[trigger] items[j], wanted)),
        entry_at(ws, doc, field, path, wanted) is None ==> forall|j: int|
            0 <= j < items.len() ==> !leads(ws, path, #[trigger] items[j], wanted),
{
    let slots = crate::meta::slots_at(doc.meta, field);
    let paths = slot_paths(ws.ids, ws.name, path, slots);
    lemma_first_at(paths, wanted);
    assert forall|j: int| 0 <= j < items.len() implies (leads(
        ws,
        path,
        #[trigger] items[j],
        wanted,
    ) <==> paths[j] == Some(wanted)) by {
        assert(slots[j] == crate::meta::slot_of(items[j]));
    }
}

/// Whether an item is text that leads to `wanted`.
pub open spec fn leads(
    ws: WsView,
    path: Seq<char>,
    item: crate::meta::MetaView,
    wanted: Seq<char>,
) -> bool {
    item matches crate::meta::MetaView::Text(raw) && reference_path(ws.ids, ws.name, path, raw)
        == Some(wanted)
}

impl Workspace {
    /// The text and the parts of the document at `path`.
    pub fn load(&self, path: &str) -> (r: Result<(String, Document), Error>)
        ensures
            told_doc(r) == loaded(self@.files, path@),
    {
        if crate::path::escapes_root(path) {
            return Err(Fault::Escape(path.to_owned()));
        }
        match self.files.get(path) {
            None => Err(Fault::NotFound(path.to_owned())),
            Some(FileData::Bytes(_)) => Err(Fault::NotText(path.to_owned())),
            Some(FileData::Text(text)) => match Document::parse(path, text) {
                Some(doc) => Ok((text.clone(), doc)),
                None => Err(Fault::Metadata(path.to_owned())),
            },
        }
    }

    /// What is in the file at `path`.
    pub fn read_data(&self, path: &str) -> (r: Result<FileData, Error>)
        ensures
            match r {
                Ok(data) => file_at(self@.files, path@) matches Ok(v) && v == data@,
                Err(e) => file_at(self@.files, path@) matches Err(f) && f == crate::error::fault(e),
            },
    {
        if crate::path::escapes_root(path) {
            return Err(Fault::Escape(path.to_owned()));
        }
        match self.files.get(path) {
            None => Err(Fault::NotFound(path.to_owned())),
            Some(data) => Ok(data.copy()),
        }
    }

    /// The text of the file at `path`.
    pub fn read_text(&self, path: &str) -> (r: Result<String, Error>)
        ensures
            told(r) == text_at(self@.files, path@),
    {
        match self.read_data(path) {
            Err(e) => Err(e),
            Ok(FileData::Bytes(_)) => Err(Fault::NotText(path.to_owned())),
            Ok(FileData::Text(text)) => Ok(text),
        }
    }

    /// Whether there is a file at `path`, or one below it.
    pub fn is_taken(&self, path: &str) -> (r: bool)
        ensures
            r == crate::files::occupied(self@.files, path@),
    {
        self.files.occupies(path)
    }

    /// Where a link that stands in `doc` leads.
    pub fn resolve_link(&self, doc: &str, link: &Link) -> (r: Target)
        ensures
            r@ == link_target(self@.ids, self@.name, doc@, link@.target),
    {
        resolve_in(&self.registry, &self.name, doc, link)
    }

    /// The path that a reference written in `doc` leads to.
    pub fn resolve_path(&self, doc: &str, raw: &str) -> (r: Option<String>)
        ensures
            opt_text(r) == reference_path(self@.ids, self@.name, doc@, raw@),
    {
        path_in(&self.registry, &self.name, doc, raw)
    }

    /// The spanning relation and its inverse.
    pub fn spanning_pair(&self) -> (r: Result<(String, String), Error>)
        ensures
            match r {
                Ok((spanning, inverse)) => spanning_names(self@.relations) == Ok::<
                    (Seq<char>, Seq<char>),
                    Fault<Seq<char>>,
                >((spanning@, inverse@)),
                Err(e) => spanning_names(self@.relations) == Err::<
                    (Seq<char>, Seq<char>),
                    Fault<Seq<char>>,
                >(crate::error::fault(e)),
            },
    {
        match &self.relations.spanning {
            None => Err(Fault::NoSpanning),
            Some(spanning) => match self.relations.inverse_for(spanning) {
                None => Err(Fault::NoInverse(spanning.clone())),
                Some(inverse) => Ok((spanning.clone(), inverse)),
            },
        }
    }

    /// The references of the spanning relation in a document's metadata.
    pub fn child_links(&self, doc: &Document) -> (r: Vec<String>)
        ensures
            crate::text::texts(r@) == child_references(self@.relations, doc@.meta),
    {
        match &self.relations.spanning {
            Some(spanning) => doc.meta.links_at(spanning),
            None => {
                let v: Vec<String> = Vec::new();
                proof {
                    assert(crate::text::texts(v@) =~= Seq::empty());
                }
                v
            },
        }
    }

    /// The style of references of a relation.
    pub fn reference_style_for(&self, relation: &str) -> (r: ReferenceStyle)
        ensures
            r == reference_style(self@, relation@),
    {
        match self.relations.style_for(relation) {
            Some(style) => style,
            None => self.settings.references,
        }
    }

    /// The path that `field` of the document at `doc_path` leads to, by its
    /// first reference.
    pub fn single_target(&self, doc: &Document, field: &str, doc_path: &str) -> (r: Option<String>)
        ensures
            opt_text(r) == single_path(self@, doc@, field@, doc_path@),
    {
        let raws = doc.meta.links_at(field);
        proof {
            assert(crate::text::texts(raws@).len() == raws@.len());
        }
        if raws.len() == 0 {
            return None;
        }
        proof {
            assert(crate::text::texts(raws@)[0] == raws@[0]@);
        }
        self.resolve_path(doc_path, &raws[0])
    }

    /// The index, in the list that `field` of the document at `doc_path` holds, of
    /// the first item that leads to `wanted`.
    pub fn entry_index(&self, doc: &Document, field: &str, doc_path: &str, wanted: &str) -> (r:
        Option<usize>)
        ensures
            match r {
                Some(i) => entry_at(self@, doc@, field@, doc_path@, wanted@) == Some(i as int),
                None => entry_at(self@, doc@, field@, doc_path@, wanted@) is None,
            },
    {
        let slots = doc.meta.slots_at(field);
        slot_in(&self.registry, &self.name, doc_path, &slots, wanted)
    }
}

} // verus!
