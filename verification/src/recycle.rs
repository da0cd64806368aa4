//! The recycle bin: documents that are removed and can be had back.

use crate::change::{ChangeSet, ChangeView};
use crate::codec::MetaFormat;
use crate::delete::{ids_without, parent_without, present_companion, removable, Removal, Subject, SubjectView};
use crate::document::{Document, MetaCarrier};
use crate::error::{Error, Fault};
use crate::meta::{Meta, MetaView};
use crate::path::opt_text;
use crate::registry::copy_opt;
use crate::removal::{danglers, findings_view, Diagnosis, Finding, FindingView};
use crate::text::same_text;
use crate::workspace::{Outcome, Workspace, WsView};
use vstd::prelude::*;

verus! {

/// The index that a recycle bin has unless the root points at another one.
pub open spec fn usual_index(format: MetaFormat) -> Seq<char> {
    "recyclebin/index."@ + crate::document::ext_of_format(format)
}

/// The index of the recycle bin: what the root points at, or else the usual one
/// where it is there.
pub open spec fn bin_path(ws: WsView, root: Seq<char>) -> Outcome<Option<Seq<char>>> {
    match crate::workspace::loaded(ws.files, root) {
        Err(e) => Err(e),
        Ok((_, doc)) => {
            let pointed = match ws.relations.recycle {
                Some(relation) => crate::workspace::single_path(ws, doc, relation, root),
                None => None,
            };
            match pointed {
                Some(path) => Ok(Some(path)),
                None => {
                    let usual = usual_index(ws.settings.metadata);
                    if crate::files::lookup(ws.files, usual) is Some {
                        Ok(Some(usual))
                    } else {
                        Ok(None)
                    }
                },
            }
        },
    }
}

/// What a recycle bin holds.
pub struct Bin {
    /// Its index.
    pub index: String,
    /// Its title.
    pub title: String,
    /// What it says it is part of.
    pub part_of: Option<String>,
    /// What was removed.
    pub records: Vec<Meta>,
}

/// What a [`Bin`] holds.
pub struct BinView {
    pub index: Seq<char>,
    pub title: Seq<char>,
    pub part_of: Option<Seq<char>>,
    pub records: Seq<MetaView>,
}

impl View for Bin {
    type V = BinView;

    open spec fn view(&self) -> BinView {
        BinView {
            index: self.index@,
            title: self.title@,
            part_of: opt_text(self.part_of),
            records: crate::meta::items_view(self.records@),
        }
    }
}

/// The recycle bin whose index is at a path. An index is a metadata file.
pub open spec fn bin_at(ws: WsView, index: Seq<char>) -> Outcome<BinView> {
    match crate::workspace::loaded(ws.files, index) {
        Err(e) => Err(e),
        Ok((_, doc)) => if doc.carrier matches Some(MetaCarrier::Fenced(_)) {
            Err(Fault::MarkdownStore(index))
        } else {
            Ok(
                BinView {
                    index,
                    title: match crate::meta::text_field(doc.meta, "title"@) {
                        Some(title) => title,
                        None => "Recycle Bin"@,
                    },
                    part_of: crate::meta::text_field(doc.meta, "part_of"@),
                    records: match crate::meta::field(doc.meta, "deleted"@) {
                        Some(MetaView::List(items)) => items,
                        _ => Seq::empty(),
                    },
                },
            )
        },
    }
}

/// A place for a document in the bin: the first one, and the ones that are tried
/// after it.
pub open spec fn bin_slot(items: Seq<char>, path: Seq<char>, n: u64) -> Seq<char> {
    if n == 0 {
        crate::path::under(items, path)
    } else {
        crate::path::under(
            crate::path::under(items, crate::path::parent_of(path)),
            crate::maintain::name_or_empty(path) + "."@ + crate::text::decimal(n as nat),
        )
    }
}

/// Whether a place in the bin is free: nothing is there, and it is not the one given to
/// another file.
pub open spec fn is_free(ws: WsView, slot: Seq<char>, given: Option<Seq<char>>) -> bool {
    !crate::files::occupied(ws.files, slot) && given != Some(slot)
}

/// The first free place for a file in the bin, from one on.
pub open spec fn free_slot(
    ws: WsView,
    items: Seq<char>,
    path: Seq<char>,
    given: Option<Seq<char>>,
    n: u64,
) -> Option<Seq<char>>
    decreases u64::MAX - n,
{
    if is_free(ws, bin_slot(items, path, n), given) {
        Some(bin_slot(items, path, n))
    } else if n == u64::MAX {
        None
    } else {
        free_slot(ws, items, path, given, (n + 1) as u64)
    }
}

/// An entry, where there is text for it.
pub open spec fn noted(key: Seq<char>, text: Option<Seq<char>>) -> Seq<(Seq<char>, MetaView)> {
    match text {
        Some(text) => seq![(key, MetaView::Text(text))],
        None => Seq::empty(),
    }
}

/// Where the companion of a document goes in the bin, when the document goes to `slot`.
pub open spec fn companion_slot(
    ws: WsView,
    items: Seq<char>,
    companion: Option<Seq<char>>,
    slot: Seq<char>,
) -> Option<Seq<char>> {
    match companion {
        Some(file) => free_slot(ws, items, file, Some(slot), 0),
        None => None,
    }
}

/// What the bin notes of a document: all that it takes to put it back.
pub open spec fn record_of(
    ws: WsView,
    subject: SubjectView,
    path: Seq<char>,
    slot: Seq<char>,
    items: Seq<char>,
    at: Option<Seq<char>>,
) -> MetaView {
    let companion = present_companion(ws, subject.doc, path);
    MetaView::Mapping(
        noted("title"@, Some(crate::title::title_of(subject.doc, path))) + noted(
            "id"@,
            crate::registry::id_at(ws.ids, path),
        ) + noted("from"@, Some(path)) + noted("bin"@, Some(slot)) + noted(
            "parent"@,
            subject.parent,
        ) + noted("body_from"@, companion) + noted(
            "body_bin"@,
            companion_slot(ws, items, companion, slot),
        ) + noted("at"@, at),
    )
}

/// The text of the index of a bin.
pub open spec fn index_text(
    title: Seq<char>,
    part_of: Option<Seq<char>>,
    records: Seq<MetaView>,
    format: MetaFormat,
) -> Option<Seq<char>> {
    crate::codec::value_text(
        MetaView::Mapping(
            noted("title"@, Some(title)) + noted("part_of"@, part_of) + seq![
                ("deleted"@, MetaView::List(records)),
            ],
        ),
        format,
    )
}

/// The text of the root, pointing at a new bin.
pub open spec fn pointing_text(
    ws: WsView,
    root: Seq<char>,
    base: Seq<char>,
    index: Seq<char>,
) -> Outcome<Seq<char>> {
    match crate::document::parsed(root, base) {
        None => Err(Fault::Metadata(root)),
        Some(doc) => match ws.relations.recycle {
            None => Err(Fault::NoRecycleRelation),
            Some(relation) => match crate::document::set_in(
                base,
                doc.carrier,
                relation,
                MetaView::Text(
                    crate::link::path_text_of(
                        crate::workspace::reference_style(ws, relation).path_style,
                        root,
                        index,
                    ),
                ),
            ) {
                Some(out) => Ok(out),
                None => Err(Fault::Metadata(root)),
            },
        },
    }
}

/// The new text of the root: without the entry of the removed document, where it
/// is the parent, and pointing at the bin, where that is new.
pub open spec fn root_text(
    ws: WsView,
    root: Seq<char>,
    path: Seq<char>,
    parent: Option<Seq<char>>,
    parent_text: Option<Seq<char>>,
    existing: Option<Seq<char>>,
    index: Seq<char>,
) -> Outcome<Option<Seq<char>>> {
    let unlinked = if parent == Some(root) {
        parent_text
    } else {
        None
    };
    if existing is None && root != path {
        match unlinked {
            Some(base) => match pointing_text(ws, root, base, index) {
                Ok(out) => Ok(Some(out)),
                Err(e) => Err(e),
            },
            None => match crate::workspace::loaded(ws.files, root) {
                Err(e) => Err(e),
                Ok((base, _)) => match pointing_text(ws, root, base, index) {
                    Ok(out) => Ok(Some(out)),
                    Err(e) => Err(e),
                },
            },
        }
    } else {
        Ok(unlinked)
    }
}

/// The bin that a document goes to: the one that is there, or a new one.
pub open spec fn bin_for(ws: WsView, existing: Option<Seq<char>>) -> Outcome<BinView> {
    match existing {
        Some(index) => bin_at(ws, index),
        None => Ok(
            BinView {
                index: usual_index(ws.settings.metadata),
                title: "Recycle Bin"@,
                part_of: None,
                records: Seq::empty(),
            },
        ),
    }
}

/// The changes that put a document in the bin, given what becomes of the bin, of
/// its parent and of the root.
pub open spec fn recycle_changes(
    ws: WsView,
    path: Seq<char>,
    slot: Seq<char>,
    companion: Option<Seq<char>>,
    companion_to: Option<Seq<char>>,
    bin: (Seq<char>, Seq<char>),
    parent: Option<(Seq<char>, Seq<char>)>,
    root: Option<(Seq<char>, Seq<char>)>,
) -> ChangeView {
    let moved = crate::change::no_change(ws).with(crate::files::OpView::Rename(path, slot));
    let both = match (companion, companion_to) {
        (Some(from), Some(to)) => moved.with(crate::files::OpView::Rename(from, to)),
        _ => moved,
    };
    let indexed = both.with(crate::files::write_text(bin.0, bin.1));
    let unlinked = match parent {
        Some(p) => indexed.with(crate::files::write_text(p.0, p.1)),
        None => indexed,
    };
    let pointed = match root {
        Some(r) => unlinked.with(crate::files::write_text(r.0, r.1)),
        None => unlinked,
    };
    pointed.with_ids(ids_without(ws.ids, path))
}

/// A path with its new text, where it has one and is not `other`.
pub open spec fn rewritten_unless(
    path: Option<Seq<char>>,
    text: Option<Seq<char>>,
    other: Seq<char>,
) -> Option<(Seq<char>, Seq<char>)> {
    match (path, text) {
        (Some(p), Some(t)) => if p == other {
            None
        } else {
            Some((p, t))
        },
        _ => None,
    }
}

/// The changes that put a document in the bin, and the links that this breaks;
/// or why there are none.
pub open spec fn recycling(ws: WsView, path: Seq<char>, force: bool, at: Option<Seq<char>>) -> Outcome<
    (ChangeView, Seq<FindingView>),
> {
    let path = crate::path::normalized(path);
    match (
        crate::workspace::spanning_names(ws.relations),
        removable(ws, path, force, Removal::Binned),
    ) {
        (Err(e), _) => Err(e),
        (_, Err(e)) => Err(e),
        (Ok((spanning, inverse)), Ok(subject)) => {
            let root = crate::walk::root_of(ws, path, inverse);
            match (
                danglers(ws, Diagnosis::Report, path, subject.parent, subject.owner),
                bin_path(ws, root),
            ) {
                (Err(e), _) => Err(e),
                (_, Err(e)) => Err(e),
                (Ok(found), Ok(existing)) => match bin_for(ws, existing) {
                    Err(e) => Err(e),
                    Ok(bin) => {
                        let items = crate::path::under(
                            crate::path::parent_of(bin.index),
                            "items"@,
                        );
                        let companion = present_companion(ws, subject.doc, path);
                        match free_slot(ws, items, path, None, 0) {
                            None => Err(Fault::NoFreeName(path)),
                            Some(slot) => if companion is Some && companion_slot(
                                ws,
                                items,
                                companion,
                                slot,
                            ) is None {
                                Err(Fault::NoFreeName(companion->Some_0))
                            } else {
                                let records = bin.records.push(
                                    record_of(ws, subject, path, slot, items, at),
                                );
                                match index_text(
                                    bin.title,
                                    None,
                                    records,
                                    ws.settings.metadata,
                                ) {
                                    None => Err(Fault::Metadata(bin.index)),
                                    Some(text) => match parent_without(
                                        ws,
                                        spanning,
                                        subject.parent,
                                        path,
                                    ) {
                                        Err(e) => Err(e),
                                        Ok(parent_text) => match root_text(
                                            ws,
                                            root,
                                            path,
                                            subject.parent,
                                            parent_text,
                                            existing,
                                            bin.index,
                                        ) {
                                            Err(e) => Err(e),
                                            Ok(root_out) => Ok(
                                                (
                                                    recycle_changes(
                                                        ws,
                                                        path,
                                                        slot,
                                                        companion,
                                                        companion_slot(
                                                            ws,
                                                            items,
                                                            companion,
                                                            slot,
                                                        ),
                                                        (bin.index, text),
                                                        rewritten_unless(
                                                            subject.parent,
                                                            parent_text,
                                                            root,
                                                        ),
                                                        match root_out {
                                                            Some(t) => Some((root, t)),
                                                            None => None,
                                                        },
                                                    ).parking(items),
                                                    found,
                                                ),
                                            ),
                                        },
                                    },
                                }
                            },
                        }
                    },
                },
            }
        },
    }
}

/// The text of a time, where there is one.
pub open spec fn told_time(at: Option<&str>) -> Option<Seq<char>> {
    match at {
        Some(at) => Some(at@),
        None => None,
    }
}

pub(crate) fn note(pairs: &mut Vec<(String, Meta)>, key: &str, text: &Option<String>)
    ensures
        crate::meta::pairs_view(final(pairs)@) == crate::meta::pairs_view(old(pairs)@) + noted(
            key@,
            opt_text(*text),
        ),
{
    let ghost before = crate::meta::pairs_view(pairs@);
    match text {
        Some(t) => {
            pairs.push((key.to_owned(), Meta::Text(t.clone())));
        },
        None => {},
    }
    proof {
        assert(crate::meta::pairs_view(pairs@) =~= before + noted(key@, opt_text(*text)));
    }
}

pub(crate) fn write_index(title: &str, part_of: &Option<String>, records: Vec<Meta>, format: MetaFormat) -> (r:
    Option<String>)
    ensures
        opt_text(r) == index_text(
            title@,
            opt_text(*part_of),
            crate::meta::items_view(records@),
            format,
        ),
{
    broadcast use crate::meta::lemma_map_view;
    broadcast use crate::meta::lemma_list_view;

    let mut pairs: Vec<(String, Meta)> = Vec::new();
    proof {
        assert(crate::meta::pairs_view(pairs@) =~= Seq::empty());
    }
    note(&mut pairs, "title", &Some(title.to_owned()));
    note(&mut pairs, "part_of", part_of);
    let ghost before = crate::meta::pairs_view(pairs@);
    let ghost list = crate::meta::items_view(records@);
    pairs.push(("deleted".to_owned(), Meta::List(records)));
    proof {
        assert(before =~= noted("title"@, Some(title@)) + noted("part_of"@, opt_text(*part_of)));
        assert(crate::meta::pairs_view(pairs@) =~= before + seq![
            ("deleted"@, MetaView::List(list)),
        ]);
    }
    crate::codec::serialize(&Meta::Mapping(pairs), format)
}

/// Copies of values.
pub(crate) fn copy_items(items: &Vec<Meta>) -> (r: Vec<Meta>)
    ensures
        crate::meta::items_view(r@) == crate::meta::items_view(items@),
{
    let mut out: Vec<Meta> = Vec::new();
    let mut i: usize = 0;
    while i < items.len()
        invariant
            i <= items@.len(),
            out@.len() == i,
            forall|j: int| 0 <= j < i ==> (#[trigger] out@[j])@ == items@[j]@,
        decreases items@.len() - i,
    {
        out.push(items[i].copy());
        i = i + 1;
    }
    proof {
        assert(crate::meta::items_view(out@) =~= crate::meta::items_view(items@));
    }
    out
}

fn slot_path(items: &str, path: &str, n: u64) -> (r: String)
    ensures
        r@ == bin_slot(items@, path@, n),
{
    if n == 0 {
        crate::path::read_in(items, path)
    } else {
        let dir = crate::path::read_in(items, &crate::path::parent(path));
        let name = crate::maintain::base_name(path).concat(".").concat(
            &crate::text::number_text(n),
        );
        crate::path::read_in(&dir, &name)
    }
}

impl Workspace {
    /// The index of the recycle bin: what the root points at, or else the usual
    /// one where it is there.
    pub fn recycle_bin_path(&self, root: &str) -> (r: Result<Option<String>, Error>)
        ensures
            crate::workspace::told_opt(r) == bin_path(self@, root@),
    {
        let doc = match self.load(root) {
            Ok((_, doc)) => doc,
            Err(e) => {
                return Err(e);
            },
        };
        let pointed = match &self.relations.recycle {
            Some(relation) => self.single_target(&doc, relation, root),
            None => None,
        };
        match pointed {
            Some(path) => Ok(Some(path)),
            None => {
                let usual = self.usual_bin();
                if self.files.holds(&usual) {
                    Ok(Some(usual))
                } else {
                    Ok(None)
                }
            },
        }
    }

    fn usual_bin(&self) -> (r: String)
        ensures
            r@ == usual_index(self@.settings.metadata),
    {
        "recyclebin/index.".to_owned().concat(
            crate::document::whole_file_extension(self.settings.metadata),
        )
    }

    pub(crate) fn open_bin(&self, index: String) -> (r: Result<Bin, Error>)
        ensures
            match r {
                Ok(bin) => bin_at(self@, index@) matches Ok(v) && v == bin@,
                Err(e) => bin_at(self@, index@) matches Err(f) && f == crate::error::fault(e),
            },
    {
        broadcast use crate::meta::lemma_list_view;

        let doc = match self.load(&index) {
            Ok((_, doc)) => doc,
            Err(e) => {
                return Err(e);
            },
        };
        match doc.carrier {
            Some(MetaCarrier::Fenced(_)) => {
                return Err(Fault::MarkdownStore(index));
            },
            _ => {},
        }
        let title = match doc.meta.get_text("title") {
            Some(title) => title,
            None => "Recycle Bin".to_owned(),
        };
        let part_of = doc.meta.get_text("part_of");
        let records = match doc.meta.get("deleted") {
            Some(Meta::List(items)) => copy_items(items),
            _ => {
                let none: Vec<Meta> = Vec::new();
                proof {
                    assert(crate::meta::items_view(none@) =~= Seq::empty());
                }
                none
            },
        };
        Ok(Bin { index, title, part_of, records })
    }

    fn choose_bin(&self, existing: &Option<String>) -> (r: Result<Bin, Error>)
        ensures
            match r {
                Ok(bin) => bin_for(self@, opt_text(*existing)) matches Ok(v) && v == bin@,
                Err(e) => bin_for(self@, opt_text(*existing)) matches Err(f) && f
                    == crate::error::fault(e),
            },
    {
        match existing {
            Some(index) => self.open_bin(index.clone()),
            None => {
                let none: Vec<Meta> = Vec::new();
                proof {
                    assert(crate::meta::items_view(none@) =~= Seq::empty());
                }
                Ok(
                    Bin {
                        index: self.usual_bin(),
                        title: "Recycle Bin".to_owned(),
                        part_of: None,
                        records: none,
                    },
                )
            },
        }
    }

    fn find_slot(&self, items: &str, path: &str, given: &Option<String>) -> (r: Option<String>)
        ensures
            opt_text(r) == free_slot(self@, items@, path@, opt_text(*given), 0),
    {
        let mut n: u64 = 0;
        loop
            invariant
                free_slot(self@, items@, path@, opt_text(*given), 0) == free_slot(
                    self@,
                    items@,
                    path@,
                    opt_text(*given),
                    n,
                ),
            decreases u64::MAX - n,
        {
            let slot = slot_path(items, path, n);
            let is_given = match given {
                Some(other) => same_text(other, &slot),
                None => false,
            };
            if !self.is_taken(&slot) && !is_given {
                return Some(slot);
            }
            if n == u64::MAX {
                return None;
            }
            n = n + 1;
        }
    }

    fn write_record(
        &self,
        subject: &Subject,
        path: &str,
        slot: &str,
        items: &str,
        at: &Option<String>,
    ) -> (r: Meta)
        ensures
            r@ == record_of(self@, subject@, path@, slot@, items@, opt_text(*at)),
    {
        broadcast use crate::meta::lemma_map_view;

        let companion = self.companion_of(&subject.doc, path);
        let companion_to = match &companion {
            Some(file) => self.find_slot(items, file, &Some(slot.to_owned())),
            None => None,
        };
        let mut pairs: Vec<(String, Meta)> = Vec::new();
        proof {
            assert(crate::meta::pairs_view(pairs@) =~= Seq::empty());
        }
        let title = crate::title::document_title(&subject.doc, path);
        note(&mut pairs, "title", &Some(title));
        note(&mut pairs, "id", &self.registry.id_for_path(path));
        note(&mut pairs, "from", &Some(path.to_owned()));
        note(&mut pairs, "bin", &Some(slot.to_owned()));
        note(&mut pairs, "parent", &subject.parent);
        note(&mut pairs, "body_from", &companion);
        note(&mut pairs, "body_bin", &companion_to);
        note(&mut pairs, "at", at);
        proof {
            let whole = record_of(self@, subject@, path@, slot@, items@, opt_text(*at));
            assert(whole matches MetaView::Mapping(all) && all =~= crate::meta::pairs_view(pairs@));
        }
        Meta::Mapping(pairs)
    }

    fn point_root(&self, root: &str, base: &str, index: &str) -> (r: Result<String, Error>)
        ensures
            crate::workspace::told(r) == pointing_text(self@, root@, base@, index@),
    {
        let doc = match Document::parse(root, base) {
            Some(doc) => doc,
            None => {
                return Err(Fault::Metadata(root.to_owned()));
            },
        };
        match &self.relations.recycle {
            None => Err(Fault::NoRecycleRelation),
            Some(relation) => {
                let style = self.reference_style_for(relation).path_style;
                let pointer = Meta::Text(crate::link::path_text(style, root, index));
                match crate::document::set_in_text(base, doc.carrier, relation, &pointer) {
                    Some(out) => Ok(out),
                    None => Err(Fault::Metadata(root.to_owned())),
                }
            },
        }
    }

    fn write_root(
        &self,
        root: &str,
        path: &str,
        parent: &Option<String>,
        parent_text: &Option<String>,
        existing: &Option<String>,
        index: &str,
    ) -> (r: Result<Option<String>, Error>)
        ensures
            crate::workspace::told_opt(r) == root_text(
                self@,
                root@,
                path@,
                opt_text(*parent),
                opt_text(*parent_text),
                opt_text(*existing),
                index@,
            ),
    {
        let by_parent = match parent {
            Some(parent) => same_text(parent, root),
            None => false,
        };
        let unlinked = if by_parent {
            copy_opt(parent_text)
        } else {
            None
        };
        if existing.is_some() || same_text(root, path) {
            return Ok(unlinked);
        }
        let base = match unlinked {
            Some(base) => base,
            None => match self.load(root) {
                Ok((base, _)) => base,
                Err(e) => {
                    return Err(e);
                },
            },
        };
        match self.point_root(root, &base, index) {
            Ok(out) => Ok(Some(out)),
            Err(e) => Err(e),
        }
    }

    /// The changes that put a document in the bin, and the links that this
    /// breaks.
    pub fn plan_recycle(&self, path: &str, force: bool, at: Option<&str>) -> (r: Result<
        (ChangeSet, Vec<Finding>),
        Error,
    >)
        ensures
            ({
                let plan = recycling(self@, path@, force, told_time(at));
                match r {
                    Ok((cs, found)) => plan matches Ok((c, v)) && c == cs@ && v == findings_view(
                        found@,
                    ),
                    Err(e) => plan matches Err(f) && f == crate::error::fault(e),
                }
            }),
    {
        let path = crate::path::normalize(path);
        let (spanning, inverse) = match self.spanning_pair() {
            Ok(pair) => pair,
            Err(e) => {
                return Err(e);
            },
        };
        let subject = match self.subject(&path, force, Removal::Binned) {
            Ok(subject) => subject,
            Err(e) => {
                return Err(e);
            },
        };
        let root = self.spanning_root(&path, &inverse);
        let found = match self.removal_danglers(
            Diagnosis::Report,
            &path,
            &subject.parent,
            &subject.owner,
        ) {
            Ok(found) => found,
            Err(e) => {
                return Err(e);
            },
        };
        let existing = match self.recycle_bin_path(&root) {
            Ok(existing) => existing,
            Err(e) => {
                return Err(e);
            },
        };
        let bin = match self.choose_bin(&existing) {
            Ok(bin) => bin,
            Err(e) => {
                return Err(e);
            },
        };
        let items = crate::path::read_in(&crate::path::parent(&bin.index), "items");
        let slot = match self.find_slot(&items, &path, &None) {
            Some(slot) => slot,
            None => {
                return Err(Fault::NoFreeName(path));
            },
        };
        let along = match self.companion_of(&subject.doc, &path) {
            Some(file) => match self.find_slot(&items, &file, &Some(slot.clone())) {
                Some(to) => Some((file, to)),
                None => {
                    return Err(Fault::NoFreeName(file));
                },
            },
            None => None,
        };
        let time = match at {
            Some(at) => Some(at.to_owned()),
            None => None,
        };
        let record = self.write_record(&subject, &path, &slot, &items, &time);
        let mut records = bin.records;
        let ghost before = crate::meta::items_view(records@);
        records.push(record);
        proof {
            assert(crate::meta::items_view(records@) =~= before.push(record@));
        }
        let text = match write_index(&bin.title, &None, records, self.settings.metadata) {
            Some(text) => text,
            None => {
                return Err(Fault::Metadata(bin.index));
            },
        };
        let parent_text = match self.unlink_from_parent(&spanning, &subject.parent, &path) {
            Ok(text) => text,
            Err(e) => {
                return Err(e);
            },
        };
        let root_out = match self.write_root(
            &root,
            &path,
            &subject.parent,
            &parent_text,
            &existing,
            &bin.index,
        ) {
            Ok(out) => out,
            Err(e) => {
                return Err(e);
            },
        };
        let mut cs = self.change();
        cs.rename(&path, &slot);
        match &along {
            Some((file, to)) => {
                cs.rename(file, to);
            },
            None => {},
        }
        cs.write(&bin.index, &text);
        match (&subject.parent, &parent_text) {
            (Some(parent), Some(text)) => if !same_text(parent, &root) {
                cs.write(parent, text);
            },
            _ => {},
        }
        match &root_out {
            Some(text) => {
                cs.write(&root, text);
            },
            None => {},
        }
        match self.registry.id_for_path(&path) {
            Some(id) => {
                cs.retire(&id);
            },
            None => {},
        }
        cs.park(&items);
        Ok((cs, found))
    }

    /// Puts a document and the file that goes with it in the bin, and takes out
    /// the entry that its parent holds for it; its identifier is retired, and what is
    /// in the bin is parked. Gives the links that this breaks. A refusal changes nothing.
    pub fn recycle(&mut self, path: &str, force: bool, at: Option<&str>) -> (r: Result<
        Vec<Finding>,
        Error,
    >)
        ensures
            ({
                let done = crate::change::carried_out(
                    old(self)@,
                    recycling(old(self)@, path@, force, told_time(at)),
                );
                match r {
                    Ok(found) => done matches Ok((after, v)) && after == final(self)@ && v
                        == findings_view(found@),
                    Err(e) => done matches Err(f) && f == crate::error::fault(e) && *final(self)
                        == *old(self),
                }
            }),
    {
        match self.plan_recycle(path, force, at) {
            Ok((cs, found)) => match self.commit(cs) {
                Ok(_) => Ok(found),
                Err(e) => Err(e),
            },
            Err(e) => Err(e),
        }
    }
}

/// The changes that follow the document into the bin.
pub open spec fn changes_after(
    companion: Option<Seq<char>>,
    companion_to: Option<Seq<char>>,
    bin: (Seq<char>, Seq<char>),
    parent: Option<(Seq<char>, Seq<char>)>,
    root: Option<(Seq<char>, Seq<char>)>,
) -> Seq<crate::files::OpView> {
    let none = Seq::<crate::files::OpView>::empty();
    let both = match (companion, companion_to) {
        (Some(from), Some(to)) => none.push(crate::files::OpView::Rename(from, to)),
        _ => none,
    };
    let indexed = both.push(crate::files::write_text(bin.0, bin.1));
    let unlinked = match parent {
        Some(p) => indexed.push(crate::files::write_text(p.0, p.1)),
        None => indexed,
    };
    match root {
        Some(r) => unlinked.push(crate::files::write_text(r.0, r.1)),
        None => unlinked,
    }
}

/// The place that a document gets in the bin, and the index of the bin.
pub open spec fn binned(ws: WsView, path: Seq<char>) -> Option<(Seq<char>, Seq<char>)> {
    match crate::workspace::spanning_names(ws.relations) {
        Ok((_, inverse)) => match bin_path(ws, crate::walk::root_of(ws, path, inverse)) {
            Ok(existing) => match bin_for(ws, existing) {
                Ok(bin) => match free_slot(
                    ws,
                    crate::path::under(crate::path::parent_of(bin.index), "items"@),
                    path,
                    None,
                    0,
                ) {
                    Some(slot) => Some((slot, bin.index)),
                    None => None,
                },
                Err(_) => None,
            },
            Err(_) => None,
        },
        Err(_) => None,
    }
}

proof fn lemma_free_slot(
    ws: WsView,
    items: Seq<char>,
    path: Seq<char>,
    given: Option<Seq<char>>,
    n: u64,
)
    ensures
        free_slot(ws, items, path, given, n) matches Some(slot) ==> is_free(ws, slot, given),
    decreases u64::MAX - n,
{
    if !is_free(ws, bin_slot(items, path, n), given) && n < u64::MAX {
        lemma_free_slot(ws, items, path, given, (n + 1) as u64);
    }
}

/// A document, its place in the bin, the index of the bin and the companion are not one
/// another, and the document is not its own parent.
pub open spec fn stays_apart(ws: WsView, path: Seq<char>, force: bool) -> bool {
    removable(ws, path, force, Removal::Binned) matches Ok(subject) && binned(ws, path)
        matches Some((slot, index)) && ({
        let companion = present_companion(ws, subject.doc, path);
        &&& slot != index
        &&& path != index
        &&& subject.parent != Some(path)
        &&& companion != Some(path)
    })
}

/// A document in the bin holds what it held, at a place that was free; it is gone
/// from where it was, and its identifier is carried by nothing. The place is not
/// the index.
pub proof fn law_recycle_keeps(
    ws: WsView,
    path: Seq<char>,
    force: bool,
    at: Option<Seq<char>>,
    after: WsView,
)
    requires
        recycling(ws, path, force, at) matches Ok((cs, _)) && crate::change::landed(ws, cs)
            matches Ok(w) && w == after,
        stays_apart(ws, crate::path::normalized(path), force),
    ensures
        ({
            let p = crate::path::normalized(path);
            binned(ws, p) matches Some((slot, _)) && !crate::files::occupied(ws.files, slot)
                && crate::files::lookup(ws.files, p) is Some && crate::files::lookup(
                after.files,
                slot,
            ) == crate::files::lookup(ws.files, p) && crate::files::lookup(after.files, p) is None
        }),
        crate::registry::id_at(ws.ids, crate::path::normalized(path)) matches Some(id)
            ==> crate::registry::path_of(after.ids, id) is None && crate::registry::is_known(
            after.ids,
            id,
        ),
{
    let p = crate::path::normalized(path);
    let (spanning, inverse) = crate::workspace::spanning_names(ws.relations)->Ok_0;
    let subject = removable(ws, p, force, Removal::Binned)->Ok_0;
    let root = crate::walk::root_of(ws, p, inverse);
    let existing = bin_path(ws, root)->Ok_0;
    let bin = bin_for(ws, existing)->Ok_0;
    let items = crate::path::under(crate::path::parent_of(bin.index), "items"@);
    let slot = free_slot(ws, items, p, None, 0)->Some_0;
    lemma_free_slot(ws, items, p, None, 0);
    let companion = present_companion(ws, subject.doc, p);
    let companion_to = companion_slot(ws, items, companion, slot);
    match companion {
        Some(file) => {
            lemma_free_slot(ws, items, file, Some(slot), 0);
        },
        None => {},
    }
    let text = index_text(
        bin.title,
        None,
        bin.records.push(record_of(ws, subject, p, slot, items, at)),
        ws.settings.metadata,
    )->Some_0;
    let parent_text = parent_without(ws, spanning, subject.parent, p)->Ok_0;
    let root_out = root_text(
        ws,
        root,
        p,
        subject.parent,
        parent_text,
        existing,
        bin.index,
    )->Ok_0;
    let parent = rewritten_unless(subject.parent, parent_text, root);
    let root_pair = match root_out {
        Some(t) => Some((root, t)),
        None => None,
    };
    let rest = changes_after(companion, companion_to, (bin.index, text), parent, root_pair);
    let cs = recycle_changes(
        ws,
        p,
        slot,
        companion,
        companion_to,
        (bin.index, text),
        parent,
        root_pair,
    );
    assert(cs.ops =~= seq![crate::files::OpView::Rename(p, slot)] + rest);
    match crate::registry::id_at(ws.ids, p) {
        Some(id) => {
            crate::registry::law_retired(ws.ids, id, id);
        },
        None => {},
    }
    assert(crate::files::lookup(ws.files, p) is Some);
    crate::landing::law_file_is_taken(ws.files, p);
    match subject.parent {
        Some(q) => {
            if parent_text is Some {
                crate::landing::law_file_is_taken(ws.files, q);
            }
        },
        None => {},
    }
    if root_out is Some {
        assert(crate::files::lookup(ws.files, root) is Some) by {
            if subject.parent == Some(root) && parent_text is Some {
            } else {
                assert(crate::workspace::loaded(ws.files, root) is Ok);
            }
        }
        crate::landing::law_file_is_taken(ws.files, root);
        assert(root != p) by {
            if root == p {
                assert(root_out == (if subject.parent == Some(root) {
                    parent_text
                } else {
                    None
                }));
            }
        }
    }
    assert(!crate::landing::any_touches(rest, slot)) by {
        if crate::landing::any_touches(rest, slot) {
            let i = choose|i: int|
                0 <= i < rest.len() && crate::landing::touches(#[trigger] rest[i], slot);
            assert(crate::landing::touches(rest[i], slot));
        }
    }
    assert(!crate::landing::any_touches(rest, p)) by {
        if crate::landing::any_touches(rest, p) {
            let i = choose|i: int|
                0 <= i < rest.len() && crate::landing::touches(#[trigger] rest[i], p);
            assert(crate::landing::touches(rest[i], p));
        }
    }
    crate::landing::law_first_renamed(ws.files, p, slot, rest, after.files);
}

proof fn lemma_noted(
    a: Seq<(Seq<char>, MetaView)>,
    k: Seq<char>,
    t: Option<Seq<char>>,
    key: Seq<char>,
)
    ensures
        crate::meta::field(MetaView::Mapping(a + noted(k, t)), key) == (match crate::meta::field(
            MetaView::Mapping(a),
            key,
        ) {
            Some(value) => Some(value),
            None => match t {
                Some(text) => if key == k {
                    Some(MetaView::Text(text))
                } else {
                    None
                },
                None => None,
            },
        }),
{
    match t {
        Some(text) => {
            let all = a + noted(k, t);
            assert(all.drop_last() =~= a);
            crate::meta::lemma_key_index(a, key);
        },
        None => {
            assert(a + noted(k, t) =~= a);
        },
    }
}

/// What the bin notes of a document can be read from its record.
pub proof fn law_record_reads(
    ws: WsView,
    subject: SubjectView,
    path: Seq<char>,
    slot: Seq<char>,
    items: Seq<char>,
    at: Option<Seq<char>>,
)
    ensures
        ({
            let record = record_of(ws, subject, path, slot, items, at);
            let companion = present_companion(ws, subject.doc, path);
            &&& crate::meta::text_field(record, "title"@) == Some(
                crate::title::title_of(subject.doc, path),
            )
            &&& crate::meta::text_field(record, "id"@) == crate::registry::id_at(ws.ids, path)
            &&& crate::meta::text_field(record, "from"@) == Some(path)
            &&& crate::meta::text_field(record, "bin"@) == Some(slot)
            &&& crate::meta::text_field(record, "parent"@) == subject.parent
            &&& crate::meta::text_field(record, "body_from"@) == companion
            &&& crate::meta::text_field(record, "body_bin"@) == companion_slot(
                ws,
                items,
                companion,
                slot,
            )
            &&& crate::meta::text_field(record, "at"@) == at
        }),
{
    reveal_strlit("title");
    reveal_strlit("id");
    reveal_strlit("from");
    reveal_strlit("bin");
    reveal_strlit("parent");
    reveal_strlit("body_from");
    reveal_strlit("body_bin");
    reveal_strlit("at");
    assert("title"@.len() == 5 && "id"@.len() == 2 && "from"@.len() == 4 && "bin"@.len() == 3);
    assert("parent"@.len() == 6 && "body_from"@.len() == 9 && "body_bin"@.len() == 8);
    assert("id"@[0] == 'i' && "at"@[0] == 'a' && "at"@.len() == 2);
    lemma_record_key(ws, subject, path, slot, items, at, "title"@);
    lemma_record_key(ws, subject, path, slot, items, at, "id"@);
    lemma_record_key(ws, subject, path, slot, items, at, "from"@);
    lemma_record_key(ws, subject, path, slot, items, at, "bin"@);
    lemma_record_key(ws, subject, path, slot, items, at, "parent"@);
    lemma_record_key(ws, subject, path, slot, items, at, "body_from"@);
    lemma_record_key(ws, subject, path, slot, items, at, "body_bin"@);
    lemma_record_key(ws, subject, path, slot, items, at, "at"@);
}

proof fn lemma_record_key(
    ws: WsView,
    subject: SubjectView,
    path: Seq<char>,
    slot: Seq<char>,
    items: Seq<char>,
    at: Option<Seq<char>>,
    key: Seq<char>,
)
    ensures
        ({
            let companion = present_companion(ws, subject.doc, path);
            crate::meta::text_field(record_of(ws, subject, path, slot, items, at), key) == (if key
                == "title"@ {
                Some(crate::title::title_of(subject.doc, path))
            } else if key == "id"@ && crate::registry::id_at(ws.ids, path) is Some {
                crate::registry::id_at(ws.ids, path)
            } else if key == "from"@ {
                Some(path)
            } else if key == "bin"@ {
                Some(slot)
            } else if key == "parent"@ && subject.parent is Some {
                subject.parent
            } else if key == "body_from"@ && companion is Some {
                companion
            } else if key == "body_bin"@ && companion_slot(ws, items, companion, slot) is Some {
                companion_slot(ws, items, companion, slot)
            } else if key == "at"@ {
                at
            } else {
                None
            })
        }),
{
    let companion = present_companion(ws, subject.doc, path);
    let none = Seq::<(Seq<char>, MetaView)>::empty();
    let title = Some(crate::title::title_of(subject.doc, path));
    let id = crate::registry::id_at(ws.ids, path);
    let beside = companion_slot(ws, items, companion, slot);
    let a = noted("title"@, title);
    let b = a + noted("id"@, id);
    let c = b + noted("from"@, Some(path));
    let d = c + noted("bin"@, Some(slot));
    let e = d + noted("parent"@, subject.parent);
    let f = e + noted("body_from"@, companion);
    let g = f + noted("body_bin"@, beside);
    assert(none + a =~= a);
    lemma_noted(none, "title"@, title, key);
    lemma_noted(a, "id"@, id, key);
    lemma_noted(b, "from"@, Some(path), key);
    lemma_noted(c, "bin"@, Some(slot), key);
    lemma_noted(d, "parent"@, subject.parent, key);
    lemma_noted(e, "body_from"@, companion, key);
    lemma_noted(f, "body_bin"@, beside, key);
    lemma_noted(g, "at"@, at, key);
}

/// The companion of a document that goes to the bin, and its place there, are none of
/// the other files that the removal touches; and the parent is not the index.
pub open spec fn companion_apart(ws: WsView, path: Seq<char>, force: bool) -> bool {
    removable(ws, path, force, Removal::Binned) matches Ok(subject)
        && crate::workspace::spanning_names(ws.relations) matches Ok((_, inverse)) && binned(
        ws,
        path,
    ) matches Some((slot, index)) && ({
        let root = crate::walk::root_of(ws, path, inverse);
        let companion = present_companion(ws, subject.doc, path);
        let beside = companion_slot(
            ws,
            crate::path::under(crate::path::parent_of(index), "items"@),
            companion,
            slot,
        );
        &&& subject.parent != Some(index)
        &&& companion matches Some(c) ==> c != index && c != root && subject.parent != Some(c)
            && beside != Some(c)
        &&& beside matches Some(b) ==> b != index && b != root && subject.parent != Some(b)
    })
}

/// The companion of a document goes to the bin with it, to a place that was free, and
/// holds there what it held.
pub proof fn law_recycle_keeps_companion(
    ws: WsView,
    path: Seq<char>,
    force: bool,
    at: Option<Seq<char>>,
    after: WsView,
    file: Seq<char>,
)
    requires
        recycling(ws, path, force, at) matches Ok((cs, _)) && crate::change::landed(ws, cs)
            matches Ok(w) && w == after,
        stays_apart(ws, crate::path::normalized(path), force),
        companion_apart(ws, crate::path::normalized(path), force),
        removable(ws, crate::path::normalized(path), force, Removal::Binned) matches Ok(subject)
            && present_companion(ws, subject.doc, crate::path::normalized(path)) == Some(file),
    ensures
        ({
            let p = crate::path::normalized(path);
            binned(ws, p) matches Some((slot, index)) && ({
                &&& crate::files::lookup(ws.files, file) is Some
                &&& companion_slot(
                    ws,
                    crate::path::under(crate::path::parent_of(index), "items"@),
                    Some(file),
                    slot,
                ) matches Some(beside) && !crate::files::occupied(ws.files, beside) && beside
                    != slot && crate::files::lookup(after.files, beside) == crate::files::lookup(
                    ws.files,
                    file,
                )
                &&& crate::files::lookup(after.files, file) is None
            })
        }),
{
    let p = crate::path::normalized(path);
    let (spanning, inverse) = crate::workspace::spanning_names(ws.relations)->Ok_0;
    let subject = removable(ws, p, force, Removal::Binned)->Ok_0;
    let root = crate::walk::root_of(ws, p, inverse);
    let existing = bin_path(ws, root)->Ok_0;
    let bin = bin_for(ws, existing)->Ok_0;
    let items = crate::path::under(crate::path::parent_of(bin.index), "items"@);
    let slot = free_slot(ws, items, p, None, 0)->Some_0;
    lemma_free_slot(ws, items, p, None, 0);
    let beside = companion_slot(ws, items, Some(file), slot)->Some_0;
    lemma_free_slot(ws, items, file, Some(slot), 0);
    let text = index_text(
        bin.title,
        None,
        bin.records.push(record_of(ws, subject, p, slot, items, at)),
        ws.settings.metadata,
    )->Some_0;
    let parent_text = parent_without(ws, spanning, subject.parent, p)->Ok_0;
    let root_out = root_text(
        ws,
        root,
        p,
        subject.parent,
        parent_text,
        existing,
        bin.index,
    )->Ok_0;
    let parent = rewritten_unless(subject.parent, parent_text, root);
    let root_pair = match root_out {
        Some(t) => Some((root, t)),
        None => None,
    };
    let none = Seq::<crate::files::OpView>::empty();
    let rest = changes_after(None, None, (bin.index, text), parent, root_pair);
    let first = none.push(crate::files::OpView::Rename(p, slot));
    let second = seq![crate::files::OpView::Rename(file, beside)] + rest;
    let cs = recycle_changes(
        ws,
        p,
        slot,
        Some(file),
        Some(beside),
        (bin.index, text),
        parent,
        root_pair,
    );
    assert(cs.ops =~= first + second);
    crate::landing::lemma_changed_add(ws.files, first, second);
    crate::landing::lemma_changed_push(
        ws.files,
        none,
        crate::files::OpView::Rename(p, slot),
    );
    let data = crate::files::lookup(ws.files, p)->Some_0;
    let gone = crate::files::without(ws.files, p);
    let f1 = crate::files::stored(gone, slot, data);
    assert(crate::files::lookup(f1, file) == crate::files::lookup(ws.files, file) || file == slot)
        by {
        crate::files::law_without(ws.files, p, file);
        crate::files::law_stored(gone, slot, data, file);
    }
    assert(file != slot);
    assert(!crate::landing::any_touches(rest, file) && !crate::landing::any_touches(rest, beside))
        by {
        if crate::landing::any_touches(rest, file) {
            let i = choose|i: int|
                0 <= i < rest.len() && crate::landing::touches(#[trigger] rest[i], file);
            assert(crate::landing::touches(rest[i], file));
        }
        if crate::landing::any_touches(rest, beside) {
            let i = choose|i: int|
                0 <= i < rest.len() && crate::landing::touches(#[trigger] rest[i], beside);
            assert(crate::landing::touches(rest[i], beside));
        }
    }
    crate::landing::law_first_renamed(f1, file, beside, rest, after.files);
}

/// Nothing is lost to a removal to the bin: a file that is neither the document nor its
/// companion, nor its parent, nor the root or the index of the bin, holds what it held;
/// so does whatever is in the bin already, for the places taken there were free.
pub proof fn law_recycle_leaves_others(
    ws: WsView,
    path: Seq<char>,
    force: bool,
    at: Option<Seq<char>>,
    after: WsView,
    file: Seq<char>,
)
    requires
        recycling(ws, path, force, at) matches Ok((cs, _)) && crate::change::landed(ws, cs)
            matches Ok(w) && w == after,
        crate::files::lookup(ws.files, file) is Some,
        ({
            let p = crate::path::normalized(path);
            removable(ws, p, force, Removal::Binned) matches Ok(subject)
                && crate::workspace::spanning_names(ws.relations) matches Ok((_, inverse))
                && binned(ws, p) matches Some((_, index)) && file != p && file != index && file
                != crate::walk::root_of(ws, p, inverse) && subject.parent != Some(file)
                && present_companion(ws, subject.doc, p) != Some(file)
        }),
    ensures
        crate::files::lookup(after.files, file) == crate::files::lookup(ws.files, file),
{
    let p = crate::path::normalized(path);
    let (spanning, inverse) = crate::workspace::spanning_names(ws.relations)->Ok_0;
    let subject = removable(ws, p, force, Removal::Binned)->Ok_0;
    let root = crate::walk::root_of(ws, p, inverse);
    let bin = bin_for(ws, bin_path(ws, root)->Ok_0)->Ok_0;
    let items = crate::path::under(crate::path::parent_of(bin.index), "items"@);
    let slot = free_slot(ws, items, p, None, 0)->Some_0;
    let companion = present_companion(ws, subject.doc, p);
    lemma_free_slot(ws, items, p, None, 0);
    match companion {
        Some(c) => {
            lemma_free_slot(ws, items, c, Some(slot), 0);
        },
        None => {},
    }
    crate::landing::law_file_is_taken(ws.files, file);
    let (cs, _) = recycling(ws, path, force, at)->Ok_0;
    assert(!crate::landing::any_touches(cs.ops, file)) by {
        if crate::landing::any_touches(cs.ops, file) {
            let i = choose|i: int|
                0 <= i < cs.ops.len() && crate::landing::touches(#[trigger] cs.ops[i], file);
            assert(crate::landing::touches(cs.ops[i], file));
        }
    }
    crate::landing::law_untouched(ws.files, cs.ops, file);
}

/// What is in the bin is parked, so that a directory that moves takes it along as it is;
/// and a removal leaves the workspace starting where it did.
pub proof fn law_recycle_parks(
    ws: WsView,
    path: Seq<char>,
    force: bool,
    at: Option<Seq<char>>,
    after: WsView,
    file: Seq<char>,
)
    requires
        recycling(ws, path, force, at) matches Ok((cs, _)) && crate::change::landed(ws, cs)
            matches Ok(w) && w == after,
        binned(ws, crate::path::normalized(path)) matches Some((_, index))
            && crate::path::is_within(
            file,
            crate::path::under(crate::path::parent_of(index), "items"@),
        ),
    ensures
        crate::move_tree::is_parked(after.parked, file),
        forall|other: Seq<char>| crate::move_tree::is_parked(ws.parked, other)
            ==> #[trigger] crate::move_tree::is_parked(after.parked, other),
        after.root == ws.root,
{
    let index = (binned(ws, crate::path::normalized(path))->Some_0).1;
    let items = crate::path::under(crate::path::parent_of(index), "items"@);
    if ws.parked.contains(items) {
        let i = choose|i: int| 0 <= i < ws.parked.len() && ws.parked[i] == items;
        assert(crate::path::is_within(file, after.parked[i]));
    } else {
        assert(after.parked == ws.parked.push(items));
        assert(crate::path::is_within(file, after.parked[ws.parked.len() as int]));
        assert forall|other: Seq<char>| crate::move_tree::is_parked(
            ws.parked,
            other,
        ) implies #[trigger] crate::move_tree::is_parked(after.parked, other) by {
            let i = choose|i: int|
                0 <= i < ws.parked.len() && crate::path::is_within(other, #[trigger] ws.parked[i]);
            assert(crate::path::is_within(other, after.parked[i]));
        }
    }
}

} // verus!
