//! The two shapes of a document: one file with a metadata block, or a metadata
//! file beside a file of prose.

use crate::change::{ChangeSet, ChangeView};
use crate::document::{Document, MetaCarrier};
use crate::error::{Error, Fault};
use crate::field::Movers;
use crate::maintain::{Moves, MovesView};
use crate::meta::{copy_pairs, put_pair, Meta, MetaView};
use crate::path::opt_text;
use crate::rename::moved_ids;
use crate::text::same_text;
use crate::workspace::{Outcome, Workspace, WsView};
use vstd::prelude::*;

verus! {

/// The move of one document.
pub open spec fn one_move(from: Seq<char>, to: Seq<char>) -> MovesView {
    MovesView::Files(seq![(from, to)])
}

/// What keeps the document at `from` from giving its identifier to `to`.
pub open spec fn handover_fault(ws: WsView, from: Seq<char>, to: Seq<char>) -> Option<
    Fault<Seq<char>>,
> {
    match crate::registry::id_at(ws.ids, from) {
        Some(id) => crate::change::move_objection(ws.ids, id, to),
        None => None,
    }
}

/// A document that can be split: its metadata, its language, and the path that
/// its metadata goes to.
pub open spec fn splittable(ws: WsView, path: Seq<char>, doc: crate::document::DocView) -> Outcome<
    (Seq<(Seq<char>, MetaView)>, crate::codec::MetaFormat, Seq<char>),
> {
    match doc.carrier {
        Some(MetaCarrier::Fenced(kind)) => if crate::document::content_of(doc) is Some {
            Err(Fault::AlreadySeparated(path))
        } else {
            match crate::document::mapping_of(doc) {
                None => Err(Fault::NothingToSeparate(path)),
                Some(pairs) => {
                    let format = crate::codec::inner_format(kind);
                    let meta_path = crate::path::with_ext(
                        path,
                        crate::document::ext_of_format(format),
                    );
                    if meta_path == path {
                        Err(Fault::MetadataExtension(path))
                    } else if crate::files::occupied(ws.files, meta_path) {
                        Err(Fault::AlreadyExists(meta_path))
                    } else {
                        match handover_fault(ws, path, meta_path) {
                            Some(e) => Err(e),
                            None => Ok((pairs, format, meta_path)),
                        }
                    }
                },
            }
        },
        _ => Err(Fault::NotCombined(path)),
    }
}

/// The text of the metadata file of a document whose prose is in the file of
/// this name.
pub open spec fn split_meta(
    path: Seq<char>,
    pairs: Seq<(Seq<char>, MetaView)>,
    format: crate::codec::MetaFormat,
) -> Outcome<Seq<char>> {
    match crate::path::name_of(path) {
        None => Err(Fault::NoFileName(path)),
        Some(name) => match crate::codec::value_text(
            MetaView::Mapping(crate::meta::put(pairs, "content"@, MetaView::Text(name))),
            format,
        ) {
            None => Err(Fault::Metadata(path)),
            Some(text) => Ok(text),
        },
    }
}

/// The changes that split a document in two files, and the path of its metadata;
/// or why there are none.
pub open spec fn separation(ws: WsView, path: Seq<char>) -> Outcome<(ChangeView, Seq<char>)> {
    let path = crate::path::normalized(path);
    if !crate::files::occupied(ws.files, path) {
        Err(Fault::NotFound(path))
    } else {
        match crate::workspace::loaded(ws.files, path) {
            Err(e) => Err(e),
            Ok((text, doc)) => match splittable(ws, path, doc) {
                Err(e) => Err(e),
                Ok((pairs, format, meta_path)) => match (
                    split_meta(path, pairs, format),
                    crate::field::inbound_rewrites(
                        ws,
                        path,
                        one_move(path, meta_path),
                        Movers::Skip,
                    ),
                ) {
                    (Err(e), _) => Err(e),
                    (_, Err(e)) => Err(e),
                    (Ok(meta_text), Ok(inbound)) => Ok(
                        (
                            crate::change::no_change(ws).with(
                                crate::files::OpView::Expect(path, text),
                            ).with(crate::files::OpView::ExpectAbsent(meta_path)).with(
                                crate::files::write_text(meta_path, meta_text),
                            ).with(crate::files::write_text(path, doc.body)).with_all(
                                crate::change::rewrite_ops(inbound),
                            ).with_ids(moved_ids(ws.ids, path, meta_path)).along(
                                one_move(path, meta_path),
                            ),
                            meta_path,
                        ),
                    ),
                },
            },
        }
    }
}

/// A text with entries set, one after another, but for the pointer to a content
/// file.
pub open spec fn entries_set(
    text: Option<Seq<char>>,
    carrier: MetaCarrier,
    pairs: Seq<(Seq<char>, MetaView)>,
) -> Option<Seq<char>>
    decreases pairs.len(),
{
    if pairs.len() == 0 {
        text
    } else {
        match entries_set(text, carrier, pairs.drop_last()) {
            None => None,
            Some(t) => if pairs.last().0 == "content"@ {
                Some(t)
            } else {
                crate::document::set_at(
                    t,
                    carrier,
                    crate::document::key_way(pairs.last().0),
                    pairs.last().1,
                )
            },
        }
    }
}

/// The prose of a file: all of it, but for metadata that it may hold.
pub open spec fn prose_of(read: (Seq<char>, crate::document::DocView)) -> Seq<char> {
    match read.1.carrier {
        Some(_) => read.1.body,
        None => read.0,
    }
}

/// The text of a document in one file.
pub open spec fn combined_text(
    prose: Seq<char>,
    pairs: Seq<(Seq<char>, MetaView)>,
    format: crate::codec::MetaFormat,
) -> Option<Seq<char>> {
    let carrier = MetaCarrier::Fenced(crate::document::front_of(format));
    entries_set(crate::document::opened(prose, Some(carrier)), carrier, pairs)
}

/// A document that can be folded in one file: its metadata, its language, and
/// the path of its prose.
pub open spec fn foldable(ws: WsView, path: Seq<char>, doc: crate::document::DocView) -> Outcome<
    (Seq<(Seq<char>, MetaView)>, crate::codec::MetaFormat, Seq<char>),
> {
    match crate::maintain::content_file(doc, path) {
        None => Err(Fault::NotSeparated(path)),
        Some(content) => match doc.carrier {
            Some(MetaCarrier::WholeFile(format)) => match crate::document::mapping_of(doc) {
                None => Err(Fault::NoMetadata(path)),
                Some(pairs) => if !crate::files::occupied(ws.files, content) {
                    Err(Fault::ContentMissing(path, content))
                } else {
                    match handover_fault(ws, path, content) {
                        Some(e) => Err(e),
                        None => Ok((pairs, format, content)),
                    }
                },
            },
            _ => Err(Fault::NotWholeFile(path)),
        },
    }
}

/// The changes that fold a document in one file, and its path; or why there are
/// none.
pub open spec fn combination(ws: WsView, path: Seq<char>) -> Outcome<(ChangeView, Seq<char>)> {
    let path = crate::path::normalized(path);
    match crate::workspace::loaded(ws.files, path) {
        Err(e) => Err(e),
        Ok((text, doc)) => match foldable(ws, path, doc) {
            Err(e) => Err(e),
            Ok((pairs, format, content)) => match crate::workspace::loaded(ws.files, content) {
                Err(e) => Err(e),
                Ok(read) => match (
                    combined_text(prose_of(read), pairs, format),
                    crate::field::inbound_rewrites(
                        ws,
                        path,
                        one_move(path, content),
                        Movers::Skip,
                    ),
                ) {
                    (None, _) => Err(Fault::Metadata(content)),
                    (_, Err(e)) => Err(e),
                    (Some(combined), Ok(inbound)) => Ok(
                        (
                            crate::change::no_change(ws).with(
                                crate::files::OpView::Expect(path, text),
                            ).with(crate::files::OpView::Expect(content, read.0)).with(
                                crate::files::write_text(content, combined),
                            ).with(crate::files::OpView::Remove(path)).with_all(
                                crate::change::rewrite_ops(inbound),
                            ).with_ids(moved_ids(ws.ids, path, content)).along(
                                one_move(path, content),
                            ),
                            content,
                        ),
                    ),
                },
            },
        },
    }
}

proof fn lemma_entries_fail(
    text: Option<Seq<char>>,
    carrier: MetaCarrier,
    pairs: Seq<(Seq<char>, MetaView)>,
    n: int,
)
    requires
        0 <= n <= pairs.len(),
        entries_set(text, carrier, pairs.take(n)) is None,
    ensures
        entries_set(text, carrier, pairs) is None,
    decreases pairs.len(),
{
    if n == pairs.len() {
        assert(pairs.take(n) =~= pairs);
    } else {
        assert(pairs.drop_last().take(n) =~= pairs.take(n));
        lemma_entries_fail(text, carrier, pairs.drop_last(), n);
    }
}

fn set_entries(text: String, carrier: MetaCarrier, pairs: &Vec<(String, Meta)>) -> (r: Option<
    String,
>)
    ensures
        opt_text(r) == entries_set(Some(text@), carrier, crate::meta::pairs_view(pairs@)),
{
    let ghost all = crate::meta::pairs_view(pairs@);
    let ghost start = Some(text@);
    let mut out = text;
    let mut i: usize = 0;
    proof {
        assert(all.take(0) =~= Seq::empty());
    }
    while i < pairs.len()
        invariant
            i <= pairs@.len(),
            all == crate::meta::pairs_view(pairs@),
            start == Some(text@),
            entries_set(start, carrier, all.take(i as int)) == Some(out@),
        decreases pairs@.len() - i,
    {
        proof {
            assert(all.take(i + 1).drop_last() =~= all.take(i as int));
            assert(all.take(i + 1).last() == (pairs@[i as int].0@, pairs@[i as int].1@));
        }
        if !same_text(&pairs[i].0, "content") {
            match crate::document::set_value(
                &out,
                carrier,
                &crate::document::key_path(&pairs[i].0),
                &pairs[i].1,
            ) {
                Some(t) => {
                    out = t;
                },
                None => {
                    proof {
                        lemma_entries_fail(start, carrier, all, i + 1);
                    }
                    return None;
                },
            }
        }
        i = i + 1;
    }
    proof {
        assert(all.take(i as int) =~= all);
    }
    Some(out)
}

fn combine_text(prose: &str, pairs: &Vec<(String, Meta)>, format: crate::codec::MetaFormat) -> (r:
    Option<String>)
    ensures
        opt_text(r) == combined_text(prose@, crate::meta::pairs_view(pairs@), format),
{
    let carrier = MetaCarrier::Fenced(crate::document::frontmatter_kind(format));
    match crate::document::open_or_init(prose, Some(carrier)) {
        Some((text, _)) => set_entries(text, carrier, pairs),
        None => {
            proof {
                let all = crate::meta::pairs_view(pairs@);
                assert(all.take(0) =~= Seq::empty());
                lemma_entries_fail(None, carrier, all, 0);
            }
            None
        },
    }
}

/// The entries of a document's metadata, where it is a mapping.
fn take_mapping(doc: &Document) -> (r: Option<Vec<(String, Meta)>>)
    ensures
        match r {
            Some(pairs) => crate::document::mapping_of(doc@) == Some(
                crate::meta::pairs_view(pairs@),
            ),
            None => crate::document::mapping_of(doc@) is None,
        },
{
    broadcast use crate::meta::lemma_map_view;

    match &doc.meta {
        Meta::Mapping(pairs) => {
            proof {
                assert(doc.meta == Meta::Mapping(*pairs));
            }
            Some(copy_pairs(pairs))
        },
        _ => None,
    }
}

impl Workspace {
    fn handover_refusal(&self, from: &str, to: &str) -> (r: Option<Error>)
        ensures
            crate::files::fault_opt(r) == handover_fault(self@, from@, to@),
    {
        match self.registry.id_for_path(from) {
            Some(id) => self.move_conflict(&id, to),
            None => None,
        }
    }

    fn hand_over(&self, cs: &mut ChangeSet, from: &str, to: &str)
        requires
            old(cs)@.ids == self@.ids,
        ensures
            final(cs)@ == old(cs)@.with_ids(moved_ids(self@.ids, from@, to@)),
    {
        match self.registry.id_for_path(from) {
            Some(id) => {
                cs.bind(&id, to);
            },
            None => {},
        }
    }

    fn split_parts(&self, path: &str, doc: &Document) -> (r: Result<
        (Vec<(String, Meta)>, crate::codec::MetaFormat, String),
        Error,
    >)
        ensures
            match r {
                Ok((pairs, format, to)) => splittable(self@, path@, doc@) matches Ok((p, f, t)) && p
                    == crate::meta::pairs_view(pairs@) && f == format && t == to@,
                Err(e) => splittable(self@, path@, doc@) matches Err(f) && f
                    == crate::error::fault(e),
            },
    {
        let kind = match doc.carrier {
            Some(MetaCarrier::Fenced(kind)) => kind,
            _ => {
                return Err(Fault::NotCombined(path.to_owned()));
            },
        };
        if doc.content_attr().is_some() {
            return Err(Fault::AlreadySeparated(path.to_owned()));
        }
        let pairs = match take_mapping(doc) {
            Some(pairs) => pairs,
            None => {
                return Err(Fault::NothingToSeparate(path.to_owned()));
            },
        };
        let format = crate::codec::inner_format_of(kind);
        let meta_path = crate::path::with_extension(
            path,
            crate::document::whole_file_extension(format),
        );
        if same_text(&meta_path, path) {
            return Err(Fault::MetadataExtension(path.to_owned()));
        }
        if self.is_taken(&meta_path) {
            return Err(Fault::AlreadyExists(meta_path));
        }
        match self.handover_refusal(path, &meta_path) {
            Some(e) => Err(e),
            None => Ok((pairs, format, meta_path)),
        }
    }

    /// The changes that split a document in two files, and the path of its
    /// metadata.
    pub fn plan_separate(&self, path: &str) -> (r: Result<(ChangeSet, String), Error>)
        ensures
            match r {
                Ok((cs, to)) => separation(self@, path@) matches Ok((c, t)) && c == cs@ && t == to@,
                Err(e) => separation(self@, path@) matches Err(f) && f == crate::error::fault(e),
            },
    {
        broadcast use crate::meta::lemma_map_view;

        let path = crate::path::normalize(path);
        if !self.is_taken(&path) {
            return Err(Fault::NotFound(path));
        }
        let (text, doc) = match self.load(&path) {
            Ok(read) => read,
            Err(e) => {
                return Err(e);
            },
        };
        let (mut pairs, format, meta_path) = match self.split_parts(&path, &doc) {
            Ok(parts) => parts,
            Err(e) => {
                return Err(e);
            },
        };
        let name = match crate::path::file_name(&path) {
            Some(name) => name,
            None => {
                return Err(Fault::NoFileName(path));
            },
        };
        put_pair(&mut pairs, "content", Meta::Text(name));
        let meta_text = match crate::codec::serialize(&Meta::Mapping(pairs), format) {
            Some(text) => text,
            None => {
                return Err(Fault::Metadata(path));
            },
        };
        let moves = Moves::one(&path, &meta_path);
        let inbound = match self.collect_inbound_rewrites(&path, &moves, Movers::Skip) {
            Ok(inbound) => inbound,
            Err(e) => {
                return Err(e);
            },
        };
        let mut cs = self.change();
        cs.expect(&path, &text);
        cs.expect_absent(&meta_path);
        cs.write(&meta_path, &meta_text);
        cs.write(&path, &doc.body);
        cs.rewrite(&inbound);
        self.hand_over(&mut cs, &path, &meta_path);
        cs.go_along(&moves);
        Ok((cs, meta_path))
    }

    /// Splits a document in two: a metadata file in the language of its block,
    /// which every reference to it now names and which carries its identifier,
    /// and a file with its prose. Gives the path of the metadata file. A refusal
    /// changes nothing.
    pub fn separate(&mut self, path: &str) -> (r: Result<String, Error>)
        ensures
            ({
                let done = crate::change::carried_out(old(self)@, separation(old(self)@, path@));
                match r {
                    Ok(to) => done matches Ok((after, t)) && after == final(self)@ && t == to@,
                    Err(e) => done matches Err(f) && f == crate::error::fault(e) && *final(self)
                        == *old(self),
                }
            }),
    {
        match self.plan_separate(path) {
            Ok((cs, to)) => match self.commit(cs) {
                Ok(_) => Ok(to),
                Err(e) => Err(e),
            },
            Err(e) => Err(e),
        }
    }

    fn fold_parts(&self, path: &str, doc: &Document) -> (r: Result<
        (Vec<(String, Meta)>, crate::codec::MetaFormat, String),
        Error,
    >)
        ensures
            match r {
                Ok((pairs, format, to)) => foldable(self@, path@, doc@) matches Ok((p, f, t)) && p
                    == crate::meta::pairs_view(pairs@) && f == format && t == to@,
                Err(e) => foldable(self@, path@, doc@) matches Err(f) && f == crate::error::fault(
                    e,
                ),
            },
    {
        let content = match crate::maintain::content_target(doc, path) {
            Some(content) => content,
            None => {
                return Err(Fault::NotSeparated(path.to_owned()));
            },
        };
        let format = match doc.carrier {
            Some(MetaCarrier::WholeFile(format)) => format,
            _ => {
                return Err(Fault::NotWholeFile(path.to_owned()));
            },
        };
        let pairs = match take_mapping(doc) {
            Some(pairs) => pairs,
            None => {
                return Err(Fault::NoMetadata(path.to_owned()));
            },
        };
        if !self.is_taken(&content) {
            return Err(Fault::ContentMissing(path.to_owned(), content));
        }
        match self.handover_refusal(path, &content) {
            Some(e) => Err(e),
            None => Ok((pairs, format, content)),
        }
    }

    /// The changes that fold a document in one file, and its path.
    pub fn plan_combine(&self, path: &str) -> (r: Result<(ChangeSet, String), Error>)
        ensures
            match r {
                Ok((cs, to)) => combination(self@, path@) matches Ok((c, t)) && c == cs@ && t
                    == to@,
                Err(e) => combination(self@, path@) matches Err(f) && f == crate::error::fault(e),
            },
    {
        let path = crate::path::normalize(path);
        let (text, doc) = match self.load(&path) {
            Ok(read) => read,
            Err(e) => {
                return Err(e);
            },
        };
        let (pairs, format, content) = match self.fold_parts(&path, &doc) {
            Ok(parts) => parts,
            Err(e) => {
                return Err(e);
            },
        };
        let (raw, body_doc) = match self.load(&content) {
            Ok(read) => read,
            Err(e) => {
                return Err(e);
            },
        };
        let prose = match body_doc.carrier {
            Some(_) => body_doc.body,
            None => raw.clone(),
        };
        let combined = match combine_text(&prose, &pairs, format) {
            Some(combined) => combined,
            None => {
                return Err(Fault::Metadata(content));
            },
        };
        let moves = Moves::one(&path, &content);
        let inbound = match self.collect_inbound_rewrites(&path, &moves, Movers::Skip) {
            Ok(inbound) => inbound,
            Err(e) => {
                return Err(e);
            },
        };
        let mut cs = self.change();
        cs.expect(&path, &text);
        cs.expect(&content, &raw);
        cs.write(&content, &combined);
        cs.remove(&path);
        cs.rewrite(&inbound);
        self.hand_over(&mut cs, &path, &content);
        cs.go_along(&moves);
        Ok((cs, content))
    }

    /// Folds a document that is two files in one: its prose under a block with
    /// its metadata, which every reference to it now names and which carries its
    /// identifier. Gives the path of that file. A refusal changes nothing.
    pub fn combine(&mut self, path: &str) -> (r: Result<String, Error>)
        ensures
            ({
                let done = crate::change::carried_out(old(self)@, combination(old(self)@, path@));
                match r {
                    Ok(to) => done matches Ok((after, t)) && after == final(self)@ && t == to@,
                    Err(e) => done matches Err(f) && f == crate::error::fault(e) && *final(self)
                        == *old(self),
                }
            }),
    {
        match self.plan_combine(path) {
            Ok((cs, to)) => match self.commit(cs) {
                Ok(_) => Ok(to),
                Err(e) => Err(e),
            },
            Err(e) => Err(e),
        }
    }
}

/// After a split, the metadata is in a file of its own and the prose is what was
/// the body; every document that linked to it holds its new text; every other
/// file is as it was; and its identifier leads to the metadata.
pub proof fn law_separate_lands(ws: WsView, path: Seq<char>, after: WsView)
    requires
        separation(ws, path) matches Ok((cs, _)) && crate::change::landed(ws, cs) matches Ok(w) && w
            == after,
    ensures
        ({
            let p = crate::path::normalized(path);
            crate::workspace::loaded(ws.files, p) matches Ok((_, doc)) && splittable(ws, p, doc)
                matches Ok((pairs, format, meta_path)) && split_meta(p, pairs, format) matches Ok(
                meta_text,
            ) && crate::field::inbound_rewrites(ws, p, one_move(p, meta_path), Movers::Skip)
                matches Ok(inbound) && ({
                &&& crate::files::lookup(after.files, p) == Some(
                    crate::files::FileView::Text(doc.body),
                )
                &&& crate::files::lookup(after.files, meta_path) == Some(
                    crate::files::FileView::Text(meta_text),
                )
                &&& forall|i: int|
                    0 <= i < inbound.len() ==> crate::files::lookup(
                        after.files,
                        (#[trigger] inbound[i]).path,
                    ) == Some(crate::files::FileView::Text(inbound[i].text))
                &&& forall|q: Seq<char>|
                    q != p && q != meta_path && !crate::landing::rewrites_path(inbound, q)
                        ==> #[trigger] crate::files::lookup(after.files, q) == crate::files::lookup(
                        ws.files,
                        q,
                    )
                &&& crate::registry::id_at(ws.ids, p) matches Some(id)
                    ==> crate::registry::path_of(after.ids, id) == Some(meta_path)
            })
        }),
{
    let p = crate::path::normalized(path);
    let (text, doc) = crate::workspace::loaded(ws.files, p)->Ok_0;
    let (pairs, format, meta_path) = splittable(ws, p, doc)->Ok_0;
    let meta_text = split_meta(p, pairs, format)->Ok_0;
    let moves = one_move(p, meta_path);
    let inbound = crate::field::inbound_rewrites(ws, p, moves, Movers::Skip)->Ok_0;
    crate::landing::law_inbound_rewrites(ws, p, moves, Movers::Skip);
    assert forall|i: int| 0 <= i < inbound.len() implies (#[trigger] inbound[i]).path != p
        && inbound[i].path != meta_path by {
        crate::landing::law_file_is_taken(ws.files, inbound[i].path);
        reveal_with_fuel(crate::maintain::paired_with, 2);
        assert(seq![(p, meta_path)][0].0 == p);
    }
    match crate::registry::id_at(ws.ids, p) {
        Some(id) => {
            crate::registry::law_bound(ws.ids, id, meta_path, id);
        },
        None => {},
    }
    let none = Seq::<crate::files::OpView>::empty();
    let a = none.push(crate::files::OpView::Expect(p, text));
    let b = a.push(crate::files::OpView::ExpectAbsent(meta_path));
    let c = b.push(crate::files::write_text(meta_path, meta_text));
    let d = c.push(crate::files::write_text(p, doc.body));
    crate::landing::lemma_changed_push(ws.files, none, crate::files::OpView::Expect(p, text));
    crate::landing::lemma_changed_push(
        ws.files,
        a,
        crate::files::OpView::ExpectAbsent(meta_path),
    );
    crate::landing::lemma_changed_push(
        ws.files,
        b,
        crate::files::write_text(meta_path, meta_text),
    );
    crate::landing::lemma_changed_push(ws.files, c, crate::files::write_text(p, doc.body));
    crate::landing::lemma_changed_add(ws.files, d, crate::change::rewrite_ops(inbound));
    let f1 = crate::files::stored(
        ws.files,
        meta_path,
        crate::files::FileView::Text(meta_text),
    );
    let f2 = crate::files::stored(f1, p, crate::files::FileView::Text(doc.body));
    assert forall|q: Seq<char>| q != p && q != meta_path implies #[trigger] crate::files::lookup(
        f2,
        q,
    ) == crate::files::lookup(ws.files, q) by {
        crate::files::law_stored(
            ws.files,
            meta_path,
            crate::files::FileView::Text(meta_text),
            q,
        );
        crate::files::law_stored(f1, p, crate::files::FileView::Text(doc.body), q);
    }
    crate::files::law_stored(
        ws.files,
        meta_path,
        crate::files::FileView::Text(meta_text),
        meta_path,
    );
    crate::files::law_stored(f1, p, crate::files::FileView::Text(doc.body), meta_path);
    crate::landing::law_rewrites_land(f2, inbound);
}

/// After a fold, the document is one file where its prose was, and its metadata
/// file is gone; every other file that did not link to it is as it was; and its
/// identifier leads to it. Its prose is another file than its metadata, and links
/// to nothing that moves.
pub proof fn law_combine_lands(ws: WsView, path: Seq<char>, after: WsView)
    requires
        combination(ws, path) matches Ok((cs, _)) && crate::change::landed(ws, cs) matches Ok(w) && w
            == after,
        ({
            let p = crate::path::normalized(path);
            crate::workspace::loaded(ws.files, p) matches Ok((_, doc)) && foldable(ws, p, doc)
                matches Ok((_, _, content)) && (crate::field::inbound_rewrites(
                ws,
                p,
                one_move(p, content),
                Movers::Skip,
            ) matches Ok(inbound) && !crate::landing::rewrites_path(inbound, content)) && content
                != p
        }),
    ensures
        ({
            let p = crate::path::normalized(path);
            crate::workspace::loaded(ws.files, p) matches Ok((_, doc)) && foldable(ws, p, doc)
                matches Ok((pairs, format, content)) && crate::workspace::loaded(ws.files, content)
                matches Ok(read) && combined_text(prose_of(read), pairs, format) matches Some(
                combined,
            ) && crate::field::inbound_rewrites(ws, p, one_move(p, content), Movers::Skip)
                matches Ok(inbound) && ({
                &&& crate::files::lookup(after.files, p) is None
                &&& crate::files::lookup(after.files, content) == Some(
                    crate::files::FileView::Text(combined),
                )
                &&& forall|i: int|
                    0 <= i < inbound.len() ==> crate::files::lookup(
                        after.files,
                        (#[trigger] inbound[i]).path,
                    ) == Some(crate::files::FileView::Text(inbound[i].text))
                &&& forall|q: Seq<char>|
                    q != p && q != content && !crate::landing::rewrites_path(inbound, q)
                        ==> #[trigger] crate::files::lookup(after.files, q) == crate::files::lookup(
                        ws.files,
                        q,
                    )
                &&& crate::registry::id_at(ws.ids, p) matches Some(id)
                    ==> crate::registry::path_of(after.ids, id) == Some(content)
            })
        }),
{
    let p = crate::path::normalized(path);
    let (text, doc) = crate::workspace::loaded(ws.files, p)->Ok_0;
    let (pairs, format, content) = foldable(ws, p, doc)->Ok_0;
    let read = crate::workspace::loaded(ws.files, content)->Ok_0;
    let combined = combined_text(prose_of(read), pairs, format)->Some_0;
    let moves = one_move(p, content);
    let inbound = crate::field::inbound_rewrites(ws, p, moves, Movers::Skip)->Ok_0;
    crate::landing::law_inbound_rewrites(ws, p, moves, Movers::Skip);
    assert(!crate::landing::rewrites_path(inbound, p)) by {
        if crate::landing::rewrites_path(inbound, p) {
            let i = choose|i: int| 0 <= i < inbound.len() && (#[trigger] inbound[i]).path == p;
            reveal_with_fuel(crate::maintain::paired_with, 2);
            assert(seq![(p, content)][0].0 == p);
            assert(crate::maintain::landing(moves, inbound[i].path) is None);
        }
    }
    match crate::registry::id_at(ws.ids, p) {
        Some(id) => {
            crate::registry::law_bound(ws.ids, id, content, id);
        },
        None => {},
    }
    let none = Seq::<crate::files::OpView>::empty();
    let a = none.push(crate::files::OpView::Expect(p, text));
    let b = a.push(crate::files::OpView::Expect(content, read.0));
    let c = b.push(crate::files::write_text(content, combined));
    let d = c.push(crate::files::OpView::Remove(p));
    crate::landing::lemma_changed_push(ws.files, none, crate::files::OpView::Expect(p, text));
    crate::landing::lemma_changed_push(
        ws.files,
        a,
        crate::files::OpView::Expect(content, read.0),
    );
    crate::landing::lemma_changed_push(ws.files, b, crate::files::write_text(content, combined));
    crate::landing::lemma_changed_push(ws.files, c, crate::files::OpView::Remove(p));
    crate::landing::lemma_changed_add(ws.files, d, crate::change::rewrite_ops(inbound));
    let data = crate::files::FileView::Text(combined);
    let f1 = crate::files::stored(ws.files, content, data);
    let f2 = crate::files::without(f1, p);
    assert forall|q: Seq<char>| q != p && q != content implies #[trigger] crate::files::lookup(f2, q)
        == crate::files::lookup(ws.files, q) by {
        crate::files::law_stored(ws.files, content, data, q);
        crate::files::law_without(f1, p, q);
    }
    crate::files::law_stored(ws.files, content, data, p);
    crate::files::law_stored(ws.files, content, data, content);
    crate::files::law_without(f1, p, content);
    crate::files::law_without(f1, p, p);
    crate::landing::law_rewrites_land(f2, inbound);
}

/// The metadata file that a split makes points back at the prose: what it names
/// as its content is the path that the document had.
pub proof fn law_separate_points_back(
    path: Seq<char>,
    format: crate::codec::MetaFormat,
    name: Seq<char>,
)
    requires
        crate::path::is_inside(path),
        crate::path::name_of(path) == Some(name),
        crate::path::is_plain(
            crate::path::stem_of_name(name).push('.') + crate::document::ext_of_format(format),
        ),
        crate::document::ext_of_format(format).len() > 0,
    ensures
        crate::path::under(
            crate::path::parent_of(
                crate::path::with_ext(path, crate::document::ext_of_format(format)),
            ),
            name,
        ) == path,
{
    let new = crate::path::stem_of_name(name).push('.') + crate::document::ext_of_format(format);
    crate::path::law_renamed_in_place(path, new);
}

/// A workspace stays whole when a document is split: a path reference that reached a
/// file, in another document that a survey of the workspace covers, reaches that
/// file, or the metadata that the split document has become, as the document reads
/// after the split; and there is a file there. The document reads as its edits
/// describe.
pub proof fn law_separate_keeps_reading(
    ws: WsView,
    path: Seq<char>,
    after: WsView,
    inverse: Seq<char>,
    source: Seq<char>,
    i: int,
    k: int,
)
    requires
        separation(ws, path) matches Ok((cs, _)) && crate::change::landed(ws, cs) matches Ok(w) && w
            == after,
        crate::follow::distinct_names(ws.relations.relations),
        crate::workspace::spanning_names(ws.relations) matches Ok((_, v)) && v == inverse,
        0 <= i < ws.relations.relations.len(),
        ({
            let p = crate::path::normalized(path);
            let meta_path = (separation(ws, path)->Ok_0).1;
            let moves = one_move(p, meta_path);
            let moved = crate::field::moved_paths(ws.files, moves);
            let read = crate::workspace::loaded(ws.files, source)->Ok_0;
            let out = crate::field::followed(ws, source, read, moved, moves)->Ok_0;
            let name = ws.relations.relations[i].name;
            let raws = crate::meta::links_at(read.1.meta, name);
            &&& crate::walk::surveyed(ws, crate::walk::root_of(ws, p, inverse)).contains(source)
            &&& source != p
            &&& out.1.meta == crate::follow::followed_meta(ws, source, read.1.meta, moved, moves)
            &&& 0 <= k < raws.len()
            &&& crate::landing::can_follow(ws, source, name, raws[k], moved, moves)
            &&& crate::files::lookup(
                ws.files,
                crate::landing::place_of(source, raws[k]),
            ) is Some
        }),
    ensures
        ({
            let p = crate::path::normalized(path);
            let meta_path = (separation(ws, path)->Ok_0).1;
            let name = ws.relations.relations[i].name;
            let read = crate::workspace::loaded(ws.files, source)->Ok_0;
            let raws = crate::meta::links_at(read.1.meta, name);
            let gone = crate::maintain::landing_or_same(
                one_move(p, meta_path),
                crate::landing::place_of(source, raws[k]),
            );
            crate::workspace::loaded(after.files, source) matches Ok((_, now)) && k
                < crate::meta::links_at(now.meta, name).len() && crate::follow::reaches(
                crate::meta::links_at(now.meta, name)[k],
                raws[k],
                source,
                gone,
            ) && crate::files::lookup(after.files, gone) is Some
        }),
{
    let p = crate::path::normalized(path);
    let (text, doc) = crate::workspace::loaded(ws.files, p)->Ok_0;
    let (pairs, format, meta_path) = splittable(ws, p, doc)->Ok_0;
    let moves = one_move(p, meta_path);
    let moved = crate::field::moved_paths(ws.files, moves);
    let inbound = crate::field::inbound_rewrites(ws, p, moves, Movers::Skip)->Ok_0;
    law_separate_lands(ws, path, after);
    let one = seq![(p, meta_path)];
    assert(one[0] == (p, meta_path));
    assert(one.drop_first().len() == 0);
    reveal_with_fuel(crate::maintain::paired_with, 2);
    assert(moved =~= seq![p]);
    assert(moved[0] == p);
    assert forall|q: Seq<char>| moved.contains(q) implies q == p by {}
    assert(crate::follow::settles(moved, moves));
    crate::landing::law_survey_follows(ws, p, inverse, moves, Movers::Skip, source);
    crate::landing::law_file_is_taken(ws.files, source);
    crate::landing::law_inbound_rewrites(ws, p, moves, Movers::Skip);
    crate::landing::law_follows_reading(
        ws,
        p,
        inverse,
        moves,
        Movers::Skip,
        source,
        after.files,
        i,
        k,
    );
    let read = crate::workspace::loaded(ws.files, source)->Ok_0;
    let raws = crate::meta::links_at(read.1.meta, ws.relations.relations[i].name);
    let place = crate::landing::place_of(source, raws[k]);
    crate::landing::law_file_is_taken(ws.files, place);
    if place != p && crate::landing::rewrites_path(inbound, place) {
        let r = choose|r: int| 0 <= r < inbound.len() && (#[trigger] inbound[r]).path == place;
        assert(crate::files::lookup(after.files, inbound[r].path) is Some);
    }
}

/// A workspace stays whole when a pair is folded: a path reference that reached a
/// file, in another document that a survey of the workspace covers, reaches that
/// file, or the document that the pair has become, as the document reads after the
/// fold; and there is a file there. The document reads as its edits describe.
pub proof fn law_combine_keeps_reading(
    ws: WsView,
    path: Seq<char>,
    after: WsView,
    inverse: Seq<char>,
    source: Seq<char>,
    content: Seq<char>,
    i: int,
    k: int,
)
    requires
        combination(ws, path) matches Ok((cs, _)) && crate::change::landed(ws, cs) matches Ok(w) && w
            == after,
        crate::follow::distinct_names(ws.relations.relations),
        crate::workspace::spanning_names(ws.relations) matches Ok((_, v)) && v == inverse,
        0 <= i < ws.relations.relations.len(),
        ({
            let p = crate::path::normalized(path);
            let moves = one_move(p, content);
            let moved = crate::field::moved_paths(ws.files, moves);
            let read = crate::workspace::loaded(ws.files, source)->Ok_0;
            let out = crate::field::followed(ws, source, read, moved, moves)->Ok_0;
            let name = ws.relations.relations[i].name;
            let raws = crate::meta::links_at(read.1.meta, name);
            &&& crate::workspace::loaded(ws.files, p) matches Ok((_, doc)) && foldable(ws, p, doc)
                matches Ok((_, _, c)) && c == content
            &&& crate::field::inbound_rewrites(ws, p, moves, Movers::Skip) matches Ok(inbound)
                && !crate::landing::rewrites_path(inbound, content)
            &&& content != p
            &&& crate::walk::surveyed(ws, crate::walk::root_of(ws, p, inverse)).contains(source)
            &&& source != p
            &&& source != content
            &&& out.1.meta == crate::follow::followed_meta(ws, source, read.1.meta, moved, moves)
            &&& 0 <= k < raws.len()
            &&& crate::landing::can_follow(ws, source, name, raws[k], moved, moves)
            &&& crate::files::lookup(
                ws.files,
                crate::landing::place_of(source, raws[k]),
            ) is Some
        }),
    ensures
        ({
            let p = crate::path::normalized(path);
            let name = ws.relations.relations[i].name;
            let read = crate::workspace::loaded(ws.files, source)->Ok_0;
            let raws = crate::meta::links_at(read.1.meta, name);
            let gone = crate::maintain::landing_or_same(
                one_move(p, content),
                crate::landing::place_of(source, raws[k]),
            );
            crate::workspace::loaded(after.files, source) matches Ok((_, now)) && k
                < crate::meta::links_at(now.meta, name).len() && crate::follow::reaches(
                crate::meta::links_at(now.meta, name)[k],
                raws[k],
                source,
                gone,
            ) && crate::files::lookup(after.files, gone) is Some
        }),
{
    let p = crate::path::normalized(path);
    let moves = one_move(p, content);
    let moved = crate::field::moved_paths(ws.files, moves);
    let inbound = crate::field::inbound_rewrites(ws, p, moves, Movers::Skip)->Ok_0;
    law_combine_lands(ws, path, after);
    let one = seq![(p, content)];
    assert(one[0] == (p, content));
    assert(one.drop_first().len() == 0);
    reveal_with_fuel(crate::maintain::paired_with, 2);
    assert(moved =~= seq![p]);
    assert(moved[0] == p);
    assert forall|q: Seq<char>| moved.contains(q) implies q == p by {}
    assert(crate::follow::settles(moved, moves));
    crate::landing::law_follows_reading(
        ws,
        p,
        inverse,
        moves,
        Movers::Skip,
        source,
        after.files,
        i,
        k,
    );
    let read = crate::workspace::loaded(ws.files, source)->Ok_0;
    let raws = crate::meta::links_at(read.1.meta, ws.relations.relations[i].name);
    let place = crate::landing::place_of(source, raws[k]);
    if place != p && crate::landing::rewrites_path(inbound, place) {
        let r = choose|r: int| 0 <= r < inbound.len() && (#[trigger] inbound[r]).path == place;
        assert(crate::files::lookup(after.files, inbound[r].path) is Some);
    }
}

proof fn lemma_entries_but_content(
    text: Option<Seq<char>>,
    carrier: MetaCarrier,
    pairs: Seq<(Seq<char>, MetaView)>,
    i: int,
    value: MetaView,
)
    requires
        0 <= i < pairs.len(),
        pairs[i].0 == "content"@,
    ensures
        entries_set(text, carrier, pairs.update(i, ("content"@, value))) == entries_set(
            text,
            carrier,
            pairs,
        ),
    decreases pairs.len(),
{
    let other = pairs.update(i, ("content"@, value));
    let rest = pairs.drop_last();
    if i < rest.len() {
        lemma_entries_but_content(text, carrier, rest, i, value);
        assert(other.drop_last() =~= rest.update(i, ("content"@, value)));
        assert(other.last() == pairs.last());
    } else {
        assert(other.drop_last() =~= rest);
    }
}

/// What is split and folded is what it was: the prose is the prose it had, and the
/// entries of its metadata, one after another, are those it had, but for the pointer to
/// the content file; its metadata file is gone, and its identifier leads to it. The
/// metadata file reads back, and the prose alone holds no metadata.
pub proof fn law_separate_then_combine(
    ws: WsView,
    path: Seq<char>,
    meta_path: Seq<char>,
    between: WsView,
    after: WsView,
)
    requires
        separation(ws, path) matches Ok((cs, m)) && m == meta_path && (crate::change::landed(ws, cs)
            matches Ok(w) && w == between),
        combination(between, meta_path) matches Ok((cs, _)) && crate::change::landed(between, cs)
            matches Ok(w) && w == after,
        crate::path::normalized(meta_path) == meta_path,
        ({
            let p = crate::path::normalized(path);
            crate::workspace::loaded(ws.files, p) matches Ok((_, doc)) && splittable(ws, p, doc)
                matches Ok((pairs, format, _)) && crate::path::name_of(p) matches Some(name)
                && crate::workspace::loaded(between.files, meta_path) matches Ok((_, node))
                && crate::workspace::loaded(between.files, p) matches Ok((_, prose)) && ({
                &&& crate::path::is_inside(p)
                &&& crate::path::is_plain(
                    crate::path::stem_of_name(name).push('.') + crate::document::ext_of_format(
                        format,
                    ),
                )
                &&& crate::document::ext_of_format(format).len() > 0
                &&& node.carrier == Some(MetaCarrier::WholeFile(format))
                &&& node.meta == MetaView::Mapping(
                    crate::meta::put(pairs, "content"@, MetaView::Text(name)),
                )
                &&& prose.carrier is None
                &&& crate::field::inbound_rewrites(
                    between,
                    meta_path,
                    one_move(meta_path, p),
                    Movers::Skip,
                ) matches Ok(inbound) && !crate::landing::rewrites_path(inbound, p)
            })
        }),
    ensures
        ({
            let p = crate::path::normalized(path);
            let doc = (crate::workspace::loaded(ws.files, p)->Ok_0).1;
            let (pairs, format, _) = splittable(ws, p, doc)->Ok_0;
            &&& crate::files::lookup(after.files, meta_path) is None
            &&& combined_text(doc.body, pairs, format) matches Some(text) && crate::files::lookup(
                after.files,
                p,
            ) == Some(crate::files::FileView::Text(text))
            &&& crate::registry::id_at(ws.ids, p) matches Some(id) ==> crate::registry::path_of(
                after.ids,
                id,
            ) == Some(p)
        }),
{
    let p = crate::path::normalized(path);
    let doc = (crate::workspace::loaded(ws.files, p)->Ok_0).1;
    let (pairs, format, _) = splittable(ws, p, doc)->Ok_0;
    let name = crate::path::name_of(p)->Some_0;
    let value = MetaView::Text(name);
    let all = crate::meta::put(pairs, "content"@, value);
    let node = (crate::workspace::loaded(between.files, meta_path)->Ok_0).1;
    law_separate_lands(ws, path, between);
    law_separate_points_back(p, format, name);
    crate::meta::law_put_reads_back(pairs, "content"@, value, "content"@);
    assert(crate::document::content_of(node) == Some(name));
    assert(crate::maintain::content_file(node, meta_path) == Some(p));
    assert(meta_path != p);
    law_combine_lands(between, meta_path, after);
    let carrier = MetaCarrier::Fenced(crate::document::front_of(format));
    let start = crate::document::opened(doc.body, Some(carrier));
    assert(entries_set(start, carrier, all) == entries_set(start, carrier, pairs)) by {
        crate::meta::lemma_key_index(pairs, "content"@);
        match crate::meta::key_index(pairs, "content"@) {
            Some(i) => {
                lemma_entries_but_content(start, carrier, pairs, i, value);
            },
            None => {
                assert(all.drop_last() =~= pairs);
            },
        }
    }
    match crate::registry::id_at(ws.ids, p) {
        Some(id) => {
            crate::registry::law_bound(ws.ids, id, meta_path, id);
        },
        None => {},
    }
}

/// The root goes along with a split: a workspace that starts at the document starts at
/// its metadata; and so do the parked directories.
pub proof fn law_separate_carries_root(ws: WsView, path: Seq<char>, after: WsView)
    requires
        separation(ws, path) matches Ok((cs, _)) && crate::change::landed(ws, cs) matches Ok(w) && w
            == after,
    ensures
        separation(ws, path) matches Ok((_, meta_path)) && ({
            let moves = one_move(crate::path::normalized(path), meta_path);
            &&& after.root == crate::change::root_along(ws.root, moves)
            &&& after.parked == crate::change::all_along(ws.parked, moves)
        }),
{
}

/// The root goes along with a fold: a workspace that starts at the metadata of a
/// document starts at the document; and so do the parked directories.
pub proof fn law_combine_carries_root(ws: WsView, path: Seq<char>, after: WsView)
    requires
        combination(ws, path) matches Ok((cs, _)) && crate::change::landed(ws, cs) matches Ok(w)
            && w == after,
    ensures
        combination(ws, path) matches Ok((_, content)) && ({
            let moves = one_move(crate::path::normalized(path), content);
            &&& after.root == crate::change::root_along(ws.root, moves)
            &&& after.parked == crate::change::all_along(ws.parked, moves)
        }),
{
}

/// When the document that a workspace starts at is split, the workspace starts at its
/// metadata, and what is done next to the document is surveyed from there. The document
/// names no parent, and its metadata reads as naming none.
pub proof fn law_split_root_starts(
    ws: WsView,
    path: Seq<char>,
    meta_path: Seq<char>,
    between: WsView,
    inverse: Seq<char>,
)
    requires
        separation(ws, path) matches Ok((cs, m)) && m == meta_path && (crate::change::landed(ws, cs)
            matches Ok(w) && w == between),
        ws.root == Some(crate::path::normalized(path)),
        crate::walk::up_from(ws, inverse, crate::path::normalized(path)) is None,
        crate::workspace::loaded(between.files, meta_path) is Ok,
        crate::walk::up_from(between, inverse, meta_path) is None,
    ensures
        between.root == Some(meta_path),
        crate::walk::root_of(ws, crate::path::normalized(path), inverse) == crate::path::normalized(
            path,
        ),
        crate::walk::root_of(between, meta_path, inverse) == meta_path,
{
    let p = crate::path::normalized(path);
    reveal_with_fuel(crate::maintain::paired_with, 2);
    assert(seq![(p, meta_path)][0] == (p, meta_path));
    reveal_with_fuel(crate::walk::ascent, 2);
}

/// A split that is folded again leaves every reference leading where it led: one that led
/// to the document, in another document that a survey of the workspace covers, leads to
/// it again, with its label, its wrapper and its locator. The root goes along, each
/// document lists after the split what it listed, and the document that refers reads
/// both times as its edits describe.
pub proof fn law_split_and_fold_leads(
    ws: WsView,
    path: Seq<char>,
    meta_path: Seq<char>,
    between: WsView,
    after: WsView,
    inverse: Seq<char>,
    source: Seq<char>,
    i: int,
    k: int,
)
    requires
        separation(ws, path) matches Ok((cs, m)) && m == meta_path && (crate::change::landed(ws, cs)
            matches Ok(w) && w == between),
        combination(between, meta_path) matches Ok((cs, c)) && c == crate::path::normalized(path)
            && (crate::change::landed(between, cs) matches Ok(w) && w == after),
        crate::path::normalized(meta_path) == meta_path,
        crate::follow::distinct_names(ws.relations.relations),
        crate::workspace::spanning_names(ws.relations) matches Ok((_, v)) && v == inverse,
        0 <= i < ws.relations.relations.len(),
        ({
            let p = crate::path::normalized(path);
            let there = one_move(p, meta_path);
            let back = one_move(meta_path, p);
            let moved = crate::field::moved_paths(ws.files, there);
            let moved_back = crate::field::moved_paths(between.files, back);
            let root = crate::walk::root_of(ws, p, inverse);
            let name = ws.relations.relations[i].name;
            let read = crate::workspace::loaded(ws.files, source)->Ok_0;
            let out = crate::field::followed(ws, source, read, moved, there)->Ok_0;
            let raws = crate::meta::links_at(read.1.meta, name);
            let read_again = crate::workspace::loaded(between.files, source)->Ok_0;
            let out_again = crate::field::followed(
                between,
                source,
                read_again,
                moved_back,
                back,
            )->Ok_0;
            let raws_again = crate::meta::links_at(read_again.1.meta, name);
            &&& crate::walk::root_of(between, meta_path, inverse)
                == crate::maintain::landing_or_same(there, root)
            &&& crate::survey::lists_along(ws, between, there, root)
            &&& crate::walk::surveyed(ws, root).contains(source)
            &&& source != p
            &&& out.1.meta == crate::follow::followed_meta(ws, source, read.1.meta, moved, there)
            &&& out_again.1.meta == crate::follow::followed_meta(
                between,
                source,
                read_again.1.meta,
                moved_back,
                back,
            )
            &&& 0 <= k < raws.len()
            &&& crate::landing::place_of(source, raws[k]) == p
            &&& crate::landing::can_follow(ws, source, name, raws[k], moved, there)
            &&& crate::landing::can_follow(between, source, name, raws_again[k], moved_back, back)
            &&& crate::field::inbound_rewrites(between, meta_path, back, Movers::Skip) matches Ok(
                inbound,
            ) && !crate::landing::rewrites_path(inbound, p)
        }),
    ensures
        ({
            let p = crate::path::normalized(path);
            let name = ws.relations.relations[i].name;
            let read = crate::workspace::loaded(ws.files, source)->Ok_0;
            let raws = crate::meta::links_at(read.1.meta, name);
            crate::workspace::loaded(after.files, source) matches Ok((_, now)) && k
                < crate::meta::links_at(now.meta, name).len() && crate::follow::reaches(
                crate::meta::links_at(now.meta, name)[k],
                raws[k],
                source,
                p,
            ) && crate::files::lookup(after.files, p) is Some
        }),
{
    let p = crate::path::normalized(path);
    let there = one_move(p, meta_path);
    let back = one_move(meta_path, p);
    let root = crate::walk::root_of(ws, p, inverse);
    let name = ws.relations.relations[i].name;
    let read = crate::workspace::loaded(ws.files, source)->Ok_0;
    let raws = crate::meta::links_at(read.1.meta, name);
    reveal_with_fuel(crate::maintain::paired_with, 2);
    assert(seq![(p, meta_path)][0] == (p, meta_path));
    assert(seq![(meta_path, p)][0] == (meta_path, p));
    crate::survey::law_survey_goes_along(ws, between, there, root, source);
    crate::landing::law_walk(ws, Some(crate::walk::all_named(ws.files)), root);
    let docs = crate::walk::surveyed(ws, root);
    let j = choose|j: int| 0 <= j < docs.len() && docs[j] == source;
    assert(crate::workspace::loaded(ws.files, docs[j]) is Ok);
    crate::landing::law_file_is_taken(ws.files, source);
    assert(source != meta_path);
    law_separate_keeps_reading(ws, path, between, inverse, source, i, k);
    law_combine_keeps_reading(between, meta_path, after, inverse, source, p, i, k);
}

/// What is asked of the documents under a root for a split of it to leave them listed:
/// each lists by paths, which lead neither to itself nor to the root; and each but the
/// root reads as its edits describe.
pub open spec fn lists_by_path(
    ws: WsView,
    root: Seq<char>,
    there: MovesView,
    spanning: Seq<char>,
) -> bool {
    forall|d: Seq<char>| #[trigger]
        crate::walk::surveyed(ws, root).contains(d) ==> (crate::workspace::loaded(ws.files, d)
            matches Ok(read) && ({
            let raws = crate::meta::links_at(read.1.meta, spanning);
            let moved = crate::field::moved_paths(ws.files, there);
            &&& forall|k: int|
                0 <= k < raws.len() ==> crate::survey::is_plain_path(#[trigger] raws[k])
                    && crate::landing::place_of(d, raws[k]) != root && crate::landing::place_of(
                    d,
                    raws[k],
                ) != d
            &&& d != root ==> (crate::field::followed(ws, d, read, moved, there) matches Ok(out)
                ==> out.1.meta == crate::follow::followed_meta(
                ws,
                d,
                read.1.meta,
                moved,
                there,
            ))
        }))
}

proof fn lemma_split_reads(
    ws: WsView,
    path: Seq<char>,
    meta_path: Seq<char>,
    between: WsView,
    spanning: Seq<char>,
    inverse: Seq<char>,
    i: int,
    d: Seq<char>,
)
    requires
        separation(ws, path) matches Ok((cs, m)) && m == meta_path && (crate::change::landed(ws, cs)
            matches Ok(w) && w == between),
        crate::follow::distinct_names(ws.relations.relations),
        crate::workspace::spanning_names(ws.relations) == Ok::<_, Fault<Seq<char>>>(
            (spanning, inverse),
        ),
        0 <= i < ws.relations.relations.len(),
        ws.relations.relations[i].name == spanning,
        crate::walk::root_of(ws, crate::path::normalized(path), inverse)
            == crate::path::normalized(path),
        lists_by_path(
            ws,
            crate::path::normalized(path),
            one_move(crate::path::normalized(path), meta_path),
            spanning,
        ),
        crate::walk::surveyed(ws, crate::path::normalized(path)).contains(d),
        d != crate::path::normalized(path),
    ensures
        crate::workspace::loaded(ws.files, d) matches Ok((_, doc)) && (
        crate::workspace::loaded(between.files, d) matches Ok((_, now)) && crate::meta::links_at(
            now.meta,
            spanning,
        ) == crate::meta::links_at(doc.meta, spanning)),
{
    let p = crate::path::normalized(path);
    let there = one_move(p, meta_path);
    let moved = crate::field::moved_paths(ws.files, there);
    let one = seq![(p, meta_path)];
    assert(one[0] == (p, meta_path));
    assert(one.drop_first().len() == 0);
    reveal_with_fuel(crate::maintain::paired_with, 2);
    assert(moved =~= seq![p]);
    assert(moved[0] == p);
    assert forall|q: Seq<char>| moved.contains(q) implies q == p by {}
    law_separate_lands(ws, path, between);
    assert(crate::follow::settles(moved, there));
    crate::landing::law_survey_follows(ws, p, inverse, there, Movers::Skip, d);
    let inbound = crate::field::inbound_rewrites(ws, p, there, Movers::Skip)->Ok_0;
    let read = crate::workspace::loaded(ws.files, d)->Ok_0;
    let out = crate::field::followed(ws, d, read, moved, there)->Ok_0;
    crate::landing::law_followed_reads(ws, d, read, moved, there);
    crate::landing::law_file_is_taken(ws.files, d);
    if out.0 != read.0 {
        let wanted = crate::change::RewriteView { path: d, read: read.0, text: out.0 };
        let r = choose|r: int| 0 <= r < inbound.len() && #[trigger] inbound[r] == wanted;
        assert(inbound[r].path == d);
    }
    assert(crate::workspace::loaded(between.files, d) == Ok::<_, Fault<Seq<char>>>(out));
    let raws = crate::meta::links_at(read.1.meta, spanning);
    let news = crate::meta::links_at(out.1.meta, spanning);
    assert(news.len() == raws.len()) by {
        crate::follow::law_followed_count(ws, d, read.1.meta, moved, there, i);
    }
    assert forall|k: int| 0 <= k < raws.len() implies news[k] == raws[k] by {
        assert(crate::survey::is_plain_path(raws[k]));
        crate::follow::law_followed_document(ws, d, read.1.meta, moved, there, i, k);
    }
    assert(news =~= raws);
}

/// When the document that a workspace starts at is split, each document lists what it
/// listed, and its metadata lists what it listed: a survey from there covers what a survey
/// covered. The documents list by paths, and read as their edits describe; and its
/// metadata reads as listing what it listed.
pub proof fn law_split_root_lists_along(
    ws: WsView,
    path: Seq<char>,
    meta_path: Seq<char>,
    between: WsView,
    spanning: Seq<char>,
    inverse: Seq<char>,
    i: int,
)
    requires
        separation(ws, path) matches Ok((cs, m)) && m == meta_path && (crate::change::landed(ws, cs)
            matches Ok(w) && w == between),
        crate::follow::distinct_names(ws.relations.relations),
        crate::workspace::spanning_names(ws.relations) == Ok::<_, Fault<Seq<char>>>(
            (spanning, inverse),
        ),
        0 <= i < ws.relations.relations.len(),
        ws.relations.relations[i].name == spanning,
        ({
            let p = crate::path::normalized(path);
            &&& crate::walk::root_of(ws, p, inverse) == p
            &&& lists_by_path(ws, p, one_move(p, meta_path), spanning)
            &&& crate::path::parent_of(meta_path) == crate::path::parent_of(p)
            &&& crate::workspace::loaded(ws.files, p) matches Ok((_, doc)) && (
            crate::workspace::loaded(between.files, meta_path) matches Ok((_, node))
                && crate::meta::links_at(node.meta, spanning) == crate::meta::links_at(
                doc.meta,
                spanning,
            ))
        }),
    ensures
        crate::survey::lists_along(
            ws,
            between,
            one_move(crate::path::normalized(path), meta_path),
            crate::path::normalized(path),
        ),
{
    let p = crate::path::normalized(path);
    let there = one_move(p, meta_path);
    let docs = crate::walk::surveyed(ws, p);
    let named = Some(crate::walk::all_named(ws.files));
    let one = seq![(p, meta_path)];
    assert(one[0] == (p, meta_path));
    assert(one.drop_first().len() == 0);
    reveal_with_fuel(crate::maintain::paired_with, 2);
    crate::survey::law_survey_is_closed(ws, p);
    assert forall|d: Seq<char>, child: Seq<char>|
        docs.contains(d) && crate::workspace::loaded(ws.files, child) is Ok
            && #[trigger] crate::survey::lists(ws, named, d, child) implies crate::survey::lists(
        between,
        Some(crate::walk::all_named(between.files)),
        crate::maintain::landing_or_same(there, d),
        crate::maintain::landing_or_same(there, child),
    ) && crate::workspace::loaded(
        between.files,
        crate::maintain::landing_or_same(there, child),
    ) is Ok by {
        let read = crate::workspace::loaded(ws.files, d)->Ok_0;
        let raws = crate::meta::links_at(read.1.meta, spanning);
        assert(crate::workspace::child_references(ws.relations, read.1.meta) == raws);
        let k = crate::survey::law_listed_place(ws, d, child);
        assert(crate::survey::is_plain_path(raws[k]));
        assert(child != p);
        assert(docs.contains(child));
        lemma_split_reads(ws, path, meta_path, between, spanning, inverse, i, child);
        if d != p {
            lemma_split_reads(ws, path, meta_path, between, spanning, inverse, i, d);
        }
        crate::survey::law_path_lists(
            ws,
            between,
            d,
            crate::maintain::landing_or_same(there, d),
            child,
        );
    }
}

/// The document that a workspace starts at, split and folded again, is led to again: a
/// reference that led to it, in another document that a survey covers, leads to it, with
/// its label, its wrapper and its locator. It names no parent; the documents list by
/// paths; and what is written reads as its edits describe.
pub proof fn law_root_split_and_fold_leads(
    ws: WsView,
    path: Seq<char>,
    meta_path: Seq<char>,
    between: WsView,
    after: WsView,
    spanning: Seq<char>,
    inverse: Seq<char>,
    source: Seq<char>,
    s: int,
    i: int,
    k: int,
)
    requires
        separation(ws, path) matches Ok((cs, m)) && m == meta_path && (crate::change::landed(ws, cs)
            matches Ok(w) && w == between),
        combination(between, meta_path) matches Ok((cs, c)) && c == crate::path::normalized(path)
            && (crate::change::landed(between, cs) matches Ok(w) && w == after),
        crate::path::normalized(meta_path) == meta_path,
        crate::follow::distinct_names(ws.relations.relations),
        crate::workspace::spanning_names(ws.relations) == Ok::<_, Fault<Seq<char>>>(
            (spanning, inverse),
        ),
        0 <= s < ws.relations.relations.len(),
        ws.relations.relations[s].name == spanning,
        0 <= i < ws.relations.relations.len(),
        ({
            let p = crate::path::normalized(path);
            let there = one_move(p, meta_path);
            let back = one_move(meta_path, p);
            let moved = crate::field::moved_paths(ws.files, there);
            let moved_back = crate::field::moved_paths(between.files, back);
            let name = ws.relations.relations[i].name;
            let read = crate::workspace::loaded(ws.files, source)->Ok_0;
            let raws = crate::meta::links_at(read.1.meta, name);
            let read_again = crate::workspace::loaded(between.files, source)->Ok_0;
            let out_again = crate::field::followed(
                between,
                source,
                read_again,
                moved_back,
                back,
            )->Ok_0;
            let raws_again = crate::meta::links_at(read_again.1.meta, name);
            &&& ws.root == Some(p)
            &&& crate::walk::up_from(ws, inverse, p) is None
            &&& crate::walk::up_from(between, inverse, meta_path) is None
            &&& lists_by_path(ws, p, there, spanning)
            &&& crate::path::parent_of(meta_path) == crate::path::parent_of(p)
            &&& crate::workspace::loaded(ws.files, p) matches Ok((_, doc)) && (
            crate::workspace::loaded(between.files, meta_path) matches Ok((_, node))
                && crate::meta::links_at(node.meta, spanning) == crate::meta::links_at(
                doc.meta,
                spanning,
            ))
            &&& crate::walk::surveyed(ws, p).contains(source)
            &&& source != p
            &&& out_again.1.meta == crate::follow::followed_meta(
                between,
                source,
                read_again.1.meta,
                moved_back,
                back,
            )
            &&& 0 <= k < raws.len()
            &&& crate::landing::place_of(source, raws[k]) == p
            &&& crate::landing::can_follow(ws, source, name, raws[k], moved, there)
            &&& crate::landing::can_follow(between, source, name, raws_again[k], moved_back, back)
            &&& crate::field::inbound_rewrites(between, meta_path, back, Movers::Skip) matches Ok(
                inbound,
            ) && !crate::landing::rewrites_path(inbound, p)
        }),
    ensures
        after.root == Some(crate::path::normalized(path)),
        ({
            let p = crate::path::normalized(path);
            let name = ws.relations.relations[i].name;
            let read = crate::workspace::loaded(ws.files, source)->Ok_0;
            let raws = crate::meta::links_at(read.1.meta, name);
            crate::workspace::loaded(after.files, source) matches Ok((_, now)) && k
                < crate::meta::links_at(now.meta, name).len() && crate::follow::reaches(
                crate::meta::links_at(now.meta, name)[k],
                raws[k],
                source,
                p,
            ) && crate::files::lookup(after.files, p) is Some
        }),
{
    let p = crate::path::normalized(path);
    let there = one_move(p, meta_path);
    reveal_with_fuel(crate::maintain::paired_with, 2);
    assert(seq![(p, meta_path)][0] == (p, meta_path));
    assert(seq![(meta_path, p)][0] == (meta_path, p));
    law_split_root_starts(ws, path, meta_path, between, inverse);
    law_split_root_lists_along(ws, path, meta_path, between, spanning, inverse, s);
    law_combine_carries_root(between, meta_path, after);
    crate::landing::law_survey_follows(ws, p, inverse, there, Movers::Skip, source);
    law_split_and_fold_leads(ws, path, meta_path, between, after, inverse, source, i, k);
}

/// A document that is split is two files: its body, where it was, and its metadata beside
/// it, in its language, with every entry it had and the name of the body as its content. The
/// metadata file reads so where what was written reads back.
pub proof fn law_separated_reads(ws: WsView, path: Seq<char>, after: WsView)
    requires
        separation(ws, path) matches Ok((cs, _)) && crate::change::landed(ws, cs) matches Ok(w) && w
            == after,
    ensures
        ({
            let p = crate::path::normalized(path);
            crate::workspace::loaded(ws.files, p) matches Ok((_, doc)) && (doc.meta matches MetaView::Mapping(
                _,
            ) && doc.carrier matches Some(MetaCarrier::Fenced(kind)) && ({
                let format = crate::codec::inner_format(kind);
                let to = crate::path::with_ext(p, crate::document::ext_of_format(format));
                &&& crate::files::lookup(ws.files, to) is None
                &&& crate::files::lookup(after.files, p) == Some(
                    crate::files::FileView::Text(doc.body),
                )
                &&& exists|meta: MetaView|
                    {
                        &&& meta is Mapping
                        &&& crate::meta::text_field(meta, "content"@) == crate::path::name_of(p)
                        &&& forall|key: Seq<char>|
                            key != "content"@ ==> #[trigger] crate::meta::field(meta, key)
                                == crate::meta::field(doc.meta, key)
                        &&& #[trigger] crate::codec::value_lines(meta, format, 1) matches Some(out)
                            && crate::files::lookup(after.files, to) == Some(
                            crate::files::FileView::Text(out),
                        ) && (!crate::path::escapes(to) && crate::document::file_format(to) == Some(
                            format,
                        ) && crate::codec::value_spelled(out, format) == Some(meta)
                            && crate::meta::settled(meta) == meta ==> (crate::workspace::loaded(
                            after.files,
                            to,
                        ) matches Ok((_, now)) && now.meta == meta))
                    }
            }))
        }),
{
    let p = crate::path::normalized(path);
    let (_, doc) = crate::workspace::loaded(ws.files, p)->Ok_0;
    law_separate_lands(ws, path, after);
    let (pairs, format, to) = splittable(ws, p, doc)->Ok_0;
    let name = crate::path::name_of(p)->Some_0;
    let value = MetaView::Text(name);
    let meta = MetaView::Mapping(crate::meta::put(pairs, "content"@, value));
    crate::meta::law_put_reads_back(pairs, "content"@, value, "content"@);
    assert forall|key: Seq<char>| key != "content"@ implies #[trigger] crate::meta::field(meta, key)
        == crate::meta::field(doc.meta, key) by {
        crate::meta::law_put_reads_back(pairs, "content"@, value, key);
    }
    if crate::files::lookup(ws.files, to) is Some {
        crate::landing::law_file_is_taken(ws.files, to);
    }
    assert(crate::codec::value_lines(meta, format, 1) is Some);
}

/// A path reference to a document that is split, in a document that a survey covers, leads
/// to its metadata file afterwards, and every other one where it led; and there is a file
/// there. The edits read back.
pub proof fn law_separate_is_followed(
    ws: WsView,
    path: Seq<char>,
    after: WsView,
    inverse: Seq<char>,
    source: Seq<char>,
    i: int,
    k: int,
)
    requires
        separation(ws, path) matches Ok((cs, _)) && crate::change::landed(ws, cs) matches Ok(w) && w
            == after,
        crate::follow::distinct_names(ws.relations.relations),
        crate::workspace::spanning_names(ws.relations) matches Ok((_, v)) && v == inverse,
        0 <= i < ws.relations.relations.len(),
        ({
            let p = crate::path::normalized(path);
            let meta_path = (separation(ws, path)->Ok_0).1;
            let moves = one_move(p, meta_path);
            let moved = crate::field::moved_paths(ws.files, moves);
            let read = crate::workspace::loaded(ws.files, source)->Ok_0;
            let name = ws.relations.relations[i].name;
            let raws = crate::meta::links_at(read.1.meta, name);
            &&& crate::walk::surveyed(ws, crate::walk::root_of(ws, p, inverse)).contains(source)
            &&& source != p
            &&& 0 <= k < raws.len()
            &&& crate::landing::can_follow(ws, source, name, raws[k], moved, moves)
            &&& crate::files::lookup(
                ws.files,
                crate::landing::place_of(source, raws[k]),
            ) is Some
        }),
    ensures
        ({
            let moves = one_move(crate::path::normalized(path), (separation(ws, path)->Ok_0).1);
            let read = crate::workspace::loaded(ws.files, source)->Ok_0;
            let name = ws.relations.relations[i].name;
            let raws = crate::meta::links_at(read.1.meta, name);
            exists|touches: Seq<crate::reading::Touch>|
                #[trigger] crate::reading::reads_through(source, read.0, touches)
                    ==> crate::following::leads_there(
                    ws,
                    after,
                    source,
                    name,
                    k,
                    crate::maintain::landing_or_same(
                        moves,
                        crate::landing::place_of(source, raws[k]),
                    ),
                )
        }),
{
    let moves = one_move(crate::path::normalized(path), (separation(ws, path)->Ok_0).1);
    let moved = crate::field::moved_paths(ws.files, moves);
    let read = crate::workspace::loaded(ws.files, source)->Ok_0;
    reveal_with_fuel(crate::maintain::paired_with, 2);
    assert(moves->Files_0.drop_first().len() == 0);
    crate::landing::law_survey_follows(
        ws,
        crate::path::normalized(path),
        inverse,
        moves,
        Movers::Skip,
        source,
    );
    let touches = crate::following::law_followed_touches(ws, source, read, moved, moves);
    if crate::reading::reads_through(source, read.0, touches) {
        law_separate_keeps_reading(ws, path, after, inverse, source, i, k);
    }
}

/// A path reference to a metadata file that is folded into its content file, in a document
/// that a survey covers, leads to that file afterwards, and every other one where it led; and
/// there is a file there. The edits read back.
pub proof fn law_combine_is_followed(
    ws: WsView,
    path: Seq<char>,
    after: WsView,
    inverse: Seq<char>,
    source: Seq<char>,
    content: Seq<char>,
    i: int,
    k: int,
)
    requires
        combination(ws, path) matches Ok((cs, _)) && crate::change::landed(ws, cs) matches Ok(w) && w
            == after,
        crate::follow::distinct_names(ws.relations.relations),
        crate::workspace::spanning_names(ws.relations) matches Ok((_, v)) && v == inverse,
        0 <= i < ws.relations.relations.len(),
        ({
            let p = crate::path::normalized(path);
            let moves = one_move(p, content);
            let moved = crate::field::moved_paths(ws.files, moves);
            let read = crate::workspace::loaded(ws.files, source)->Ok_0;
            let name = ws.relations.relations[i].name;
            let raws = crate::meta::links_at(read.1.meta, name);
            &&& crate::workspace::loaded(ws.files, p) matches Ok((_, doc)) && foldable(ws, p, doc)
                matches Ok((_, _, c)) && c == content
            &&& crate::field::inbound_rewrites(ws, p, moves, Movers::Skip) matches Ok(inbound)
                && !crate::landing::rewrites_path(inbound, content)
            &&& content != p
            &&& crate::walk::surveyed(ws, crate::walk::root_of(ws, p, inverse)).contains(source)
            &&& source != p
            &&& source != content
            &&& 0 <= k < raws.len()
            &&& crate::landing::can_follow(ws, source, name, raws[k], moved, moves)
            &&& crate::files::lookup(
                ws.files,
                crate::landing::place_of(source, raws[k]),
            ) is Some
        }),
    ensures
        ({
            let moves = one_move(crate::path::normalized(path), content);
            let read = crate::workspace::loaded(ws.files, source)->Ok_0;
            let name = ws.relations.relations[i].name;
            let raws = crate::meta::links_at(read.1.meta, name);
            exists|touches: Seq<crate::reading::Touch>|
                #[trigger] crate::reading::reads_through(source, read.0, touches)
                    ==> crate::following::leads_there(
                    ws,
                    after,
                    source,
                    name,
                    k,
                    crate::maintain::landing_or_same(
                        moves,
                        crate::landing::place_of(source, raws[k]),
                    ),
                )
        }),
{
    let moves = one_move(crate::path::normalized(path), content);
    let moved = crate::field::moved_paths(ws.files, moves);
    let read = crate::workspace::loaded(ws.files, source)->Ok_0;
    reveal_with_fuel(crate::maintain::paired_with, 2);
    assert(moves->Files_0.drop_first().len() == 0);
    crate::landing::law_survey_follows(
        ws,
        crate::path::normalized(path),
        inverse,
        moves,
        Movers::Skip,
        source,
    );
    let touches = crate::following::law_followed_touches(ws, source, read, moved, moves);
    if crate::reading::reads_through(source, read.0, touches) {
        law_combine_keeps_reading(ws, path, after, inverse, source, content, i, k);
    }
}

/// Entries that are each at a key of their own.
pub open spec fn distinct_keys(pairs: Seq<(Seq<char>, MetaView)>) -> bool {
    forall|i: int, j: int|
        0 <= i < j < pairs.len() ==> (#[trigger] pairs[i]).0 != (#[trigger] pairs[j]).0
}

proof fn lemma_entries_touches(
    text: Seq<char>,
    doc: crate::document::DocView,
    kind: crate::codec::Fence,
    pairs: Seq<(Seq<char>, MetaView)>,
) -> (touches: Seq<crate::reading::Touch>)
    requires
        doc.carrier is None,
        doc.meta is Null,
        distinct_keys(pairs),
    ensures
        ({
            let carrier = MetaCarrier::Fenced(kind);
            let now = crate::reading::all_meant(doc, touches);
            &&& crate::reading::all_touched(text, None, touches) == entries_set(
                crate::document::opened(text, Some(carrier)),
                carrier,
                pairs,
            )
            &&& crate::reading::all_carried(None, touches) == Some(carrier)
            &&& now.meta is Mapping || now.meta is Null
            &&& now.body == doc.body
            &&& crate::meta::field(now.meta, "content"@) is None
            &&& forall|key: Seq<char>|
                key != "content"@ ==> #[trigger] crate::meta::field(now.meta, key)
                    == crate::meta::field(MetaView::Mapping(pairs), key)
        }),
    decreases pairs.len(),
{
    let none = Seq::<crate::reading::Touch>::empty();
    if pairs.len() == 0 {
        let open = crate::reading::Touch::Open(kind);
        crate::reading::lemma_touch_push(text, None, doc, none, open);
        none.push(open)
    } else {
        let rest = pairs.drop_last();
        let (key, value) = pairs.last();
        let n = pairs.len() - 1;
        assert(distinct_keys(rest)) by {
            assert forall|i: int, j: int| 0 <= i < j < rest.len() implies (#[trigger] rest[i]).0 != (
            #[trigger] rest[j]).0 by {
                assert(pairs[i].0 != pairs[j].0);
            }
        }
        let first = lemma_entries_touches(text, doc, kind, rest);
        let before = crate::reading::all_meant(doc, first);
        assert(rest.push(pairs.last()) =~= pairs);
        assert(crate::meta::field(MetaView::Mapping(rest), key) is None) by {
            crate::meta::lemma_key_index(rest, key);
            match crate::meta::key_index(rest, key) {
                Some(i) => {
                    assert(pairs[i].0 != pairs[n].0);
                    assert(rest[i] == pairs[i]);
                },
                None => {},
            }
        }
        let touch = crate::reading::Touch::Value(key, value);
        let touches = if key == "content"@ {
            first
        } else {
            first.push(touch)
        };
        crate::reading::lemma_touch_push(text, None, doc, first, touch);
        let now = crate::reading::all_meant(doc, touches);
        assert forall|other: Seq<char>| other != "content"@ implies #[trigger] crate::meta::field(
            now.meta,
            other,
        ) == crate::meta::field(MetaView::Mapping(pairs), other) by {
            crate::reading::lemma_field_push(rest, pairs.last(), other);
            assert(crate::meta::field(before.meta, other) == crate::meta::field(
                MetaView::Mapping(rest),
                other,
            ));
            if key != "content"@ {
                crate::reading::law_value_reads(before.meta, key, value, other);
            }
        }
        if key != "content"@ {
            crate::reading::law_value_reads(before.meta, key, value, "content"@);
        }
        touches
    }
}

/// A document that is folded is one file, where its prose was: it reads with every entry of
/// its metadata but the one that named its content, and with the prose as its body. Its
/// metadata file is gone. Its prose had no metadata, and links to nothing that moves; each
/// entry is at a key of its own, and the edits read back.
pub proof fn law_combined_reads(ws: WsView, path: Seq<char>, after: WsView, content: Seq<char>)
    requires
        combination(ws, path) matches Ok((cs, _)) && crate::change::landed(ws, cs) matches Ok(w) && w
            == after,
        ({
            let p = crate::path::normalized(path);
            crate::workspace::loaded(ws.files, p) matches Ok((_, doc)) && (
            doc.meta matches MetaView::Mapping(pairs) && distinct_keys(pairs)) && (
            crate::meta::text_field(doc.meta, "content"@) matches Some(raw) && content
                == crate::path::under(crate::path::parent_of(p), raw)) && content != p && (
            crate::field::inbound_rewrites(ws, p, one_move(p, content), Movers::Skip) matches Ok(
                inbound,
            ) ==> !crate::landing::rewrites_path(inbound, content))
        }),
        crate::workspace::loaded(ws.files, content) matches Ok((_, prose)) && prose.carrier is None
            && prose.meta is Null,
    ensures
        ({
            let p = crate::path::normalized(path);
            let (_, doc) = crate::workspace::loaded(ws.files, p)->Ok_0;
            let (raw, prose) = crate::workspace::loaded(ws.files, content)->Ok_0;
            &&& crate::files::lookup(after.files, p) is None
            &&& exists|touches: Seq<crate::reading::Touch>|
                {
                    &&& #[trigger] crate::reading::all_touched(raw, prose.carrier, touches) matches Some(
                        out,
                    ) && crate::files::lookup(after.files, content) == Some(
                        crate::files::FileView::Text(out),
                    )
                    &&& crate::reading::reads_through(content, raw, touches) ==> (
                    crate::workspace::loaded(after.files, content) matches Ok((_, now)) && ({
                        &&& crate::meta::field(now.meta, "content"@) is None
                        &&& forall|key: Seq<char>|
                            key != "content"@ ==> #[trigger] crate::meta::field(now.meta, key)
                                == crate::meta::field(doc.meta, key)
                        &&& now.body == prose.body
                    }))
                }
        }),
{
    let p = crate::path::normalized(path);
    let (_, doc) = crate::workspace::loaded(ws.files, p)->Ok_0;
    let (raw, prose) = crate::workspace::loaded(ws.files, content)->Ok_0;
    law_combine_lands(ws, path, after);
    let (pairs, format, _) = foldable(ws, p, doc)->Ok_0;
    let touches = lemma_entries_touches(raw, prose, crate::document::front_of(format), pairs);
    if crate::reading::reads_through(content, raw, touches) {
        crate::reading::law_touched_reads(content, raw, touches);
    }
}

} // verus!
