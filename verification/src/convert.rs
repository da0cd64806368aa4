//! Respellings that leave every document where it stands: the style of links,
//! the language of metadata, and the family of its block.

use crate::change::{ChangeSet, ChangeView};
use crate::codec::{Fence, MetaFormat};
use crate::document::{Document, EmbedStyle, MetaCarrier};
use crate::error::{Error, Fault};
use crate::link::LinkStyle;
use crate::meta::{Meta, MetaView};
use crate::text::{chars_of, same_text};
use crate::walk::{no_texts, push_text};
use crate::workspace::{Outcome, Workspace, WsView};
use vstd::prelude::*;

verus! {

/// What a conversion changes.
#[derive(Debug, Clone, Copy, PartialEq, Eq, Structural)]
pub enum Sweep {
    /// The style of links.
    Links(LinkStyle),
    /// The language of metadata.
    Format(MetaFormat),
    /// The family of metadata blocks.
    Embed(EmbedStyle),
}

/// The text of a document with its links in a style; none where that is what
/// they are in.
pub open spec fn restyled(ws: WsView, path: Seq<char>, style: LinkStyle) -> Outcome<
    Option<Seq<char>>,
> {
    match crate::workspace::loaded(ws.files, path) {
        Err(e) => Err(e),
        Ok((text, doc)) => match crate::field::respelled_fields(
            ws,
            path,
            text,
            doc,
            crate::field::restyled_entry(path, style),
        ) {
            Err(e) => Err(e),
            Ok(out) => {
                let whole = crate::maintain::body_restyled(out, doc.body, path, style);
                if whole == text {
                    Ok(None)
                } else {
                    Ok(Some(whole))
                }
            },
        },
    }
}

/// The family and the language that a block is to have; none where it has them.
pub open spec fn wanted_block(path: Seq<char>, kind: Fence, sweep: Sweep) -> Outcome<
    Option<(EmbedStyle, MetaFormat)>,
> {
    let style = crate::document::style_of(kind);
    let format = crate::codec::inner_format(kind);
    match sweep {
        Sweep::Format(wanted) => if format == wanted {
            Ok(None)
        } else {
            Ok(Some((style, wanted)))
        },
        Sweep::Embed(wanted) => if style == wanted {
            Ok(None)
        } else if wanted is Separate {
            Err(Fault::SeparateConvert(path))
        } else {
            Ok(Some((wanted, format)))
        },
        Sweep::Links(_) => Ok(None),
    }
}

/// A text that ends in a line break.
pub open spec fn ended(text: Seq<char>) -> Seq<char> {
    if text.len() > 0 && text.last() == '\n' {
        text
    } else {
        text.push('\n')
    }
}

/// A document with its metadata in another kind of block.
pub open spec fn rehoused(
    path: Seq<char>,
    text: Seq<char>,
    kind: Fence,
    pairs: Seq<(Seq<char>, MetaView)>,
    target: Fence,
) -> Outcome<Option<Seq<char>>> {
    match crate::codec::value_text(MetaView::Mapping(pairs), crate::codec::inner_format(target)) {
        None => Err(Fault::Metadata(path)),
        Some(content) => match crate::codec::embed_retype_text(
            text,
            kind,
            target,
            ended(content),
        ) {
            None => Err(Fault::Metadata(path)),
            Some(out) => Ok(Some(out)),
        },
    }
}

/// The text of a document with its metadata in another language, or in another
/// family of blocks; none where there is nothing to convert. A metadata file is
/// no block: where it was named, that is a refusal.
pub open spec fn reformatted(ws: WsView, path: Seq<char>, sweep: Sweep, named: bool) -> Outcome<
    Option<Seq<char>>,
> {
    match crate::workspace::loaded(ws.files, path) {
        Err(e) => Err(e),
        Ok((text, doc)) => match (crate::document::mapping_of(doc), doc.carrier) {
            (None, _) => Ok(None),
            (_, None) => Ok(None),
            (Some(_), Some(MetaCarrier::WholeFile(_))) => if named {
                Err(Fault::WholeFileConvert(path))
            } else {
                Ok(None)
            },
            (Some(pairs), Some(MetaCarrier::Fenced(kind))) => match wanted_block(
                path,
                kind,
                sweep,
            ) {
                Err(e) => Err(e),
                Ok(None) => Ok(None),
                Ok(Some((style, format))) => match crate::document::kind_of(style, format) {
                    None => Err(Fault::NoArchetype(path, style, format)),
                    Some(target) => rehoused(path, text, kind, pairs, target),
                },
            },
        },
    }
}

/// The text of a document after a conversion; none where it stays as it is.
pub open spec fn converted(ws: WsView, path: Seq<char>, sweep: Sweep, named: bool) -> Outcome<
    Option<Seq<char>>,
> {
    match sweep {
        Sweep::Links(style) => restyled(ws, path, style),
        _ => reformatted(ws, path, sweep, named),
    }
}

/// The changes that convert these documents, and those that change.
pub open spec fn converted_among(
    ws: WsView,
    docs: Seq<Seq<char>>,
    file: Seq<char>,
    sweep: Sweep,
) -> Outcome<(ChangeView, Seq<Seq<char>>)>
    decreases docs.len(),
{
    if docs.len() == 0 {
        Ok((crate::change::no_change(ws), Seq::empty()))
    } else {
        match converted_among(ws, docs.drop_last(), file, sweep) {
            Err(e) => Err(e),
            Ok((cs, changed)) => match converted(ws, docs.last(), sweep, docs.last() == file) {
                Err(e) => Err(e),
                Ok(None) => Ok((cs, changed)),
                Ok(Some(text)) => Ok(
                    (
                        cs.with(crate::files::write_text(docs.last(), text)),
                        changed.push(docs.last()),
                    ),
                ),
            },
        }
    }
}

/// The documents that a conversion covers: one, or everything under it.
pub open spec fn covered(ws: WsView, file: Seq<char>, recursive: bool) -> Seq<Seq<char>> {
    if recursive {
        crate::walk::subtree(ws, file)
    } else {
        seq![file]
    }
}

/// The changes that convert a document, or everything under it, and the documents
/// that change; or why there are none.
pub open spec fn conversion(ws: WsView, file: Seq<char>, sweep: Sweep, recursive: bool) -> Outcome<
    (ChangeView, Seq<Seq<char>>),
> {
    let file = crate::path::normalized(file);
    if !crate::files::occupied(ws.files, file) {
        Err(Fault::NotFound(file))
    } else {
        converted_among(ws, covered(ws, file, recursive), file, sweep)
    }
}

proof fn lemma_converted_fails(
    ws: WsView,
    docs: Seq<Seq<char>>,
    file: Seq<char>,
    sweep: Sweep,
    n: int,
)
    requires
        0 <= n <= docs.len(),
        converted_among(ws, docs.take(n), file, sweep) is Err,
    ensures
        converted_among(ws, docs, file, sweep) == converted_among(ws, docs.take(n), file, sweep),
    decreases docs.len(),
{
    if n == docs.len() {
        assert(docs.take(n) =~= docs);
    } else {
        assert(docs.drop_last().take(n) =~= docs.take(n));
        lemma_converted_fails(ws, docs.drop_last(), file, sweep, n);
    }
}

fn block_wanted(path: &str, kind: Fence, sweep: Sweep) -> (r: Result<
    Option<(EmbedStyle, MetaFormat)>,
    Error,
>)
    ensures
        match r {
            Ok(w) => wanted_block(path@, kind, sweep) matches Ok(v) && v == w,
            Err(e) => wanted_block(path@, kind, sweep) matches Err(f) && f == crate::error::fault(
                e,
            ),
        },
{
    let style = crate::document::embed_style_of(kind);
    let format = crate::codec::inner_format_of(kind);
    match sweep {
        Sweep::Format(wanted) => if format == wanted {
            Ok(None)
        } else {
            Ok(Some((style, wanted)))
        },
        Sweep::Embed(wanted) => if style == wanted {
            Ok(None)
        } else if wanted == EmbedStyle::Separate {
            Err(Fault::SeparateConvert(path.to_owned()))
        } else {
            Ok(Some((wanted, format)))
        },
        Sweep::Links(_) => Ok(None),
    }
}

fn end_line(text: String) -> (r: String)
    ensures
        r@ == ended(text@),
{
    let cs = chars_of(&text);
    let n: usize = cs.len();
    if n > 0 && cs[n - 1] == '\n' {
        return text;
    }
    let mut out = text;
    out.push('\n');
    out
}

fn rehouse(path: &str, text: &str, kind: Fence, meta: &Meta, target: Fence) -> (r: Result<
    Option<String>,
    Error,
>)
    ensures
        meta@ matches MetaView::Mapping(pairs) ==> crate::workspace::told_opt(r) == rehoused(
            path@,
            text@,
            kind,
            pairs,
            target,
        ),
{
    let content = match crate::codec::serialize(meta, crate::codec::inner_format_of(target)) {
        Some(content) => end_line(content),
        None => {
            return Err(Fault::Metadata(path.to_owned()));
        },
    };
    match crate::codec::embed_retype(text, kind, target, &content) {
        Some(out) => Ok(Some(out)),
        None => Err(Fault::Metadata(path.to_owned())),
    }
}

fn is_mapping(doc: &Document) -> (r: bool)
    ensures
        r == (crate::document::mapping_of(doc@) is Some),
{
    match &doc.meta {
        Meta::Mapping(_) => true,
        _ => false,
    }
}

impl Workspace {
    /// The text of a document with its links in a style; none where that is what
    /// they are in.
    pub fn restyle_document(&self, path: &str, style: LinkStyle) -> (r: Result<
        Option<String>,
        Error,
    >)
        ensures
            crate::workspace::told_opt(r) == restyled(self@, path@, style),
    {
        let (text, doc) = match self.load(path) {
            Ok(read) => read,
            Err(e) => {
                return Err(e);
            },
        };
        match self.restyle_frontmatter_links(&text, &doc, path, style) {
            Err(e) => Err(e),
            Ok(out) => {
                let whole = crate::maintain::restyle_body_links(&out, &doc.body, path, style);
                if same_text(&whole, &text) {
                    Ok(None)
                } else {
                    Ok(Some(whole))
                }
            },
        }
    }

    /// The text of a document with its metadata in another language, or in
    /// another family of blocks; none where there is nothing to convert. A
    /// metadata file is no block: where it was named, that is a refusal.
    pub fn reformat_document(&self, path: &str, sweep: Sweep, named: bool) -> (r: Result<
        Option<String>,
        Error,
    >)
        ensures
            crate::workspace::told_opt(r) == reformatted(self@, path@, sweep, named),
    {
        let (text, doc) = match self.load(path) {
            Ok(read) => read,
            Err(e) => {
                return Err(e);
            },
        };
        if !is_mapping(&doc) {
            return Ok(None);
        }
        let kind = match doc.carrier {
            Some(MetaCarrier::Fenced(kind)) => kind,
            Some(MetaCarrier::WholeFile(_)) => {
                return if named {
                    Err(Fault::WholeFileConvert(path.to_owned()))
                } else {
                    Ok(None)
                };
            },
            None => {
                return Ok(None);
            },
        };
        match block_wanted(path, kind, sweep) {
            Err(e) => Err(e),
            Ok(None) => Ok(None),
            Ok(Some((style, format))) => match crate::document::embed_kind_of(style, format) {
                None => Err(Fault::NoArchetype(path.to_owned(), style, format)),
                Some(target) => rehouse(path, &text, kind, &doc.meta, target),
            },
        }
    }

    fn convert_document(&self, path: &str, sweep: Sweep, named: bool) -> (r: Result<
        Option<String>,
        Error,
    >)
        ensures
            crate::workspace::told_opt(r) == converted(self@, path@, sweep, named),
    {
        match sweep {
            Sweep::Links(style) => self.restyle_document(path, style),
            _ => self.reformat_document(path, sweep, named),
        }
    }

    /// The documents that a conversion covers: one, or everything under it.
    pub fn cover(&self, file: &str, recursive: bool) -> (r: Vec<String>)
        ensures
            crate::text::texts(r@) == covered(self@, file@, recursive),
    {
        if recursive {
            self.spanning_subtree(file)
        } else {
            let mut out = no_texts();
            push_text(&mut out, file.to_owned());
            proof {
                assert(crate::text::texts(out@) =~= seq![file@]);
            }
            out
        }
    }

    fn convert_all(&self, docs: &Vec<String>, file: &str, sweep: Sweep) -> (r: Result<
        (ChangeSet, Vec<String>),
        Error,
    >)
        ensures
            ({
                let plan = converted_among(self@, crate::text::texts(docs@), file@, sweep);
                match r {
                    Ok((cs, v)) => plan matches Ok((c, changed)) && c == cs@ && changed
                        == crate::text::texts(v@),
                    Err(e) => plan matches Err(f) && f == crate::error::fault(e),
                }
            }),
    {
        let ghost all = crate::text::texts(docs@);
        let mut cs = self.change();
        let mut changed = no_texts();
        let mut i: usize = 0;
        proof {
            assert(all.take(0) =~= Seq::empty());
        }
        while i < docs.len()
            invariant
                i <= docs@.len(),
                all == crate::text::texts(docs@),
                converted_among(self@, all.take(i as int), file@, sweep) matches Ok((c, v)) && c
                    == cs@ && v == crate::text::texts(changed@),
            decreases docs@.len() - i,
        {
            let path = &docs[i];
            proof {
                assert(all.take(i + 1).drop_last() =~= all.take(i as int));
                assert(all.take(i + 1).last() == path@);
            }
            match self.convert_document(path, sweep, same_text(path, file)) {
                Err(e) => {
                    proof {
                        lemma_converted_fails(self@, all, file@, sweep, i + 1);
                    }
                    return Err(e);
                },
                Ok(None) => {},
                Ok(Some(text)) => {
                    cs.write(path, &text);
                    push_text(&mut changed, path.clone());
                },
            }
            i = i + 1;
        }
        proof {
            assert(all.take(i as int) =~= all);
        }
        Ok((cs, changed))
    }

    /// The changes that convert a document, or everything under it, and the
    /// documents that change.
    pub fn plan_sweep(&self, file: &str, sweep: Sweep, recursive: bool) -> (r: Result<
        (ChangeSet, Vec<String>),
        Error,
    >)
        ensures
            ({
                let plan = conversion(self@, file@, sweep, recursive);
                match r {
                    Ok((cs, v)) => plan matches Ok((c, changed)) && c == cs@ && changed
                        == crate::text::texts(v@),
                    Err(e) => plan matches Err(f) && f == crate::error::fault(e),
                }
            }),
    {
        let file = crate::path::normalize(file);
        if !self.is_taken(&file) {
            return Err(Fault::NotFound(file));
        }
        let docs = self.cover(&file, recursive);
        self.convert_all(&docs, &file, sweep)
    }

    fn sweep(&mut self, file: &str, sweep: Sweep, recursive: bool) -> (r: Result<
        Vec<String>,
        Error,
    >)
        ensures
            ({
                let done = crate::change::carried_out(
                    old(self)@,
                    conversion(old(self)@, file@, sweep, recursive),
                );
                match r {
                    Ok(v) => done matches Ok((after, changed)) && after == final(self)@ && changed
                        == crate::text::texts(v@),
                    Err(e) => done matches Err(f) && f == crate::error::fault(e) && *final(self)
                        == *old(self),
                }
            }),
    {
        match self.plan_sweep(file, sweep, recursive) {
            Ok((cs, changed)) => match self.commit(cs) {
                Ok(_) => Ok(changed),
                Err(e) => Err(e),
            },
            Err(e) => Err(e),
        }
    }

    /// Writes the links of a document, or of everything under it, in a style.
    /// Gives the documents that change. A refusal changes nothing.
    pub fn convert_link_style(&mut self, file: &str, style: LinkStyle, recursive: bool) -> (r:
        Result<Vec<String>, Error>)
        ensures
            ({
                let done = crate::change::carried_out(
                    old(self)@,
                    conversion(old(self)@, file@, Sweep::Links(style), recursive),
                );
                match r {
                    Ok(v) => done matches Ok((after, changed)) && after == final(self)@ && changed
                        == crate::text::texts(v@),
                    Err(e) => done matches Err(f) && f == crate::error::fault(e) && *final(self)
                        == *old(self),
                }
            }),
    {
        self.sweep(file, Sweep::Links(style), recursive)
    }

    /// Writes the metadata of a document, or of everything under it, in another
    /// language, in the same family of blocks. Gives the documents that change.
    /// A refusal changes nothing.
    pub fn convert_meta_format(&mut self, file: &str, format: MetaFormat, recursive: bool) -> (r:
        Result<Vec<String>, Error>)
        ensures
            ({
                let done = crate::change::carried_out(
                    old(self)@,
                    conversion(old(self)@, file@, Sweep::Format(format), recursive),
                );
                match r {
                    Ok(v) => done matches Ok((after, changed)) && after == final(self)@ && changed
                        == crate::text::texts(v@),
                    Err(e) => done matches Err(f) && f == crate::error::fault(e) && *final(self)
                        == *old(self),
                }
            }),
    {
        self.sweep(file, Sweep::Format(format), recursive)
    }

    /// Moves the metadata of a document, or of everything under it, to another
    /// family of blocks, in the same language. Gives the documents that change.
    /// A refusal changes nothing.
    pub fn convert_meta_embed(&mut self, file: &str, style: EmbedStyle, recursive: bool) -> (r:
        Result<Vec<String>, Error>)
        ensures
            ({
                let done = crate::change::carried_out(
                    old(self)@,
                    conversion(old(self)@, file@, Sweep::Embed(style), recursive),
                );
                match r {
                    Ok(v) => done matches Ok((after, changed)) && after == final(self)@ && changed
                        == crate::text::texts(v@),
                    Err(e) => done matches Err(f) && f == crate::error::fault(e) && *final(self)
                        == *old(self),
                }
            }),
    {
        self.sweep(file, Sweep::Embed(style), recursive)
    }
}

proof fn lemma_converted_among(
    ws: WsView,
    docs: Seq<Seq<char>>,
    file: Seq<char>,
    sweep: Sweep,
    q: Seq<char>,
    j: int,
)
    requires
        docs.no_duplicates(),
        converted_among(ws, docs, file, sweep) is Ok,
        crate::files::changed_all(
            ws.files,
            (converted_among(ws, docs, file, sweep)->Ok_0).0.ops,
        ) is Ok,
    ensures
        ({
            let (cs, changed) = converted_among(ws, docs, file, sweep)->Ok_0;
            let files = crate::files::changed_all(ws.files, cs.ops)->Ok_0;
            &&& cs.ids == crate::change::no_change(ws).ids
            &&& 0 <= j < docs.len() ==> (converted(ws, docs[j], sweep, docs[j] == file) matches Ok(
                out,
            ) && match out {
                Some(text) => crate::files::lookup(files, docs[j]) == Some(
                    crate::files::FileView::Text(text),
                ) && changed.contains(docs[j]),
                None => crate::files::lookup(files, docs[j]) == crate::files::lookup(
                    ws.files,
                    docs[j],
                ) && !changed.contains(docs[j]),
            })
            &&& !docs.contains(q) ==> crate::files::lookup(files, q) == crate::files::lookup(
                ws.files,
                q,
            ) && !changed.contains(q)
            &&& changed == docs.filter(
                |d: Seq<char>| converted(ws, d, sweep, d == file) matches Ok(Some(_)),
            )
        }),
    decreases docs.len(),
{
    reveal(Seq::filter);
    if docs.len() > 0 {
        let rest = docs.drop_last();
        let last = docs.last();
        let n = docs.len() - 1;
        let (cs, changed) = converted_among(ws, rest, file, sweep)->Ok_0;
        assert(!rest.contains(last)) by {
            if rest.contains(last) {
                let i = choose|i: int| 0 <= i < rest.len() && rest[i] == last;
                assert(docs[i] == docs[n]);
            }
        }
        assert(docs[n] == last);
        if !docs.contains(q) {
            assert(!rest.contains(q)) by {
                if rest.contains(q) {
                    let i = choose|i: int| 0 <= i < rest.len() && rest[i] == q;
                    assert(docs[i] == q);
                }
            }
        }
        if 0 <= j < n {
            assert(rest[j] == docs[j]);
        }
        match converted(ws, last, sweep, last == file)->Ok_0 {
            Some(text) => {
                let op = crate::files::write_text(last, text);
                let data = crate::files::FileView::Text(text);
                crate::landing::lemma_changed_push(ws.files, cs.ops, op);
                assert(cs.with(op).ops =~= cs.ops.push(op));
                let before = crate::files::changed_all(ws.files, cs.ops)->Ok_0;
                lemma_converted_among(ws, rest, file, sweep, q, j);
                lemma_converted_among(ws, rest, file, sweep, last, j);
                crate::files::law_stored(before, last, data, q);
                crate::files::law_stored(before, last, data, last);
                assert(changed.push(last)[changed.len() as int] == last);
                if 0 <= j < n {
                    crate::files::law_stored(before, last, data, docs[j]);
                    if changed.contains(docs[j]) {
                        let i = choose|i: int| 0 <= i < changed.len() && changed[i] == docs[j];
                        assert(changed.push(last)[i] == docs[j]);
                    }
                    assert(docs[j] != docs[n]);
                }
            },
            None => {
                lemma_converted_among(ws, rest, file, sweep, q, j);
                lemma_converted_among(ws, rest, file, sweep, last, j);
            },
        }
    }
}

/// Whether a block of this kind is in the language, or of the family, that a conversion
/// of metadata asks for.
pub open spec fn is_in(kind: Fence, sweep: Sweep) -> bool {
    match sweep {
        Sweep::Format(wanted) => crate::codec::inner_format(kind) == wanted,
        Sweep::Embed(wanted) => crate::document::style_of(kind) == wanted,
        Sweep::Links(_) => true,
    }
}

/// Whether a document has a mapping in a fenced block that is not in the language, or of
/// the family, that a conversion asks for.
pub open spec fn is_due(ws: WsView, path: Seq<char>, sweep: Sweep) -> bool {
    crate::workspace::loaded(ws.files, path) matches Ok((_, doc)) && doc.meta is Mapping && (
    doc.carrier matches Some(MetaCarrier::Fenced(kind)) && !is_in(kind, sweep))
}

/// Whether a block that is rehoused reads as it did, in its new kind: the mapping, as it
/// is written in the language of that kind and ended by a line break, and the body.
pub open spec fn rehouses(path: Seq<char>, text: Seq<char>, kind: Fence, target: Fence) -> bool {
    crate::document::parsed(path, text) matches Some(doc) && forall|content: Seq<char>|
        #![trigger crate::codec::embed_retype_text(text, kind, target, content)]
        (crate::codec::value_lines(doc.meta, crate::codec::inner_format(target), 1) matches Some(
            lines,
        ) && (content == lines || content == lines.push('\n')) && content.len() > 0
            && content.last() == '\n') ==> (crate::codec::embed_retype_text(
            text,
            kind,
            target,
            content,
        ) matches Some(out) ==> crate::document::parsed(path, out) == Some(
            crate::document::DocView {
                meta: doc.meta,
                body: doc.body,
                carrier: Some(MetaCarrier::Fenced(target)),
            },
        ))
}

/// Every document that a conversion of metadata covers, the one that is named or, where
/// it is recursive, every one of its subtree, has its metadata in the language that is
/// asked for and in the family of blocks it was in, or in the family that is asked for and
/// in its language: with the same mapping, and the same body. A document whose metadata
/// was so already, or that has no fenced mapping, is as it was. The rehoused block reads
/// back.
pub proof fn law_metadata_is_converted(
    ws: WsView,
    file: Seq<char>,
    sweep: Sweep,
    recursive: bool,
    after: WsView,
    d: Seq<char>,
)
    requires
        conversion(ws, file, sweep, recursive) matches Ok((cs, _)) && crate::change::landed(
            ws,
            cs,
        ) matches Ok(w) && w == after,
        !(sweep is Links),
        if recursive {
            crate::walk::subtree(ws, crate::path::normalized(file)).contains(d)
        } else {
            d == crate::path::normalized(file)
        },
    ensures
        !is_due(ws, d, sweep) ==> crate::files::lookup(after.files, d) == crate::files::lookup(
            ws.files,
            d,
        ),
        is_due(ws, d, sweep) ==> ({
            let (text, doc) = crate::workspace::loaded(ws.files, d)->Ok_0;
            let kind = doc.carrier->Some_0->Fenced_0;
            exists|target: Fence|
                {
                    &&& is_in(target, sweep)
                    &&& sweep is Format ==> crate::document::style_of(target)
                        == crate::document::style_of(kind)
                    &&& sweep is Embed ==> crate::codec::inner_format(target)
                        == crate::codec::inner_format(kind)
                    &&& #[trigger] rehouses(d, text, kind, target) ==> (crate::workspace::loaded(
                        after.files,
                        d,
                    ) matches Ok((_, now)) && now.meta == doc.meta && now.body == doc.body
                        && now.carrier == Some(MetaCarrier::Fenced(target)))
                }
        }),
{
    let f = crate::path::normalized(file);
    let docs = covered(ws, f, recursive);
    crate::landing::law_walk(ws, None, f);
    assert(docs.contains(d)) by {
        if !recursive {
            assert(docs[0] == d);
        }
    }
    let j = choose|j: int| 0 <= j < docs.len() && docs[j] == d;
    lemma_converted_among(ws, docs, f, sweep, d, j);
    if is_due(ws, d, sweep) {
        let (text, doc) = crate::workspace::loaded(ws.files, d)->Ok_0;
        let kind = doc.carrier->Some_0->Fenced_0;
        let (style, format) = wanted_block(d, kind, sweep)->Ok_0->Some_0;
        let target = crate::document::kind_of(style, format)->Some_0;
        assert(is_in(target, sweep));
        let lines = crate::codec::value_lines(doc.meta, crate::codec::inner_format(target), 1);
        assert(lines is Some);
        let content = ended(lines->Some_0);
        assert(crate::codec::embed_retype_text(text, kind, target, content) is Some);
        if rehouses(d, text, kind, target) {
            assert(content.last() == '\n');
        }
    }
}

/// A conversion of metadata gives the documents it covers that had a fenced mapping in
/// another language, or of another family, and no others, in the order of the walk; and
/// no file but theirs changes.
pub proof fn law_converted_are_told(
    ws: WsView,
    file: Seq<char>,
    sweep: Sweep,
    recursive: bool,
    after: WsView,
    q: Seq<char>,
)
    requires
        conversion(ws, file, sweep, recursive) matches Ok((cs, _)) && crate::change::landed(
            ws,
            cs,
        ) matches Ok(w) && w == after,
        !(sweep is Links),
    ensures
        ({
            let f = crate::path::normalized(file);
            let changed = (conversion(ws, file, sweep, recursive)->Ok_0).1;
            &&& changed == (if recursive {
                crate::walk::subtree(ws, f)
            } else {
                seq![f]
            }).filter(|d: Seq<char>| is_due(ws, d, sweep))
            &&& crate::files::lookup(after.files, q) != crate::files::lookup(ws.files, q)
                ==> changed.contains(q)
        }),
{
    let f = crate::path::normalized(file);
    let docs = covered(ws, f, recursive);
    crate::landing::law_walk(ws, None, f);
    lemma_converted_among(ws, docs, f, sweep, q, 0);
    if docs.contains(q) {
        let j = choose|j: int| 0 <= j < docs.len() && docs[j] == q;
        lemma_converted_among(ws, docs, f, sweep, q, j);
    }
    let a = |d: Seq<char>| converted(ws, d, sweep, d == f) matches Ok(Some(_));
    let b = |d: Seq<char>| is_due(ws, d, sweep);
    assert forall|i: int| 0 <= i < docs.len() implies a(#[trigger] docs[i]) == b(docs[i]) by {
        lemma_converted_among(ws, docs, f, sweep, q, i);
    }
    lemma_same_filter(docs, a, b);
}

proof fn lemma_same_filter(
    docs: Seq<Seq<char>>,
    a: spec_fn(Seq<char>) -> bool,
    b: spec_fn(Seq<char>) -> bool,
)
    requires
        forall|i: int| 0 <= i < docs.len() ==> a(#[trigger] docs[i]) == b(docs[i]),
    ensures
        docs.filter(a) == docs.filter(b),
    decreases docs.len(),
{
    reveal(Seq::filter);
    if docs.len() > 0 {
        let rest = docs.drop_last();
        assert forall|i: int| 0 <= i < rest.len() implies a(#[trigger] rest[i]) == b(rest[i]) by {
            assert(rest[i] == docs[i]);
        }
        lemma_same_filter(rest, a, b);
        assert(docs[docs.len() - 1] == docs.last());
    }
}

/// A conversion of links gives the documents it covers whose text changes, and no others,
/// in the order of the walk; and no file but theirs changes.
pub proof fn law_restyled_are_told(
    ws: WsView,
    file: Seq<char>,
    style: LinkStyle,
    recursive: bool,
    after: WsView,
)
    requires
        conversion(ws, file, Sweep::Links(style), recursive) matches Ok((cs, _))
            && crate::change::landed(ws, cs) matches Ok(w) && w == after,
    ensures
        ({
            let f = crate::path::normalized(file);
            let changed = (conversion(ws, file, Sweep::Links(style), recursive)->Ok_0).1;
            &&& changed == (if recursive {
                crate::walk::subtree(ws, f)
            } else {
                seq![f]
            }).filter(
                |d: Seq<char>|
                    crate::files::lookup(after.files, d) != crate::files::lookup(ws.files, d),
            )
            &&& forall|q: Seq<char>|
                #[trigger] crate::files::lookup(after.files, q) != crate::files::lookup(
                    ws.files,
                    q,
                ) ==> changed.contains(q)
        }),
{
    let f = crate::path::normalized(file);
    let sweep = Sweep::Links(style);
    let docs = covered(ws, f, recursive);
    let changed = (conversion(ws, file, sweep, recursive)->Ok_0).1;
    crate::landing::law_walk(ws, None, f);
    lemma_converted_among(ws, docs, f, sweep, f, 0);
    assert forall|q: Seq<char>|
        #[trigger] crate::files::lookup(after.files, q) != crate::files::lookup(
            ws.files,
            q,
        ) implies changed.contains(q) by {
        lemma_converted_among(ws, docs, f, sweep, q, 0);
        if docs.contains(q) {
            let j = choose|j: int| 0 <= j < docs.len() && docs[j] == q;
            lemma_converted_among(ws, docs, f, sweep, q, j);
        }
    }
    let a = |d: Seq<char>| converted(ws, d, sweep, d == f) matches Ok(Some(_));
    let b = |d: Seq<char>|
        crate::files::lookup(after.files, d) != crate::files::lookup(ws.files, d);
    assert forall|i: int| 0 <= i < docs.len() implies a(#[trigger] docs[i]) == b(docs[i]) by {
        lemma_converted_among(ws, docs, f, sweep, f, i);
    }
    lemma_same_filter(docs, a, b);
}

/// A document that a conversion of links covers: every path reference of its relations
/// that can be respelled reaches what it reached, and every other reference is as it was;
/// and what stands in place of its body is the body with its links respelled. The edits
/// read back.
pub proof fn law_links_are_restyled(
    ws: WsView,
    file: Seq<char>,
    style: LinkStyle,
    recursive: bool,
    after: WsView,
    d: Seq<char>,
    i: int,
    k: int,
)
    requires
        conversion(ws, file, Sweep::Links(style), recursive) matches Ok((cs, _))
            && crate::change::landed(ws, cs) matches Ok(w) && w == after,
        crate::follow::distinct_names(ws.relations.relations),
        if recursive {
            crate::walk::subtree(ws, crate::path::normalized(file)).contains(d)
        } else {
            d == crate::path::normalized(file)
        },
        0 <= i < ws.relations.relations.len(),
        crate::workspace::loaded(ws.files, d) matches Ok((_, doc)) && 0 <= k
            < crate::meta::links_at(doc.meta, ws.relations.relations[i].name).len(),
    ensures
        ({
            let name = ws.relations.relations[i].name;
            let (text, doc) = crate::workspace::loaded(ws.files, d)->Ok_0;
            let raws = crate::meta::links_at(doc.meta, name);
            exists|touches: Seq<crate::reading::Touch>|
                {
                    &&& #[trigger] crate::reading::all_touched(text, doc.carrier, touches) matches Some(
                        out,
                    ) && crate::files::lookup(after.files, d) == Some(
                        crate::files::FileView::Text(
                            crate::maintain::body_restyled(out, doc.body, d, style),
                        ),
                    )
                    &&& crate::reading::reads_through(d, text, touches) ==> (
                    crate::reading::all_touched(text, doc.carrier, touches) matches Some(out) && (
                    crate::document::parsed(d, out) matches Some(now) && ({
                        let news = crate::meta::links_at(now.meta, name);
                        let target = crate::link::parse_link(raws[k]).target;
                        &&& now.body == doc.body
                        &&& news.len() == raws.len()
                        &&& if crate::link::is_path_target(target) && !crate::link::is_alias_shaped(
                            target,
                        ) {
                            crate::follow::can_reach(
                                raws[k],
                                style,
                                d,
                                crate::link::resolve_path(d, target),
                            ) ==> crate::follow::reaches(
                                news[k],
                                raws[k],
                                d,
                                crate::link::resolve_path(d, target),
                            )
                        } else {
                            news[k] == raws[k]
                        }
                    })))
                }
        }),
{
    let f = crate::path::normalized(file);
    let sweep = Sweep::Links(style);
    let docs = covered(ws, f, recursive);
    crate::landing::law_walk(ws, None, f);
    assert(docs.contains(d)) by {
        if !recursive {
            assert(docs[0] == d);
        }
    }
    let j = choose|j: int| 0 <= j < docs.len() && docs[j] == d;
    lemma_converted_among(ws, docs, f, sweep, d, j);
    let name = ws.relations.relations[i].name;
    let (text, doc) = crate::workspace::loaded(ws.files, d)->Ok_0;
    let raws = crate::meta::links_at(doc.meta, name);
    let rule = crate::field::restyled_entry(d, style);
    let edits = crate::field::relation_edits(ws, doc.meta, ws.relations.relations, rule);
    let touches = if doc.carrier is Some {
        crate::reading::replacements(edits)
    } else {
        Seq::empty()
    };
    crate::follow::law_references_respelled(ws, doc.meta, rule, i);
    if doc.carrier is Some {
        crate::reading::lemma_replacements(text, doc.carrier->Some_0, doc, edits);
    }
    let out = crate::reading::all_touched(text, doc.carrier, touches);
    assert(out is Some);
    if crate::reading::reads_through(d, text, touches) {
        crate::reading::law_touched_reads(d, text, touches);
        let target = crate::link::parse_link(raws[k]).target;
        if crate::link::is_path_target(target) && !crate::link::is_alias_shaped(target)
            && crate::follow::can_reach(
            raws[k],
            style,
            d,
            crate::link::resolve_path(d, target),
        ) {
            crate::follow::law_restyled_reference(
                crate::follow::field_style(ws, name),
                style,
                d,
                raws[k],
            );
        }
    }
}

} // verus!
