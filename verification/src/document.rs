//! Documents: a file with a metadata block and a body, or a metadata file whose
//! whole text is the metadata.

use crate::codec::{Fence, MetaFormat, Region, Step, StepView};
use crate::meta::{Meta, MetaView};
use crate::path::opt_text;
use crate::text::same_text;
use vstd::prelude::*;

verus! {

/// Where the metadata of a document stands.
#[derive(Debug, Clone, Copy, PartialEq, Eq, Structural)]
pub enum MetaCarrier {
    /// In a block inside the document.
    Fenced(Fence),
    /// The whole file is the metadata.
    WholeFile(MetaFormat),
}

/// A parsed document.
#[derive(Debug, PartialEq, Eq)]
pub struct Document {
    /// Its metadata; null where it has none.
    pub meta: Meta,
    /// Everything outside the metadata block.
    pub body: String,
    /// Where the metadata stands.
    pub carrier: Option<MetaCarrier>,
}

/// What a [`Document`] holds.
pub struct DocView {
    pub meta: MetaView,
    pub body: Seq<char>,
    pub carrier: Option<MetaCarrier>,
}

impl View for Document {
    type V = DocView;

    open spec fn view(&self) -> DocView {
        DocView { meta: self.meta@, body: self.body@, carrier: self.carrier }
    }
}

/// What an optional document holds.
pub open spec fn doc_opt(d: Option<Document>) -> Option<DocView> {
    match d {
        Some(d) => Some(d@),
        None => None,
    }
}

/// The language of a metadata file with this extension.
pub open spec fn format_of_ext(ext: Seq<char>) -> Option<MetaFormat> {
    if ext == "yaml"@ || ext == "yml"@ {
        Some(MetaFormat::Yaml)
    } else if ext == "json"@ {
        Some(MetaFormat::Json)
    } else if ext == "toml"@ {
        Some(MetaFormat::Toml)
    } else if ext == "fig"@ || ext == "figl"@ {
        Some(MetaFormat::Fig)
    } else {
        None
    }
}

/// The language of the metadata file at `path`; none for any other file.
pub open spec fn file_format(path: Seq<char>) -> Option<MetaFormat> {
    match crate::path::ext_of(path) {
        Some(ext) => format_of_ext(ext),
        None => None,
    }
}

/// The grammar of a body.
#[derive(Debug, Clone, Copy, PartialEq, Eq, Structural)]
pub enum ContentFormat {
    /// Markdown.
    Markdown,
    /// Djot.
    Djot,
    /// HTML.
    Html,
}

/// The grammar that an extension declares.
pub open spec fn grammar_of_ext(ext: Seq<char>) -> Option<ContentFormat> {
    if ext == "md"@ || ext == "markdown"@ {
        Some(ContentFormat::Markdown)
    } else if ext == "dj"@ || ext == "djot"@ {
        Some(ContentFormat::Djot)
    } else if ext == "html"@ || ext == "htm"@ {
        Some(ContentFormat::Html)
    } else {
        None
    }
}

/// The grammar of the prose in the file at `path`.
pub open spec fn grammar(path: Seq<char>) -> Option<ContentFormat> {
    match crate::path::ext_of(path) {
        Some(ext) => grammar_of_ext(ext),
        None => None,
    }
}

/// A file that is neither prose nor metadata.
pub open spec fn is_opaque(path: Seq<char>) -> bool {
    grammar(path) is None && file_format(path) is None
}

/// The document that `text` at `path` is; none where its metadata is malformed.
pub open spec fn parsed(path: Seq<char>, text: Seq<char>) -> Option<DocView> {
    match file_format(path) {
        Some(format) => match crate::codec::value_spelled(text, format) {
            Some(v) => Some(
                DocView {
                    meta: crate::meta::settled(v),
                    body: Seq::empty(),
                    carrier: Some(MetaCarrier::WholeFile(format)),
                },
            ),
            None => None,
        },
        None => match block_of(text) {
            Some((kind, region)) => match crate::codec::value_spelled(
                region.content,
                crate::codec::inner_format(kind),
            ) {
                Some(v) => Some(
                    DocView {
                        meta: crate::meta::settled(v),
                        body: region.before + region.after,
                        carrier: Some(MetaCarrier::Fenced(kind)),
                    },
                ),
                None => None,
            },
            None => Some(DocView { meta: MetaView::Null, body: text, carrier: None }),
        },
    }
}

/// The metadata block of a document that is not a metadata file.
pub open spec fn block_of(text: Seq<char>) -> Option<(Fence, crate::codec::RegionView)> {
    match crate::codec::embed_kind(text) {
        Some(kind) => match crate::codec::embed_region(text, kind) {
            Some(region) => Some((kind, region)),
            None => None,
        },
        None => None,
    }
}

/// The language of the metadata file at `path`; none for any other file.
pub fn whole_file_format(path: &str) -> (r: Option<MetaFormat>)
    ensures
        r == file_format(path@),
{
    match crate::path::extension(path) {
        Some(ext) => if same_text(&ext, "yaml") || same_text(&ext, "yml") {
            Some(MetaFormat::Yaml)
        } else if same_text(&ext, "json") {
            Some(MetaFormat::Json)
        } else if same_text(&ext, "toml") {
            Some(MetaFormat::Toml)
        } else if same_text(&ext, "fig") || same_text(&ext, "figl") {
            Some(MetaFormat::Fig)
        } else {
            None
        },
        None => None,
    }
}

/// The extension of a metadata file in this language.
pub open spec fn ext_of_format(format: MetaFormat) -> Seq<char> {
    match format {
        MetaFormat::Yaml => "yaml"@,
        MetaFormat::Json => "json"@,
        MetaFormat::Toml => "toml"@,
        MetaFormat::Fig => "figl"@,
    }
}

/// The extension of a metadata file in this language.
pub fn whole_file_extension(format: MetaFormat) -> (r: &'static str)
    ensures
        r@ == ext_of_format(format),
{
    match format {
        MetaFormat::Yaml => "yaml",
        MetaFormat::Json => "json",
        MetaFormat::Toml => "toml",
        MetaFormat::Fig => "figl",
    }
}

/// The block that opens a document in this language.
pub open spec fn front_of(format: MetaFormat) -> Fence {
    match format {
        MetaFormat::Yaml => Fence::Frontmatter,
        MetaFormat::Json => Fence::Semicolons,
        MetaFormat::Toml => Fence::Plus,
        MetaFormat::Fig => Fence::FencedFig,
    }
}

/// The block that opens a document in this language.
pub fn frontmatter_kind(format: MetaFormat) -> (r: Fence)
    ensures
        r == front_of(format),
{
    match format {
        MetaFormat::Yaml => Fence::Frontmatter,
        MetaFormat::Json => Fence::Semicolons,
        MetaFormat::Toml => Fence::Plus,
        MetaFormat::Fig => Fence::FencedFig,
    }
}

/// The family of blocks that a workspace embeds its metadata in.
#[derive(Debug, Clone, Copy, PartialEq, Eq, Structural)]
pub enum EmbedStyle {
    /// Between delimiter lines.
    Delimited,
    /// A code block.
    CodeBlock,
    /// An HTML data island.
    HtmlScript,
    /// A visible HTML code block.
    HtmlCode,
    /// A metadata file beside the body.
    Separate,
}

/// The family of a block kind.
pub open spec fn style_of(kind: Fence) -> EmbedStyle {
    match kind {
        Fence::Frontmatter
        | Fence::Semicolons
        | Fence::Plus
        | Fence::MdJson
        | Fence::MdToml
        | Fence::MdFig => EmbedStyle::Delimited,
        Fence::Endmatter
        | Fence::FencedYaml
        | Fence::FencedJson
        | Fence::FencedToml
        | Fence::FencedFig => EmbedStyle::CodeBlock,
        Fence::HtmlScriptYaml
        | Fence::HtmlScriptJson
        | Fence::HtmlScriptToml
        | Fence::HtmlScriptFig => EmbedStyle::HtmlScript,
        Fence::HtmlCodeYaml
        | Fence::HtmlCodeJson
        | Fence::HtmlCodeToml
        | Fence::HtmlCodeFig => EmbedStyle::HtmlCode,
    }
}

/// The family of a block kind.
pub fn embed_style_of(kind: Fence) -> (r: EmbedStyle)
    ensures
        r == style_of(kind),
{
    match kind {
        Fence::Frontmatter
        | Fence::Semicolons
        | Fence::Plus
        | Fence::MdJson
        | Fence::MdToml
        | Fence::MdFig => EmbedStyle::Delimited,
        Fence::Endmatter
        | Fence::FencedYaml
        | Fence::FencedJson
        | Fence::FencedToml
        | Fence::FencedFig => EmbedStyle::CodeBlock,
        Fence::HtmlScriptYaml
        | Fence::HtmlScriptJson
        | Fence::HtmlScriptToml
        | Fence::HtmlScriptFig => EmbedStyle::HtmlScript,
        Fence::HtmlCodeYaml
        | Fence::HtmlCodeJson
        | Fence::HtmlCodeToml
        | Fence::HtmlCodeFig => EmbedStyle::HtmlCode,
    }
}

/// The block kind of a family and a language. There is none for a separate
/// file, nor for `fig` between delimiter lines.
pub open spec fn kind_of(style: EmbedStyle, format: MetaFormat) -> Option<Fence> {
    match (style, format) {
        (EmbedStyle::Separate, _) => None,
        (EmbedStyle::Delimited, MetaFormat::Yaml) => Some(Fence::Frontmatter),
        (EmbedStyle::Delimited, MetaFormat::Json) => Some(Fence::Semicolons),
        (EmbedStyle::Delimited, MetaFormat::Toml) => Some(Fence::Plus),
        (EmbedStyle::Delimited, MetaFormat::Fig) => None,
        (EmbedStyle::CodeBlock, MetaFormat::Yaml) => Some(Fence::FencedYaml),
        (EmbedStyle::CodeBlock, MetaFormat::Json) => Some(Fence::FencedJson),
        (EmbedStyle::CodeBlock, MetaFormat::Toml) => Some(Fence::FencedToml),
        (EmbedStyle::CodeBlock, MetaFormat::Fig) => Some(Fence::FencedFig),
        (EmbedStyle::HtmlScript, MetaFormat::Yaml) => Some(Fence::HtmlScriptYaml),
        (EmbedStyle::HtmlScript, MetaFormat::Json) => Some(Fence::HtmlScriptJson),
        (EmbedStyle::HtmlScript, MetaFormat::Toml) => Some(Fence::HtmlScriptToml),
        (EmbedStyle::HtmlScript, MetaFormat::Fig) => Some(Fence::HtmlScriptFig),
        (EmbedStyle::HtmlCode, MetaFormat::Yaml) => Some(Fence::HtmlCodeYaml),
        (EmbedStyle::HtmlCode, MetaFormat::Json) => Some(Fence::HtmlCodeJson),
        (EmbedStyle::HtmlCode, MetaFormat::Toml) => Some(Fence::HtmlCodeToml),
        (EmbedStyle::HtmlCode, MetaFormat::Fig) => Some(Fence::HtmlCodeFig),
    }
}

/// The block kind of a family and a language.
pub fn embed_kind_of(style: EmbedStyle, format: MetaFormat) -> (r: Option<Fence>)
    ensures
        r == kind_of(style, format),
{
    match (style, format) {
        (EmbedStyle::Separate, _) => None,
        (EmbedStyle::Delimited, MetaFormat::Yaml) => Some(Fence::Frontmatter),
        (EmbedStyle::Delimited, MetaFormat::Json) => Some(Fence::Semicolons),
        (EmbedStyle::Delimited, MetaFormat::Toml) => Some(Fence::Plus),
        (EmbedStyle::Delimited, MetaFormat::Fig) => None,
        (EmbedStyle::CodeBlock, MetaFormat::Yaml) => Some(Fence::FencedYaml),
        (EmbedStyle::CodeBlock, MetaFormat::Json) => Some(Fence::FencedJson),
        (EmbedStyle::CodeBlock, MetaFormat::Toml) => Some(Fence::FencedToml),
        (EmbedStyle::CodeBlock, MetaFormat::Fig) => Some(Fence::FencedFig),
        (EmbedStyle::HtmlScript, MetaFormat::Yaml) => Some(Fence::HtmlScriptYaml),
        (EmbedStyle::HtmlScript, MetaFormat::Json) => Some(Fence::HtmlScriptJson),
        (EmbedStyle::HtmlScript, MetaFormat::Toml) => Some(Fence::HtmlScriptToml),
        (EmbedStyle::HtmlScript, MetaFormat::Fig) => Some(Fence::HtmlScriptFig),
        (EmbedStyle::HtmlCode, MetaFormat::Yaml) => Some(Fence::HtmlCodeYaml),
        (EmbedStyle::HtmlCode, MetaFormat::Json) => Some(Fence::HtmlCodeJson),
        (EmbedStyle::HtmlCode, MetaFormat::Toml) => Some(Fence::HtmlCodeToml),
        (EmbedStyle::HtmlCode, MetaFormat::Fig) => Some(Fence::HtmlCodeFig),
    }
}

/// The grammar of the prose in the file at `path`.
pub fn grammar_of(path: &str) -> (r: Option<ContentFormat>)
    ensures
        r == grammar(path@),
{
    match crate::path::extension(path) {
        Some(ext) => if same_text(&ext, "md") || same_text(&ext, "markdown") {
            Some(ContentFormat::Markdown)
        } else if same_text(&ext, "dj") || same_text(&ext, "djot") {
            Some(ContentFormat::Djot)
        } else if same_text(&ext, "html") || same_text(&ext, "htm") {
            Some(ContentFormat::Html)
        } else {
            None
        },
        None => None,
    }
}

/// The extension that declares a grammar.
pub open spec fn ext_of_grammar(format: ContentFormat) -> Seq<char> {
    match format {
        ContentFormat::Markdown => "md"@,
        ContentFormat::Djot => "dj"@,
        ContentFormat::Html => "html"@,
    }
}

/// The extension that declares a grammar.
pub fn grammar_extension(format: ContentFormat) -> (r: &'static str)
    ensures
        r@ == ext_of_grammar(format),
{
    match format {
        ContentFormat::Markdown => "md",
        ContentFormat::Djot => "dj",
        ContentFormat::Html => "html",
    }
}

/// Whether prose does not survive the way from one grammar to another: any
/// change with HTML at either end.
pub open spec fn is_lossy(from: ContentFormat, to: ContentFormat) -> bool {
    from != to && (from is Html || to is Html)
}

/// Whether prose does not survive the way from one grammar to another.
pub fn loses(from: ContentFormat, to: ContentFormat) -> (r: bool)
    ensures
        r == is_lossy(from, to),
{
    from != to && (from == ContentFormat::Html || to == ContentFormat::Html)
}

/// Whether the file at `path` is neither prose nor metadata.
pub fn is_opaque_payload(path: &str) -> (r: bool)
    ensures
        r == is_opaque(path@),
{
    grammar_of(path).is_none() && whole_file_format(path).is_none()
}

impl Document {
    /// Parses a document. A metadata file is metadata throughout; any other file
    /// is searched for a metadata block, and one that is never closed counts as
    /// none.
    pub fn parse(path: &str, text: &str) -> (r: Option<Document>)
        ensures
            doc_opt(r) == parsed(path@, text@),
    {
        match whole_file_format(path) {
            Some(format) => match crate::codec::parse_value(text, format) {
                Some(v) => Some(
                    Document {
                        meta: v.settle(),
                        body: String::new(),
                        carrier: Some(MetaCarrier::WholeFile(format)),
                    },
                ),
                None => None,
            },
            None => match find_block(text) {
                Some((kind, region)) => match crate::codec::parse_value(
                    &region.content,
                    crate::codec::inner_format_of(kind),
                ) {
                    Some(v) => {
                        let body = region.before.concat(&region.after);
                        Some(
                            Document {
                                meta: v.settle(),
                                body,
                                carrier: Some(MetaCarrier::Fenced(kind)),
                            },
                        )
                    },
                    None => None,
                },
                None => Some(
                    Document { meta: Meta::Null, body: text.to_owned(), carrier: None },
                ),
            },
        }
    }

    /// The file that holds the prose of a separated document, as it is written.
    pub fn content_attr(&self) -> (r: Option<String>)
        ensures
            opt_text(r) == content_of(self@),
    {
        self.meta.get_text("content")
    }

    /// The file that lists what this document stands for, as it is written.
    pub fn manifest_attr(&self) -> (r: Option<String>)
        ensures
            opt_text(r) == manifest_of(self@),
    {
        self.meta.get_text("manifest")
    }

    /// A copy of this document.
    pub fn copy(&self) -> (r: Document)
        ensures
            r@ == self@,
    {
        Document { meta: self.meta.copy(), body: self.body.clone(), carrier: self.carrier }
    }
}

/// The file that holds the prose of a separated document, as it is written.
pub open spec fn content_of(doc: DocView) -> Option<Seq<char>> {
    crate::meta::text_field(doc.meta, "content"@)
}

/// The file that lists what a document stands for, as it is written.
pub open spec fn manifest_of(doc: DocView) -> Option<Seq<char>> {
    crate::meta::text_field(doc.meta, "manifest"@)
}

/// The metadata block of a document that is not a metadata file.
fn find_block(text: &str) -> (r: Option<(Fence, Region)>)
    ensures
        match r {
            Some((kind, region)) => block_of(text@) == Some((kind, region@)) && region@.around(
                region@.content,
            ) == text@,
            None => block_of(text@) is None,
        },
{
    match crate::codec::detect(text) {
        Some(kind) => match crate::codec::extract(text, kind) {
            Some(region) => Some((kind, region)),
            None => None,
        },
        None => None,
    }
}

/// A document's text with the value at `path` set.
pub open spec fn set_at(
    text: Seq<char>,
    carrier: MetaCarrier,
    path: Seq<StepView>,
    value: MetaView,
) -> Option<Seq<char>> {
    match carrier {
        MetaCarrier::Fenced(kind) => crate::codec::embed_set_text(text, kind, path, value),
        MetaCarrier::WholeFile(format) => crate::codec::file_set_text(text, format, path, value),
    }
}

/// A document's text with the value at `path` replaced.
pub open spec fn replace_at(
    text: Seq<char>,
    carrier: MetaCarrier,
    path: Seq<StepView>,
    value: MetaView,
) -> Option<Seq<char>> {
    match carrier {
        MetaCarrier::Fenced(kind) => crate::codec::embed_replace_text(text, kind, path, value),
        MetaCarrier::WholeFile(format) => crate::codec::file_replace_text(
            text,
            format,
            path,
            value,
        ),
    }
}

/// A document's text with an item added to the list at `path`.
pub open spec fn append_at(
    text: Seq<char>,
    carrier: MetaCarrier,
    path: Seq<StepView>,
    value: MetaView,
) -> Option<Seq<char>> {
    match carrier {
        MetaCarrier::Fenced(kind) => crate::codec::embed_append_text(text, kind, path, value),
        MetaCarrier::WholeFile(format) => crate::codec::file_append_text(
            text,
            format,
            path,
            value,
        ),
    }
}

/// A document's text without the entry at `path`.
pub open spec fn delete_at(text: Seq<char>, carrier: MetaCarrier, path: Seq<StepView>) -> Option<
    Seq<char>,
> {
    match carrier {
        MetaCarrier::Fenced(kind) => crate::codec::embed_delete_text(text, kind, path),
        MetaCarrier::WholeFile(format) => crate::codec::file_delete_text(text, format, path),
    }
}

/// A document's text without one item of the list at `path`.
pub open spec fn remove_at(
    text: Seq<char>,
    carrier: MetaCarrier,
    path: Seq<StepView>,
    index: int,
) -> Option<Seq<char>> {
    match carrier {
        MetaCarrier::Fenced(kind) => crate::codec::embed_remove_text(text, kind, path, index),
        MetaCarrier::WholeFile(format) => crate::codec::file_remove_text(
            text,
            format,
            path,
            index,
        ),
    }
}

/// A document's text with the list at `path` reordered.
pub open spec fn reorder_at(
    text: Seq<char>,
    carrier: MetaCarrier,
    path: Seq<StepView>,
    indices: Seq<usize>,
) -> Option<Seq<char>> {
    match carrier {
        MetaCarrier::Fenced(kind) => crate::codec::embed_reorder_text(text, kind, path, indices),
        MetaCarrier::WholeFile(format) => crate::codec::file_reorder_text(
            text,
            format,
            path,
            indices,
        ),
    }
}

/// Whether an edit left everything outside the metadata as it was.
pub open spec fn keeps_body(text: Seq<char>, carrier: MetaCarrier, out: Seq<char>) -> bool {
    carrier matches MetaCarrier::Fenced(kind) ==> crate::codec::keeps_host(text, kind, out)
}

/// A document's text with the value at `path` set.
pub fn set_value(text: &str, carrier: MetaCarrier, path: &[Step], value: &Meta) -> (r: Option<
    String,
>)
    ensures
        opt_text(r) == set_at(text@, carrier, crate::codec::way(path@), value@),
        r matches Some(out) ==> keeps_body(text@, carrier, out@),
{
    match carrier {
        MetaCarrier::Fenced(kind) => crate::codec::embed_set(text, kind, path, value),
        MetaCarrier::WholeFile(format) => crate::codec::file_set(text, format, path, value),
    }
}

/// A document's text with the value at `path` replaced.
pub fn replace_value(text: &str, carrier: MetaCarrier, path: &[Step], value: &Meta) -> (r: Option<
    String,
>)
    ensures
        opt_text(r) == replace_at(text@, carrier, crate::codec::way(path@), value@),
        r matches Some(out) ==> keeps_body(text@, carrier, out@),
{
    match carrier {
        MetaCarrier::Fenced(kind) => crate::codec::embed_replace(text, kind, path, value),
        MetaCarrier::WholeFile(format) => crate::codec::file_replace(text, format, path, value),
    }
}

/// A document's text with an item added to the list at `path`.
pub fn append_value(text: &str, carrier: MetaCarrier, path: &[Step], value: &Meta) -> (r: Option<
    String,
>)
    ensures
        opt_text(r) == append_at(text@, carrier, crate::codec::way(path@), value@),
        r matches Some(out) ==> keeps_body(text@, carrier, out@),
{
    match carrier {
        MetaCarrier::Fenced(kind) => crate::codec::embed_append(text, kind, path, value),
        MetaCarrier::WholeFile(format) => crate::codec::file_append(text, format, path, value),
    }
}

/// A document's text without the entry at `path`.
pub fn delete_entry(text: &str, carrier: MetaCarrier, path: &[Step]) -> (r: Option<String>)
    ensures
        opt_text(r) == delete_at(text@, carrier, crate::codec::way(path@)),
        r matches Some(out) ==> keeps_body(text@, carrier, out@),
{
    match carrier {
        MetaCarrier::Fenced(kind) => crate::codec::embed_delete(text, kind, path),
        MetaCarrier::WholeFile(format) => crate::codec::file_delete(text, format, path),
    }
}

/// A document's text without one item of the list at `path`.
pub fn remove_item(text: &str, carrier: MetaCarrier, path: &[Step], index: usize) -> (r: Option<
    String,
>)
    ensures
        opt_text(r) == remove_at(text@, carrier, crate::codec::way(path@), index as int),
        r matches Some(out) ==> keeps_body(text@, carrier, out@),
{
    match carrier {
        MetaCarrier::Fenced(kind) => crate::codec::embed_remove(text, kind, path, index),
        MetaCarrier::WholeFile(format) => crate::codec::file_remove(text, format, path, index),
    }
}

/// A document's text with the list at `path` reordered.
pub fn reorder_items(text: &str, carrier: MetaCarrier, path: &[Step], indices: &[usize]) -> (r:
    Option<String>)
    ensures
        opt_text(r) == reorder_at(text@, carrier, crate::codec::way(path@), indices@),
        r matches Some(out) ==> keeps_body(text@, carrier, out@),
{
    match carrier {
        MetaCarrier::Fenced(kind) => crate::codec::embed_reorder(text, kind, path, indices),
        MetaCarrier::WholeFile(format) => crate::codec::file_reorder(text, format, path, indices),
    }
}

/// Where an edit of a document puts its metadata: its own carrier, or the block
/// that opens a document.
pub open spec fn carrier_or_front(carrier: Option<MetaCarrier>) -> MetaCarrier {
    match carrier {
        Some(carrier) => carrier,
        None => MetaCarrier::Fenced(Fence::Frontmatter),
    }
}

/// A document's text with room for metadata: a missing block is made.
pub open spec fn opened(text: Seq<char>, carrier: Option<MetaCarrier>) -> Option<Seq<char>> {
    match carrier_or_front(carrier) {
        MetaCarrier::Fenced(kind) => crate::codec::embed_init_text(text, kind),
        MetaCarrier::WholeFile(_) => Some(text),
    }
}

/// A document's text with room for metadata: a missing block is made.
pub fn open_or_init(text: &str, carrier: Option<MetaCarrier>) -> (r: Option<(String, MetaCarrier)>)
    ensures
        match r {
            Some((out, c)) => opened(text@, carrier) == Some(out@) && c == carrier_or_front(
                carrier,
            ),
            None => opened(text@, carrier) is None,
        },
{
    let c = match carrier {
        Some(c) => c,
        None => MetaCarrier::Fenced(Fence::Frontmatter),
    };
    match c {
        MetaCarrier::Fenced(kind) => match crate::codec::embed_init(text, kind) {
            Some(out) => Some((out, c)),
            None => None,
        },
        MetaCarrier::WholeFile(_) => Some((text.to_owned(), c)),
    }
}

/// The way to a single key.
pub open spec fn key_way(key: Seq<char>) -> Seq<StepView> {
    seq![StepView::Key(key)]
}

/// The way to one item of the list at a key.
pub open spec fn item_way(key: Seq<char>, index: int) -> Seq<StepView> {
    seq![StepView::Key(key), StepView::Index(index)]
}

/// The way to a single key.
pub fn key_path(key: &str) -> (r: Vec<Step>)
    ensures
        crate::codec::way(r@) == key_way(key@),
{
    let mut v: Vec<Step> = Vec::new();
    v.push(Step::Key(key.to_owned()));
    proof {
        assert(crate::codec::way(v@) =~= key_way(key@));
    }
    v
}

/// The way to one item of the list at a key.
pub fn item_path(key: &str, index: usize) -> (r: Vec<Step>)
    ensures
        crate::codec::way(r@) == item_way(key@, index as int),
{
    let mut v: Vec<Step> = Vec::new();
    v.push(Step::Key(key.to_owned()));
    v.push(Step::Index(index));
    proof {
        assert(crate::codec::way(v@) =~= item_way(key@, index as int));
    }
    v
}

/// A document's text with text set at a key, in its own carrier or in a new
/// block that opens it.
pub open spec fn set_in(
    text: Seq<char>,
    carrier: Option<MetaCarrier>,
    key: Seq<char>,
    value: MetaView,
) -> Option<Seq<char>> {
    match opened(text, carrier) {
        Some(base) => set_at(base, carrier_or_front(carrier), key_way(key), value),
        None => None,
    }
}

/// A document's text with a value set at a key, in its own carrier or in a new
/// block that opens it.
pub fn set_in_text(text: &str, carrier: Option<MetaCarrier>, key: &str, value: &Meta) -> (r: Option<
    String,
>)
    ensures
        opt_text(r) == set_in(text@, carrier, key@, value@),
{
    match open_or_init(text, carrier) {
        Some((base, c)) => set_value(&base, c, &key_path(key), value),
        None => None,
    }
}

/// A document's text with an entry added to the list at a key, which is made
/// where nothing can be added to it.
pub open spec fn appended_in(
    text: Seq<char>,
    carrier: Option<MetaCarrier>,
    key: Seq<char>,
    entry: Seq<char>,
) -> Option<Seq<char>> {
    match opened(text, carrier) {
        Some(base) => {
            let c = carrier_or_front(carrier);
            match append_at(base, c, key_way(key), MetaView::Text(entry)) {
                Some(out) => Some(out),
                None => set_at(
                    base,
                    c,
                    key_way(key),
                    MetaView::List(seq![MetaView::Text(entry)]),
                ),
            }
        },
        None => None,
    }
}

/// A document's text with an entry added to the list at a key, which is made
/// where nothing can be added to it.
pub fn append_in_text(text: &str, carrier: Option<MetaCarrier>, key: &str, entry: &str) -> (r:
    Option<String>)
    ensures
        opt_text(r) == appended_in(text@, carrier, key@, entry@),
{
    broadcast use crate::meta::lemma_list_view;

    match open_or_init(text, carrier) {
        Some((base, c)) => {
            let path = key_path(key);
            match append_value(&base, c, &path, &Meta::Text(entry.to_owned())) {
                Some(out) => Some(out),
                None => {
                    let mut items: Vec<Meta> = Vec::new();
                    items.push(Meta::Text(entry.to_owned()));
                    proof {
                        assert(crate::meta::items_view(items@) =~= seq![MetaView::Text(entry@)]);
                    }
                    set_value(&base, c, &path, &Meta::List(items))
                },
            }
        },
        None => None,
    }
}

/// The mapping that a document's metadata is.
pub open spec fn mapping_of(doc: DocView) -> Option<Seq<(Seq<char>, MetaView)>> {
    match doc.meta {
        MetaView::Mapping(pairs) => Some(pairs),
        _ => None,
    }
}

} // verus!
