//! Metadata as text: reading, writing and editing it in place, which the `fig`
//! crate does.
//!
//! Every function here that reaches `fig` is trusted to do what its contract
//! says. A result that takes a whole format to state is only given a name: the
//! same text and the same arguments always give the same result.

use crate::meta::{Meta, MetaView};
use crate::path::opt_text;
use vstd::prelude::*;

verus! {

/// The language that metadata is written in.
#[derive(Debug, Clone, Copy, PartialEq, Eq, Structural)]
pub enum MetaFormat {
    /// YAML.
    Yaml,
    /// JSON.
    Json,
    /// TOML.
    Toml,
    /// The `fig` dialect.
    Fig,
}

/// The kind of block that holds metadata inside a document.
#[derive(Debug, Clone, Copy, PartialEq, Eq, Structural)]
pub enum Fence {
    /// `---`, YAML.
    Frontmatter,
    /// `;;;`, JSON.
    Semicolons,
    /// `+++`, TOML.
    Plus,
    /// `---json`.
    MdJson,
    /// `---toml`.
    MdToml,
    /// `---fig`.
    MdFig,
    /// A trailing code block of YAML.
    Endmatter,
    /// A leading code block of YAML.
    FencedYaml,
    /// A leading code block of JSON.
    FencedJson,
    /// A leading code block of TOML.
    FencedToml,
    /// A leading code block of the `fig` dialect.
    FencedFig,
    /// A `<script>` data island of YAML.
    HtmlScriptYaml,
    /// A `<script>` data island of JSON.
    HtmlScriptJson,
    /// A `<script>` data island of TOML.
    HtmlScriptToml,
    /// A `<script>` data island of the `fig` dialect.
    HtmlScriptFig,
    /// A visible HTML code block of YAML.
    HtmlCodeYaml,
    /// A visible HTML code block of JSON.
    HtmlCodeJson,
    /// A visible HTML code block of TOML.
    HtmlCodeToml,
    /// A visible HTML code block of the `fig` dialect.
    HtmlCodeFig,
}

/// One step of a way into metadata: a key of a mapping or an index of a list.
#[derive(Debug, PartialEq, Eq)]
pub enum Step {
    /// A key of a mapping.
    Key(String),
    /// A position in a list.
    Index(usize),
}

/// What a [`Step`] holds.
pub enum StepView {
    Key(Seq<char>),
    Index(int),
}

impl View for Step {
    type V = StepView;

    open spec fn view(&self) -> StepView {
        match self {
            Step::Key(k) => StepView::Key(k@),
            Step::Index(i) => StepView::Index(*i as int),
        }
    }
}

/// What a way into metadata holds.
pub open spec fn way(path: Seq<Step>) -> Seq<StepView> {
    path.map_values(|s: Step| s@)
}

/// A metadata block located in a document: the text before it, its opening
/// line, what it holds, its closing line, and the text after it.
#[derive(Debug, PartialEq, Eq)]
pub struct Region {
    /// The text before the block.
    pub before: String,
    /// The fence that opens the block.
    pub open: String,
    /// What the block holds.
    pub content: String,
    /// The fence that closes the block.
    pub close: String,
    /// The text after the block.
    pub after: String,
}

/// What a [`Region`] holds.
pub struct RegionView {
    pub before: Seq<char>,
    pub open: Seq<char>,
    pub content: Seq<char>,
    pub close: Seq<char>,
    pub after: Seq<char>,
}

impl View for Region {
    type V = RegionView;

    open spec fn view(&self) -> RegionView {
        RegionView {
            before: self.before@,
            open: self.open@,
            content: self.content@,
            close: self.close@,
            after: self.after@,
        }
    }
}

impl RegionView {
    /// The document with `content` in the block.
    pub open spec fn around(self, content: Seq<char>) -> Seq<char> {
        self.before + self.open + content + self.close + self.after
    }
}

/// What an optional region holds.
pub open spec fn region_view(r: Option<Region>) -> Option<RegionView> {
    match r {
        Some(r) => Some(r@),
        None => None,
    }
}

/// What an optional value holds.
pub open spec fn meta_opt(r: Option<Meta>) -> Option<MetaView> {
    match r {
        Some(m) => Some(m@),
        None => None,
    }
}

/// Whether `out` is `text` with nothing changed outside its block of `kind`.
pub open spec fn keeps_host(text: Seq<char>, kind: Fence, out: Seq<char>) -> bool {
    embed_region(text, kind) matches Some(r) ==> exists|content: Seq<char>|
        out == #[trigger] r.around(content)
}

/// The language of what a block of this kind holds.
pub open spec fn inner_format(kind: Fence) -> MetaFormat {
    match kind {
        Fence::Frontmatter
        | Fence::Endmatter
        | Fence::FencedYaml
        | Fence::HtmlScriptYaml
        | Fence::HtmlCodeYaml => MetaFormat::Yaml,
        Fence::Semicolons
        | Fence::MdJson
        | Fence::FencedJson
        | Fence::HtmlScriptJson
        | Fence::HtmlCodeJson => MetaFormat::Json,
        Fence::Plus
        | Fence::MdToml
        | Fence::FencedToml
        | Fence::HtmlScriptToml
        | Fence::HtmlCodeToml => MetaFormat::Toml,
        Fence::MdFig
        | Fence::FencedFig
        | Fence::HtmlScriptFig
        | Fence::HtmlCodeFig => MetaFormat::Fig,
    }
}

/// The language of what a block of this kind holds.
pub fn inner_format_of(kind: Fence) -> (r: MetaFormat)
    ensures
        r == inner_format(kind),
{
    match kind {
        Fence::Frontmatter
        | Fence::Endmatter
        | Fence::FencedYaml
        | Fence::HtmlScriptYaml
        | Fence::HtmlCodeYaml => MetaFormat::Yaml,
        Fence::Semicolons
        | Fence::MdJson
        | Fence::FencedJson
        | Fence::HtmlScriptJson
        | Fence::HtmlCodeJson => MetaFormat::Json,
        Fence::Plus
        | Fence::MdToml
        | Fence::FencedToml
        | Fence::HtmlScriptToml
        | Fence::HtmlCodeToml => MetaFormat::Toml,
        Fence::MdFig
        | Fence::FencedFig
        | Fence::HtmlScriptFig
        | Fence::HtmlCodeFig => MetaFormat::Fig,
    }
}

/// The value tree of the `fig` crate, carried between calls into it.
#[verifier::external_type_specification]
#[verifier::external_body]
pub struct ExFigValue(fig::Value);

/// The block kind of the `fig` crate, carried between calls into it.
#[verifier::external_type_specification]
#[verifier::external_body]
pub struct ExFigEmbedType(fig::EmbedType);

/// The format of the `fig` crate, carried between calls into it.
#[verifier::external_type_specification]
#[verifier::external_body]
pub struct ExFigFormat(fig::Format);

/// One step of a way, as the `fig` crate takes it.
#[verifier::external_type_specification]
#[verifier::external_body]
pub struct ExFigSegment<'a>(fig::Segment<'a>);

/// Hands a format to `fig`, as the [`fig::Format`] of the same name.
#[verifier::external_body]
fn to_format(format: MetaFormat) -> fig::Format {
    match format {
        MetaFormat::Yaml => fig::Format::Yaml,
        MetaFormat::Json => fig::Format::Json,
        MetaFormat::Toml => fig::Format::Toml,
        MetaFormat::Fig => fig::Format::Fig,
    }
}

/// Hands a block kind to `fig`, as the [`fig::EmbedType`] of the same name.
#[verifier::external_body]
fn to_kind(kind: Fence) -> fig::EmbedType {
    match kind {
        Fence::Frontmatter => fig::EmbedType::Frontmatter,
        Fence::Semicolons => fig::EmbedType::Semicolons,
        Fence::Plus => fig::EmbedType::Plus,
        Fence::MdJson => fig::EmbedType::MdJson,
        Fence::MdToml => fig::EmbedType::MdToml,
        Fence::MdFig => fig::EmbedType::MdFig,
        Fence::Endmatter => fig::EmbedType::Endmatter,
        Fence::FencedYaml => fig::EmbedType::FencedYaml,
        Fence::FencedJson => fig::EmbedType::FencedJson,
        Fence::FencedToml => fig::EmbedType::FencedToml,
        Fence::FencedFig => fig::EmbedType::FencedFig,
        html => to_html_kind(html),
    }
}

/// The HTML half of [`to_kind`].
#[verifier::external_body]
fn to_html_kind(kind: Fence) -> fig::EmbedType {
    match kind {
        Fence::HtmlScriptYaml => fig::EmbedType::HtmlScriptYaml,
        Fence::HtmlScriptJson => fig::EmbedType::HtmlScriptJson,
        Fence::HtmlScriptToml => fig::EmbedType::HtmlScriptToml,
        Fence::HtmlScriptFig => fig::EmbedType::HtmlScriptFig,
        Fence::HtmlCodeYaml => fig::EmbedType::HtmlCodeYaml,
        Fence::HtmlCodeJson => fig::EmbedType::HtmlCodeJson,
        Fence::HtmlCodeToml => fig::EmbedType::HtmlCodeToml,
        _ => fig::EmbedType::HtmlCodeFig,
    }
}

/// Takes a block kind from `fig`, as the [`Fence`] of the same name.
#[verifier::external_body]
fn from_kind(kind: fig::EmbedType) -> Option<Fence> {
    Some(match kind {
        fig::EmbedType::Frontmatter => Fence::Frontmatter,
        fig::EmbedType::Semicolons => Fence::Semicolons,
        fig::EmbedType::Plus => Fence::Plus,
        fig::EmbedType::MdJson => Fence::MdJson,
        fig::EmbedType::MdToml => Fence::MdToml,
        fig::EmbedType::MdFig => Fence::MdFig,
        fig::EmbedType::Endmatter => Fence::Endmatter,
        fig::EmbedType::FencedYaml => Fence::FencedYaml,
        fig::EmbedType::FencedJson => Fence::FencedJson,
        fig::EmbedType::FencedToml => Fence::FencedToml,
        fig::EmbedType::FencedFig => Fence::FencedFig,
        html => return from_html_kind(html),
    })
}

/// The HTML half of [`from_kind`].
#[verifier::external_body]
fn from_html_kind(kind: fig::EmbedType) -> Option<Fence> {
    Some(match kind {
        fig::EmbedType::HtmlScriptYaml => Fence::HtmlScriptYaml,
        fig::EmbedType::HtmlScriptJson => Fence::HtmlScriptJson,
        fig::EmbedType::HtmlScriptToml => Fence::HtmlScriptToml,
        fig::EmbedType::HtmlScriptFig => Fence::HtmlScriptFig,
        fig::EmbedType::HtmlCodeYaml => Fence::HtmlCodeYaml,
        fig::EmbedType::HtmlCodeJson => Fence::HtmlCodeJson,
        fig::EmbedType::HtmlCodeToml => Fence::HtmlCodeToml,
        fig::EmbedType::HtmlCodeFig => Fence::HtmlCodeFig,
        _ => return None,
    })
}

/// Takes a mapping key from `fig`, as text; one that is a list or a mapping becomes
/// the text by which Rust shows it.
#[verifier::external_body]
fn from_key(key: fig::Value) -> String {
    match key {
        fig::Value::Str(s) => s,
        fig::Value::Bool(b) => b.to_string(),
        fig::Value::Int(n) => n.to_string(),
        fig::Value::Uint(n) => n.to_string(),
        fig::Value::Null => "null".to_string(),
        fig::Value::Extended { text, .. } => text,
        fig::Value::Float(x) => format!("{x:?}"),
        other => format!("{other:?}"),
    }
}

/// Takes a value from `fig`. Mapping entries keep their order, repeated keys
/// included; a number that is no `i64` becomes its text, and so does a scalar that
/// only one format has, such as a date.
#[verifier::external_body]
fn from_value(value: fig::Value) -> Meta {
    match value {
        fig::Value::Null => Meta::Null,
        fig::Value::Bool(b) => Meta::Bool(b),
        fig::Value::Int(n) => Meta::Int(n),
        fig::Value::Uint(n) => Meta::Real(n.to_string()),
        fig::Value::Float(x) => Meta::Real(format!("{x:?}")),
        fig::Value::Str(s) => Meta::Text(s),
        fig::Value::Extended { text, .. } => Meta::Text(text),
        fig::Value::Seq(items) => Meta::List(items.into_iter().map(from_value).collect()),
        fig::Value::Map(pairs) => Meta::Mapping(
            pairs.into_iter().map(|(k, v)| (from_key(k), from_value(v))).collect(),
        ),
    }
}

/// Hands a value to `fig`. A number that is no `i64` is read from its text by
/// [`fig::Value::parse_number`]; text that is no number is handed over as text.
#[verifier::external_body]
fn to_value(value: &Meta) -> fig::Value {
    match value {
        Meta::Null => fig::Value::Null,
        Meta::Bool(b) => fig::Value::Bool(*b),
        Meta::Int(n) => fig::Value::Int(*n),
        Meta::Real(s) => fig::Value::parse_number(s, false).unwrap_or(
            fig::Value::Str(s.clone()),
        ),
        Meta::Text(s) => fig::Value::Str(s.clone()),
        Meta::List(items) => fig::Value::Seq(items.iter().map(to_value).collect()),
        Meta::Mapping(pairs) => fig::Value::Map(
            pairs.iter().map(|(k, v)| (fig::Value::Str(k.clone()), to_value(v))).collect(),
        ),
    }
}

/// Hands a way into metadata to `fig`, step for step.
#[verifier::external_body]
fn to_path(path: &[Step]) -> Vec<fig::Segment<'_>> {
    path.iter().map(
        |s|
            match s {
                Step::Key(k) => fig::Segment::Key(k.as_str()),
                Step::Index(i) => fig::Segment::Index(*i),
            },
    ).collect()
}

/// The kind of block that a document opens, as [`fig::detect`] finds it.
pub uninterp spec fn embed_kind(text: Seq<char>) -> Option<Fence>;

/// Calls [`fig::detect`]: the kind of metadata block that `text` opens.
#[verifier::external_body]
pub(crate) fn detect(text: &str) -> (r: Option<Fence>)
    ensures
        r == embed_kind(text@),
{
    fig::detect(text).and_then(from_kind)
}

/// The block of this kind in a document, as [`fig::Embed::extract`] finds it.
pub uninterp spec fn embed_region(text: Seq<char>, kind: Fence) -> Option<RegionView>;

/// Calls [`fig::Embed::extract`]: where the block of this kind stands. The five
/// pieces, one after another, are the whole text.
#[verifier::external_body]
pub(crate) fn extract(text: &str, kind: Fence) -> (r: Option<Region>)
    ensures
        region_view(r) == embed_region(text@, kind),
        r matches Some(region) ==> region@.around(region@.content) == text@,
{
    let found = fig::Embed::extract(text, to_kind(kind)).ok()?;
    let region = found.region();
    let at = |span: fig::Span| text[span.start..span.end].to_string();
    Some(Region {
        before: at(region.body_before),
        open: at(region.open_fence),
        content: at(region.content),
        close: at(region.close_fence),
        after: at(region.body_after),
    })
}

/// The value that metadata text spells, as [`fig::Document`] reads it.
pub uninterp spec fn value_spelled(text: Seq<char>, format: MetaFormat) -> Option<MetaView>;

/// Calls [`fig::Document::parse`] and [`fig::Document::to_value`]: the value
/// that `text` spells, or nothing where it is malformed.
#[verifier::external_body]
pub(crate) fn parse_value(text: &str, format: MetaFormat) -> (r: Option<Meta>)
    ensures
        meta_opt(r) == value_spelled(text@, format),
{
    let document = fig::Document::parse(text.as_bytes(), to_format(format)).ok()?;
    document.to_value().ok().map(from_value)
}

/// A value as [`fig::Value::serialize_with`] writes it in lines of a width.
pub uninterp spec fn value_lines(value: MetaView, format: MetaFormat, width: u16) -> Option<
    Seq<char>,
>;

/// Calls [`fig::Value::serialize_with`] with a width: the text of `value`, or nothing
/// where the format cannot write it.
#[verifier::external_body]
fn serialize_lines(value: &Meta, format: MetaFormat, width: u16) -> (r: Option<String>)
    ensures
        opt_text(r) == value_lines(value@, format, width),
{
    let options = fig::SerializeOptions::default().width(width);
    to_value(value).serialize_with(to_format(format), options).ok()
}

/// The text of a value, one list item a line.
pub open spec fn value_text(value: MetaView, format: MetaFormat) -> Option<Seq<char>> {
    value_lines(value, format, 1)
}

/// The text of a value, one list item a line; nothing where the format cannot write it.
pub fn serialize(value: &Meta, format: MetaFormat) -> (r: Option<String>)
    ensures
        opt_text(r) == value_text(value@, format),
{
    serialize_lines(value, format, 1)
}

/// A document with a block of this kind, as [`fig::Embed::open_or_init`] makes
/// one where there is none.
pub uninterp spec fn embed_init_text(text: Seq<char>, kind: Fence) -> Option<Seq<char>>;

/// Calls [`fig::Embed::open_or_init`]: `text` with a block of this kind in it.
/// What the text then reads as is no part of the claim.
#[verifier::external_body]
pub(crate) fn embed_init(text: &str, kind: Fence) -> (r: Option<String>)
    ensures
        opt_text(r) == embed_init_text(text@, kind),
{
    let mut embed = fig::Embed::open_or_init(text.as_bytes(), to_kind(kind)).ok()?;
    embed.render().ok().map(str::to_string)
}

/// A document with a value of its block set, as [`fig::Embed::set_value`] does.
pub uninterp spec fn embed_set_text(
    text: Seq<char>,
    kind: Fence,
    path: Seq<StepView>,
    value: MetaView,
) -> Option<Seq<char>>;

/// Calls [`fig::Embed::set_value`]: `text` with the value at `path` replaced, or
/// added where only the last key is missing. Text outside the block stays.
/// What the text then reads as is no part of the claim: an alias of what was edited
/// reads the edit too, and a key may stand in the text twice.
#[verifier::external_body]
pub(crate) fn embed_set(text: &str, kind: Fence, path: &[Step], value: &Meta) -> (r: Option<String>)
    ensures
        opt_text(r) == embed_set_text(text@, kind, way(path@), value@),
        r matches Some(out) ==> keeps_host(text@, kind, out@),
{
    let mut embed = fig::Embed::open(text.as_bytes(), to_kind(kind)).ok()?;
    embed.set_value(&to_path(path), to_value(value)).ok()?;
    embed.render().ok().map(str::to_string)
}

/// A document with a value of its block replaced, as
/// [`fig::Embed::replace_value`] does.
pub uninterp spec fn embed_replace_text(
    text: Seq<char>,
    kind: Fence,
    path: Seq<StepView>,
    value: MetaView,
) -> Option<Seq<char>>;

/// Calls [`fig::Embed::replace_value`]: `text` with the value at `path`
/// replaced. Text outside the block stays.
/// What the text then reads as is no part of the claim: an alias of what was edited
/// reads the edit too, and a key may stand in the text twice.
#[verifier::external_body]
pub(crate) fn embed_replace(text: &str, kind: Fence, path: &[Step], value: &Meta) -> (r: Option<
    String,
>)
    ensures
        opt_text(r) == embed_replace_text(text@, kind, way(path@), value@),
        r matches Some(out) ==> keeps_host(text@, kind, out@),
{
    let mut embed = fig::Embed::open(text.as_bytes(), to_kind(kind)).ok()?;
    embed.replace_value(&to_path(path), to_value(value)).ok()?;
    embed.render().ok().map(str::to_string)
}

/// A document with an item added to a list of its block, as
/// [`fig::Embed::append_value`] does.
pub uninterp spec fn embed_append_text(
    text: Seq<char>,
    kind: Fence,
    path: Seq<StepView>,
    value: MetaView,
) -> Option<Seq<char>>;

/// Calls [`fig::Embed::append_value`]: `text` with an item added at the end of
/// the list at `path`. Text outside the block stays.
/// What the text then reads as is no part of the claim: an alias of what was edited
/// reads the edit too, and a key may stand in the text twice.
#[verifier::external_body]
pub(crate) fn embed_append(text: &str, kind: Fence, path: &[Step], value: &Meta) -> (r: Option<
    String,
>)
    ensures
        opt_text(r) == embed_append_text(text@, kind, way(path@), value@),
        r matches Some(out) ==> keeps_host(text@, kind, out@),
{
    let mut embed = fig::Embed::open(text.as_bytes(), to_kind(kind)).ok()?;
    embed.append_value(&to_path(path), to_value(value)).ok()?;
    embed.render().ok().map(str::to_string)
}

/// A document with an entry of its block deleted, as [`fig::Embed::delete_key`]
/// does.
pub uninterp spec fn embed_delete_text(text: Seq<char>, kind: Fence, path: Seq<StepView>) -> Option<
    Seq<char>,
>;

/// Calls [`fig::Embed::delete_key`]: `text` without the entry at `path`. Text
/// outside the block stays.
/// What the text then reads as is no part of the claim: an alias of what was edited
/// reads the edit too, and a key may stand in the text twice.
#[verifier::external_body]
pub(crate) fn embed_delete(text: &str, kind: Fence, path: &[Step]) -> (r: Option<String>)
    ensures
        opt_text(r) == embed_delete_text(text@, kind, way(path@)),
        r matches Some(out) ==> keeps_host(text@, kind, out@),
{
    let mut embed = fig::Embed::open(text.as_bytes(), to_kind(kind)).ok()?;
    embed.delete_key(&to_path(path)).ok()?;
    embed.render().ok().map(str::to_string)
}

/// A document with an item of a list of its block removed, as
/// [`fig::Embed::delete_item`] does.
pub uninterp spec fn embed_remove_text(
    text: Seq<char>,
    kind: Fence,
    path: Seq<StepView>,
    index: int,
) -> Option<Seq<char>>;

/// Calls [`fig::Embed::delete_item`]: `text` without the item at `index` of the
/// list at `path`. Text outside the block stays.
/// What the text then reads as is no part of the claim: an alias of what was edited
/// reads the edit too, and a key may stand in the text twice.
#[verifier::external_body]
pub(crate) fn embed_remove(text: &str, kind: Fence, path: &[Step], index: usize) -> (r: Option<
    String,
>)
    ensures
        opt_text(r) == embed_remove_text(text@, kind, way(path@), index as int),
        r matches Some(out) ==> keeps_host(text@, kind, out@),
{
    let mut embed = fig::Embed::open(text.as_bytes(), to_kind(kind)).ok()?;
    embed.delete_item(&to_path(path), index).ok()?;
    embed.render().ok().map(str::to_string)
}

/// A document with a list of its block reordered, as
/// [`fig::Embed::reorder_items`] does.
pub uninterp spec fn embed_reorder_text(
    text: Seq<char>,
    kind: Fence,
    path: Seq<StepView>,
    indices: Seq<usize>,
) -> Option<Seq<char>>;

/// Calls [`fig::Embed::reorder_items`]: `text` with the items of the list at
/// `path` in the order of `indices`. Text outside the block stays.
/// What the text then reads as is no part of the claim: an alias of what was edited
/// reads the edit too, and a key may stand in the text twice.
#[verifier::external_body]
pub(crate) fn embed_reorder(text: &str, kind: Fence, path: &[Step], indices: &[usize]) -> (r:
    Option<String>)
    ensures
        opt_text(r) == embed_reorder_text(text@, kind, way(path@), indices@),
        r matches Some(out) ==> keeps_host(text@, kind, out@),
{
    let mut embed = fig::Embed::open(text.as_bytes(), to_kind(kind)).ok()?;
    embed.reorder_items(&to_path(path), indices).ok()?;
    embed.render().ok().map(str::to_string)
}

/// A document with its block rehoused, as [`fig::Embed::retype`] does.
pub uninterp spec fn embed_retype_text(
    text: Seq<char>,
    from: Fence,
    to: Fence,
    content: Seq<char>,
) -> Option<Seq<char>>;

/// Calls [`fig::Embed::retype`]: `text` with its `from` block replaced by a `to`
/// block that holds `content`.
/// What the text then reads as is no part of the claim.
#[verifier::external_body]
pub(crate) fn embed_retype(text: &str, from: Fence, to: Fence, content: &str) -> (r: Option<String>)
    ensures
        opt_text(r) == embed_retype_text(text@, from, to, content@),
{
    fig::Embed::retype(text, to_kind(from), to_kind(to), content).ok()
}

/// A metadata file with a value set, as [`fig::Editor::set_value`] does.
pub uninterp spec fn file_set_text(
    text: Seq<char>,
    format: MetaFormat,
    path: Seq<StepView>,
    value: MetaView,
) -> Option<Seq<char>>;

/// Calls [`fig::Editor::set_value`]: `text` with the value at `path` replaced or
/// added.
/// What the text then reads as is no part of the claim: an alias of what was edited
/// reads the edit too, and a key may stand in the text twice.
#[verifier::external_body]
pub(crate) fn file_set(text: &str, format: MetaFormat, path: &[Step], value: &Meta) -> (r: Option<
    String,
>)
    ensures
        opt_text(r) == file_set_text(text@, format, way(path@), value@),
{
    let mut editor = fig::Editor::open(text.as_bytes(), to_format(format)).ok()?;
    editor.set_value(&to_path(path), to_value(value)).ok()?;
    editor.source().ok().map(str::to_string)
}

/// A metadata file with a value replaced, as [`fig::Editor::replace_value`]
/// does.
pub uninterp spec fn file_replace_text(
    text: Seq<char>,
    format: MetaFormat,
    path: Seq<StepView>,
    value: MetaView,
) -> Option<Seq<char>>;

/// Calls [`fig::Editor::replace_value`]: `text` with the value at `path`
/// replaced.
/// What the text then reads as is no part of the claim: an alias of what was edited
/// reads the edit too, and a key may stand in the text twice.
#[verifier::external_body]
pub(crate) fn file_replace(text: &str, format: MetaFormat, path: &[Step], value: &Meta) -> (r:
    Option<String>)
    ensures
        opt_text(r) == file_replace_text(text@, format, way(path@), value@),
{
    let mut editor = fig::Editor::open(text.as_bytes(), to_format(format)).ok()?;
    editor.replace_value(&to_path(path), to_value(value)).ok()?;
    editor.source().ok().map(str::to_string)
}

/// A metadata file with an item added to a list, as
/// [`fig::Editor::append_value`] does.
pub uninterp spec fn file_append_text(
    text: Seq<char>,
    format: MetaFormat,
    path: Seq<StepView>,
    value: MetaView,
) -> Option<Seq<char>>;

/// Calls [`fig::Editor::append_value`]: `text` with an item added at the end of
/// the list at `path`.
/// What the text then reads as is no part of the claim: an alias of what was edited
/// reads the edit too, and a key may stand in the text twice.
#[verifier::external_body]
pub(crate) fn file_append(text: &str, format: MetaFormat, path: &[Step], value: &Meta) -> (r:
    Option<String>)
    ensures
        opt_text(r) == file_append_text(text@, format, way(path@), value@),
{
    let mut editor = fig::Editor::open(text.as_bytes(), to_format(format)).ok()?;
    editor.append_value(&to_path(path), to_value(value)).ok()?;
    editor.source().ok().map(str::to_string)
}

/// A metadata file with an entry deleted, as [`fig::Editor::delete_key`] does.
pub uninterp spec fn file_delete_text(
    text: Seq<char>,
    format: MetaFormat,
    path: Seq<StepView>,
) -> Option<Seq<char>>;

/// Calls [`fig::Editor::delete_key`]: `text` without the entry at `path`.
/// What the text then reads as is no part of the claim: an alias of what was edited
/// reads the edit too, and a key may stand in the text twice.
#[verifier::external_body]
pub(crate) fn file_delete(text: &str, format: MetaFormat, path: &[Step]) -> (r: Option<String>)
    ensures
        opt_text(r) == file_delete_text(text@, format, way(path@)),
{
    let mut editor = fig::Editor::open(text.as_bytes(), to_format(format)).ok()?;
    editor.delete_key(&to_path(path)).ok()?;
    editor.source().ok().map(str::to_string)
}

/// A metadata file with an item of a list removed, as
/// [`fig::Editor::delete_item`] does.
pub uninterp spec fn file_remove_text(
    text: Seq<char>,
    format: MetaFormat,
    path: Seq<StepView>,
    index: int,
) -> Option<Seq<char>>;

/// Calls [`fig::Editor::delete_item`]: `text` without the item at `index` of the
/// list at `path`.
/// What the text then reads as is no part of the claim: an alias of what was edited
/// reads the edit too, and a key may stand in the text twice.
#[verifier::external_body]
pub(crate) fn file_remove(text: &str, format: MetaFormat, path: &[Step], index: usize) -> (r:
    Option<String>)
    ensures
        opt_text(r) == file_remove_text(text@, format, way(path@), index as int),
{
    let mut editor = fig::Editor::open(text.as_bytes(), to_format(format)).ok()?;
    editor.delete_item(&to_path(path), index).ok()?;
    editor.source().ok().map(str::to_string)
}

/// A metadata file with a list reordered, as [`fig::Editor::reorder_items`]
/// does.
pub uninterp spec fn file_reorder_text(
    text: Seq<char>,
    format: MetaFormat,
    path: Seq<StepView>,
    indices: Seq<usize>,
) -> Option<Seq<char>>;

/// Calls [`fig::Editor::reorder_items`]: `text` with the items of the list at
/// `path` in the order of `indices`.
/// What the text then reads as is no part of the claim: an alias of what was edited
/// reads the edit too, and a key may stand in the text twice.
#[verifier::external_body]
pub(crate) fn file_reorder(text: &str, format: MetaFormat, path: &[Step], indices: &[usize]) -> (r:
    Option<String>)
    ensures
        opt_text(r) == file_reorder_text(text@, format, way(path@), indices@),
{
    let mut editor = fig::Editor::open(text.as_bytes(), to_format(format)).ok()?;
    editor.reorder_items(&to_path(path), indices).ok()?;
    editor.source().ok().map(str::to_string)
}

} // verus!
