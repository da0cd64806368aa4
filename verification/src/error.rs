//! What an operation refuses, and why.

use crate::document::{ContentFormat, EmbedStyle};
use crate::codec::MetaFormat;
use vstd::prelude::*;

verus! {

/// A reason an operation is refused, over whatever stands for text: strings in
/// an [`Error`], their characters in a contract.
#[derive(Debug, PartialEq, Eq)]
pub enum Fault<T> {
    /// The metadata of this document could not be read or edited.
    Metadata(T),
    /// This field could not be edited.
    Field(T),
    /// This file is not text.
    NotText(T),
    /// The prose of this document could not be read or written in a grammar.
    Content(T),
    /// There is nothing at this path.
    NotFound(T),
    /// There is something at this path already.
    AlreadyExists(T),
    /// There is something at the path that a document would come back to.
    RestoreOver(T),
    /// No name beside this path is free.
    NoFreeName(T),
    /// This path leaves the workspace.
    Escape(T),
    /// This file is not as it was when the operation read it.
    Drifted(T),
    /// This record store is not a metadata file.
    MarkdownStore(T),
    /// This path carries this id already.
    PathTaken(T, T),
    /// This id is registered to this path already.
    IdTaken(T, T),
    /// No further id can be issued.
    IdsExhausted,
    /// The policy of the workspace registers nothing on this occasion.
    DoesNotRegister(T),
    /// No relation is the spanning one.
    NoSpanning,
    /// The spanning relation has no inverse.
    NoInverse(T),
    /// The document cannot contain itself.
    SelfContained(T),
    /// The document declares this relation to a different parent.
    ContestedParent(T, T),
    /// The document contains its new parent.
    WouldDetach(T, T),
    /// The path is no child of this parent.
    NotAChild(T, T),
    /// The path stands twice in the order for this parent.
    NamedTwice(T, T),
    /// The document has no metadata block with children to put in order.
    NoBlock(T),
    /// The document has no metadata block that could hold a title.
    NoTitleBlock(T),
    /// The document contains this many documents, which are these.
    HasChildren(T, usize, T),
    /// The file is the body of this node, and would be destroyed.
    BodyOf(T, T),
    /// The file is the body of this node, and would go to the recycle bin.
    BinnedBody(T, T),
    /// No relation points at the recycle bin.
    NoRecycleRelation,
    /// The workspace has no recycle bin.
    NoBin,
    /// The document is not in the recycle bin.
    NotInBin(T),
    /// The record of the document does not say where its bytes are.
    NoBinPath(T),
    /// The content file of this node would move to this path, which is taken.
    BodyTaken(T, T),
    /// The document has no block to take its metadata from.
    NotCombined(T),
    /// The document keeps its body in another file already.
    AlreadySeparated(T),
    /// The document has no metadata.
    NoMetadata(T),
    /// The document has no metadata to take out of it.
    NothingToSeparate(T),
    /// The document has the extension of a metadata file already.
    MetadataExtension(T),
    /// The path has no file name.
    NoFileName(T),
    /// The path has no file name that a copy could take.
    NoNameToCopy(T),
    /// The document keeps its body in its own file.
    NotSeparated(T),
    /// The document is not a metadata file.
    NotWholeFile(T),
    /// The content file of this node is missing.
    ContentMissing(T, T),
    /// The document stands for a directory, which has no copy.
    ManifestCopy(T),
    /// The document stands for a directory, whose checksum is not its own.
    ManifestStamp(T),
    /// The workspace root cannot be moved.
    RootMove,
    /// The path is a document, not a directory.
    NotADirectory(T),
    /// The directory cannot move into itself.
    IntoItself(T, T),
    /// The document has an opaque payload, not prose.
    OpaqueContent(T),
    /// The document has no prose.
    NoProse(T),
    /// The prose does not survive this conversion.
    Lossy(T, ContentFormat, ContentFormat),
    /// The document and another one would both become this path.
    SameDestination(T, T),
    /// The document is a metadata file, which cannot be rehoused in place.
    WholeFileConvert(T),
    /// A separate metadata file is no block.
    SeparateConvert(T),
    /// Blocks of this family cannot hold this language.
    NoArchetype(T, EmbedStyle, MetaFormat),
    /// A confirmation names nobody.
    EmptyActor,
    /// The bytes of the document are not those its checksum was taken of.
    ContentDrifted(T),
    /// The confirmations of the document are not a list.
    NotAList(T),
    /// The text at a span is not what it was.
    SpanChanged(T),
}

/// A reason an operation is refused.
pub type Error = Fault<String>;

/// What an error says.
pub open spec fn fault(e: Error) -> Fault<Seq<char>> {
    match e {
        Fault::Metadata(a) => Fault::Metadata(a@),
        Fault::Field(a) => Fault::Field(a@),
        Fault::NotText(a) => Fault::NotText(a@),
        Fault::Content(a) => Fault::Content(a@),
        Fault::NotFound(a) => Fault::NotFound(a@),
        Fault::AlreadyExists(a) => Fault::AlreadyExists(a@),
        Fault::RestoreOver(a) => Fault::RestoreOver(a@),
        Fault::NoFreeName(a) => Fault::NoFreeName(a@),
        Fault::Escape(a) => Fault::Escape(a@),
        Fault::Drifted(a) => Fault::Drifted(a@),
        Fault::MarkdownStore(a) => Fault::MarkdownStore(a@),
        Fault::PathTaken(a, b) => Fault::PathTaken(a@, b@),
        Fault::IdTaken(a, b) => Fault::IdTaken(a@, b@),
        Fault::IdsExhausted => Fault::IdsExhausted,
        Fault::DoesNotRegister(a) => Fault::DoesNotRegister(a@),
        Fault::NoSpanning => Fault::NoSpanning,
        Fault::NoInverse(a) => Fault::NoInverse(a@),
        Fault::SelfContained(a) => Fault::SelfContained(a@),
        Fault::ContestedParent(a, b) => Fault::ContestedParent(a@, b@),
        Fault::WouldDetach(a, b) => Fault::WouldDetach(a@, b@),
        Fault::NotAChild(a, b) => Fault::NotAChild(a@, b@),
        Fault::NamedTwice(a, b) => Fault::NamedTwice(a@, b@),
        Fault::NoBlock(a) => Fault::NoBlock(a@),
        Fault::NoTitleBlock(a) => Fault::NoTitleBlock(a@),
        Fault::HasChildren(a, n, b) => Fault::HasChildren(a@, n, b@),
        Fault::BodyOf(a, b) => Fault::BodyOf(a@, b@),
        Fault::BinnedBody(a, b) => Fault::BinnedBody(a@, b@),
        Fault::NoRecycleRelation => Fault::NoRecycleRelation,
        Fault::NoBin => Fault::NoBin,
        Fault::NotInBin(a) => Fault::NotInBin(a@),
        Fault::NoBinPath(a) => Fault::NoBinPath(a@),
        Fault::BodyTaken(a, b) => Fault::BodyTaken(a@, b@),
        Fault::NotCombined(a) => Fault::NotCombined(a@),
        Fault::AlreadySeparated(a) => Fault::AlreadySeparated(a@),
        Fault::NoMetadata(a) => Fault::NoMetadata(a@),
        Fault::NothingToSeparate(a) => Fault::NothingToSeparate(a@),
        Fault::MetadataExtension(a) => Fault::MetadataExtension(a@),
        Fault::NoFileName(a) => Fault::NoFileName(a@),
        Fault::NoNameToCopy(a) => Fault::NoNameToCopy(a@),
        Fault::NotSeparated(a) => Fault::NotSeparated(a@),
        Fault::NotWholeFile(a) => Fault::NotWholeFile(a@),
        Fault::ContentMissing(a, b) => Fault::ContentMissing(a@, b@),
        Fault::ManifestCopy(a) => Fault::ManifestCopy(a@),
        Fault::ManifestStamp(a) => Fault::ManifestStamp(a@),
        Fault::RootMove => Fault::RootMove,
        Fault::NotADirectory(a) => Fault::NotADirectory(a@),
        Fault::IntoItself(a, b) => Fault::IntoItself(a@, b@),
        Fault::OpaqueContent(a) => Fault::OpaqueContent(a@),
        Fault::NoProse(a) => Fault::NoProse(a@),
        Fault::Lossy(a, f, t) => Fault::Lossy(a@, f, t),
        Fault::SameDestination(a, b) => Fault::SameDestination(a@, b@),
        Fault::WholeFileConvert(a) => Fault::WholeFileConvert(a@),
        Fault::SeparateConvert(a) => Fault::SeparateConvert(a@),
        Fault::NoArchetype(a, s, f) => Fault::NoArchetype(a@, s, f),
        Fault::EmptyActor => Fault::EmptyActor,
        Fault::ContentDrifted(a) => Fault::ContentDrifted(a@),
        Fault::NotAList(a) => Fault::NotAList(a@),
        Fault::SpanChanged(a) => Fault::SpanChanged(a@),
    }
}

/// The name of a grammar.
pub open spec fn grammar_name(x: ContentFormat) -> Seq<char> {
    match x {
        ContentFormat::Markdown => "markdown"@,
        ContentFormat::Djot => "djot"@,
        ContentFormat::Html => "html"@,
    }
}

/// The name of a grammar.
pub fn name_grammar(x: ContentFormat) -> (r: &'static str)
    ensures
        r@ == grammar_name(x),
{
    match x {
        ContentFormat::Markdown => "markdown",
        ContentFormat::Djot => "djot",
        ContentFormat::Html => "html",
    }
}

/// The name of a family of blocks.
pub open spec fn style_name(x: EmbedStyle) -> Seq<char> {
    match x {
        EmbedStyle::Delimited => "delimited"@,
        EmbedStyle::CodeBlock => "code_block"@,
        EmbedStyle::HtmlScript => "html_script"@,
        EmbedStyle::HtmlCode => "html_code"@,
        EmbedStyle::Separate => "separate"@,
    }
}

/// The name of a family of blocks.
pub fn name_style(x: EmbedStyle) -> (r: &'static str)
    ensures
        r@ == style_name(x),
{
    match x {
        EmbedStyle::Delimited => "delimited",
        EmbedStyle::CodeBlock => "code_block",
        EmbedStyle::HtmlScript => "html_script",
        EmbedStyle::HtmlCode => "html_code",
        EmbedStyle::Separate => "separate",
    }
}

/// The name of a metadata language.
pub open spec fn language_name(x: MetaFormat) -> Seq<char> {
    match x {
        MetaFormat::Yaml => "yaml"@,
        MetaFormat::Json => "json"@,
        MetaFormat::Toml => "toml"@,
        MetaFormat::Fig => "fig"@,
    }
}

/// The name of a metadata language.
pub fn name_language(x: MetaFormat) -> (r: &'static str)
    ensures
        r@ == language_name(x),
{
    match x {
        MetaFormat::Yaml => "yaml",
        MetaFormat::Json => "json",
        MetaFormat::Toml => "toml",
        MetaFormat::Fig => "fig",
    }
}

/// What a refusal says in words.
pub open spec fn message_of(f: Fault<Seq<char>>) -> Seq<char> {
    match f {
        Fault::Metadata(a) => "metadata error: "@ + a,
        Fault::Field(a) => "metadata error: "@ + a,
        Fault::NotText(a) => "io error: "@ + a + " is not text"@,
        Fault::Content(a) => "content error: "@ + a,
        Fault::NotFound(a) => a + " does not exist"@,
        Fault::AlreadyExists(a) => a + " already exists"@,
        Fault::RestoreOver(a) => a + " already exists; cannot restore over it"@,
        Fault::NoFreeName(a) => "no name beside "@ + a + " is free"@,
        Fault::Escape(a) => "path escapes the workspace root: "@ + a,
        Fault::Drifted(a) => a + " changed under this operation — something else wrote to the workspace after it was read; nothing was written, so re-run the operation to recompute over the current state"@,
        Fault::MarkdownStore(a) => "record store must be a whole-file config document (.yaml/.json/.figl), not markdown frontmatter: "@ + a,
        Fault::PathTaken(a, b) => a + " already carries "@ + b + "; refusing to displace it"@,
        Fault::IdTaken(a, b) => a + " is already registered to "@ + b + "; refusing to displace it"@,
        Fault::IdsExhausted => "no further id can be issued"@,
        Fault::DoesNotRegister(a) => "the policy of the workspace does not register "@ + a + " on this occasion"@,
        Fault::NoSpanning => "no spanning relation configured"@,
        Fault::NoInverse(a) => "spanning relation `"@ + a + "` has no inverse"@,
        Fault::SelfContained(a) => a + " cannot contain itself"@,
        Fault::ContestedParent(a, b) => a + " already declares "@ + b + " to a different parent — resolve the contested containment by hand"@,
        Fault::WouldDetach(a, b) => "cannot reparent "@ + a + " into "@ + b + " — "@ + b + " is contained by it, so the move would detach both from the tree"@,
        Fault::NotAChild(a, b) => a + " is not a child of "@ + b + " — reorder changes where a child sits, not whether it is there"@,
        Fault::NamedTwice(a, b) => a + " is named twice in the order for "@ + b,
        Fault::NoBlock(a) => a + " has no metadata block to reorder"@,
        Fault::NoTitleBlock(a) => a + " has no metadata block to hold a title"@,
        Fault::HasChildren(a, n, b) => a + " contains "@ + crate::text::decimal(n as nat) + " document(s) ("@ + b + "); delete them first or force"@,
        Fault::BodyOf(a, b) => a + " is the body of "@ + b + "; delete that instead, or force to destroy the body and leave "@ + b + " pointing at nothing"@,
        Fault::BinnedBody(a, b) => a + " is the body of "@ + b + "; recycle that instead, or force to bin the body and leave "@ + b + " pointing at nothing"@,
        Fault::NoRecycleRelation => "no recycle relation configured"@,
        Fault::NoBin => "workspace has no recycle bin"@,
        Fault::NotInBin(a) => a + " is not in the recycle bin"@,
        Fault::NoBinPath(_) => "recycle record has no `bin` path"@,
        Fault::BodyTaken(a, b) => a + "'s content file would move to "@ + b + ", which already exists"@,
        Fault::NotCombined(a) => a + " is not a combined document (nothing to separate)"@,
        Fault::AlreadySeparated(a) => a + " is already separated"@,
        Fault::NoMetadata(a) => a + " has no metadata"@,
        Fault::NothingToSeparate(a) => a + " has no metadata to separate"@,
        Fault::MetadataExtension(a) => a + " already has a metadata-file extension"@,
        Fault::NoFileName(a) => a + " has no filename"@,
        Fault::NoNameToCopy(a) => a + " has no filename to copy"@,
        Fault::NotSeparated(a) => a + " is not a separated document (no `content` attribute)"@,
        Fault::NotWholeFile(a) => a + " is not a whole-file metadata document"@,
        Fault::ContentMissing(a, b) => a + "'s content file "@ + b + " is missing"@,
        Fault::ManifestCopy(a) => a + " covers a directory with a manifest, which has no copy — `attach --manifest` covers a different directory"@,
        Fault::ManifestStamp(a) => a + " is a manifest node — its checksum covers the manifest document it declares, which `prov manifest "@ + a + " --update` rebuilds (a directory-wide rehash); `stamp` does not cover it"@,
        Fault::RootMove => "the workspace root is not a directory a move can take"@,
        Fault::NotADirectory(a) => a + " is a document, not a directory — `rename` moves one"@,
        Fault::IntoItself(a, b) => a + " cannot move to "@ + b + ": the destination is inside it"@,
        Fault::OpaqueContent(a) => a + ": nothing to convert — its content is an opaque payload, not prose"@,
        Fault::NoProse(a) => a + ": nothing to convert — it has no body prose to convert"@,
        Fault::Lossy(a, f, g) => a + ": converting "@ + grammar_name(f) + " to "@ + grammar_name(g) + " is lossy — the authored markup does not survive the round trip; pass --force to do it anyway"@,
        Fault::SameDestination(a, b) => a + " and another document in this conversion both become "@ + b + " — rename one first"@,
        Fault::WholeFileConvert(a) => a + ": whole-file (separate) metadata — its format is its file extension and its shape is its own file; converting it is a move, not supported by `convert`"@,
        Fault::SeparateConvert(a) => a + ": `separate` moves metadata into a sibling file and re-points its links — a move, not supported by `convert`"@,
        Fault::NoArchetype(a, s, m) => a + ": a "@ + style_name(s) + " block cannot carry "@ + language_name(m) + " — "@ + language_name(m) + " has no delimiter syntax; use a code_block or HTML embedding"@,
        Fault::EmptyActor => "a confirmation names who made it; an empty actor is refused"@,
        Fault::ContentDrifted(a) => a + ": its recorded content checksum no longer matches its bytes — `prov stamp "@ + a + "` first, then confirm what is there"@,
        Fault::NotAList(a) => a + ": `confirmed` is not a list, so nothing can be appended to it"@,
        Fault::SpanChanged(a) => "the document changed since it was checked — expected \""@ + a + "\" in the body, found something else; re-run `check` and repair from a fresh reading"@,
    }
}

impl Fault<String> {
    /// What this refusal says in words.
    pub fn message(&self) -> (r: String)
        ensures
            r@ == message_of(fault(*self)),
    {
        match self {
            Fault::Metadata(a) => "metadata error: ".to_owned().concat(a),
            Fault::Field(a) => "metadata error: ".to_owned().concat(a),
            Fault::NotText(a) => "io error: ".to_owned().concat(a).concat(" is not text"),
            Fault::Content(a) => "content error: ".to_owned().concat(a),
            Fault::NotFound(a) => a.clone().concat(" does not exist"),
            Fault::AlreadyExists(a) => a.clone().concat(" already exists"),
            Fault::RestoreOver(a) => a.clone().concat(" already exists; cannot restore over it"),
            Fault::NoFreeName(a) => "no name beside ".to_owned().concat(a).concat(" is free"),
            Fault::Escape(a) => "path escapes the workspace root: ".to_owned().concat(a),
            Fault::Drifted(a) => a.clone().concat(" changed under this operation — something else wrote to the workspace after it was read; nothing was written, so re-run the operation to recompute over the current state"),
            Fault::MarkdownStore(a) => "record store must be a whole-file config document (.yaml/.json/.figl), not markdown frontmatter: ".to_owned().concat(a),
            Fault::PathTaken(a, b) => a.clone().concat(" already carries ").concat(b).concat("; refusing to displace it"),
            Fault::IdTaken(a, b) => a.clone().concat(" is already registered to ").concat(b).concat("; refusing to displace it"),
            Fault::IdsExhausted => "no further id can be issued".to_owned(),
            Fault::DoesNotRegister(a) => "the policy of the workspace does not register ".to_owned().concat(a).concat(" on this occasion"),
            Fault::NoSpanning => "no spanning relation configured".to_owned(),
            Fault::NoInverse(a) => "spanning relation `".to_owned().concat(a).concat("` has no inverse"),
            Fault::SelfContained(a) => a.clone().concat(" cannot contain itself"),
            Fault::ContestedParent(a, b) => a.clone().concat(" already declares ").concat(b).concat(" to a different parent — resolve the contested containment by hand"),
            Fault::WouldDetach(a, b) => "cannot reparent ".to_owned().concat(a).concat(" into ").concat(b).concat(" — ").concat(b).concat(" is contained by it, so the move would detach both from the tree"),
            Fault::NotAChild(a, b) => a.clone().concat(" is not a child of ").concat(b).concat(" — reorder changes where a child sits, not whether it is there"),
            Fault::NamedTwice(a, b) => a.clone().concat(" is named twice in the order for ").concat(b),
            Fault::NoBlock(a) => a.clone().concat(" has no metadata block to reorder"),
            Fault::NoTitleBlock(a) => a.clone().concat(" has no metadata block to hold a title"),
            Fault::HasChildren(a, n, b) => a.clone().concat(" contains ").concat(&crate::text::number_text(*n as u64)).concat(" document(s) (").concat(b).concat("); delete them first or force"),
            Fault::BodyOf(a, b) => a.clone().concat(" is the body of ").concat(b).concat("; delete that instead, or force to destroy the body and leave ").concat(b).concat(" pointing at nothing"),
            Fault::BinnedBody(a, b) => a.clone().concat(" is the body of ").concat(b).concat("; recycle that instead, or force to bin the body and leave ").concat(b).concat(" pointing at nothing"),
            Fault::NoRecycleRelation => "no recycle relation configured".to_owned(),
            Fault::NoBin => "workspace has no recycle bin".to_owned(),
            Fault::NotInBin(a) => a.clone().concat(" is not in the recycle bin"),
            Fault::NoBinPath(_) => "recycle record has no `bin` path".to_owned(),
            Fault::BodyTaken(a, b) => a.clone().concat("'s content file would move to ").concat(b).concat(", which already exists"),
            Fault::NotCombined(a) => a.clone().concat(" is not a combined document (nothing to separate)"),
            Fault::AlreadySeparated(a) => a.clone().concat(" is already separated"),
            Fault::NoMetadata(a) => a.clone().concat(" has no metadata"),
            Fault::NothingToSeparate(a) => a.clone().concat(" has no metadata to separate"),
            Fault::MetadataExtension(a) => a.clone().concat(" already has a metadata-file extension"),
            Fault::NoFileName(a) => a.clone().concat(" has no filename"),
            Fault::NoNameToCopy(a) => a.clone().concat(" has no filename to copy"),
            Fault::NotSeparated(a) => a.clone().concat(" is not a separated document (no `content` attribute)"),
            Fault::NotWholeFile(a) => a.clone().concat(" is not a whole-file metadata document"),
            Fault::ContentMissing(a, b) => a.clone().concat("'s content file ").concat(b).concat(" is missing"),
            Fault::ManifestCopy(a) => a.clone().concat(" covers a directory with a manifest, which has no copy — `attach --manifest` covers a different directory"),
            Fault::ManifestStamp(a) => a.clone().concat(" is a manifest node — its checksum covers the manifest document it declares, which `prov manifest ").concat(a).concat(" --update` rebuilds (a directory-wide rehash); `stamp` does not cover it"),
            Fault::RootMove => "the workspace root is not a directory a move can take".to_owned(),
            Fault::NotADirectory(a) => a.clone().concat(" is a document, not a directory — `rename` moves one"),
            Fault::IntoItself(a, b) => a.clone().concat(" cannot move to ").concat(b).concat(": the destination is inside it"),
            Fault::OpaqueContent(a) => a.clone().concat(": nothing to convert — its content is an opaque payload, not prose"),
            Fault::NoProse(a) => a.clone().concat(": nothing to convert — it has no body prose to convert"),
            Fault::Lossy(a, f, g) => a.clone().concat(": converting ").concat(name_grammar(*f)).concat(" to ").concat(name_grammar(*g)).concat(" is lossy — the authored markup does not survive the round trip; pass --force to do it anyway"),
            Fault::SameDestination(a, b) => a.clone().concat(" and another document in this conversion both become ").concat(b).concat(" — rename one first"),
            Fault::WholeFileConvert(a) => a.clone().concat(": whole-file (separate) metadata — its format is its file extension and its shape is its own file; converting it is a move, not supported by `convert`"),
            Fault::SeparateConvert(a) => a.clone().concat(": `separate` moves metadata into a sibling file and re-points its links — a move, not supported by `convert`"),
            Fault::NoArchetype(a, s, m) => a.clone().concat(": a ").concat(name_style(*s)).concat(" block cannot carry ").concat(name_language(*m)).concat(" — ").concat(name_language(*m)).concat(" has no delimiter syntax; use a code_block or HTML embedding"),
            Fault::EmptyActor => "a confirmation names who made it; an empty actor is refused".to_owned(),
            Fault::ContentDrifted(a) => a.clone().concat(": its recorded content checksum no longer matches its bytes — `prov stamp ").concat(a).concat("` first, then confirm what is there"),
            Fault::NotAList(a) => a.clone().concat(": `confirmed` is not a list, so nothing can be appended to it"),
            Fault::SpanChanged(a) => "the document changed since it was checked — expected \"".to_owned().concat(a).concat("\" in the body, found something else; re-run `check` and repair from a fresh reading"),
        }
    }
}

} // verus!
