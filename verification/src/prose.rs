//! Body prose: the links in it, and respelling them in place.
//!
//! Which spans of a body are code, links and images is what the `twig` crate
//! reports, in bytes. Everything else here works on characters, and the links it
//! finds say which characters they cover; [`crate::text::byte_at`] gives the bytes.

use crate::document::ContentFormat;
use crate::link::{Link, LinkView};
use crate::text::{chars_of, find_text, text_of};
use vstd::prelude::*;

verus! {

/// The kinds of node that a body is searched for.
#[derive(Debug, Clone, Copy, PartialEq, Eq, Structural)]
pub enum NodeKind {
    /// Inline code.
    Verbatim,
    /// A code block.
    CodeBlock,
    /// Inline raw text.
    RawInline,
    /// A block of raw text.
    RawBlock,
    /// A link.
    Link,
    /// An image.
    Image,
    /// Anything else.
    Other,
}

/// A node of a parsed body, at a range of its bytes.
#[derive(Debug, Clone, Copy, PartialEq, Eq, Structural)]
pub struct ProseNode {
    /// What the node is.
    pub kind: NodeKind,
    /// The byte it starts at.
    pub start: usize,
    /// The byte after it.
    pub end: usize,
}

/// A node kind of the `twig` crate, carried between calls into it.
#[verifier::external_type_specification]
#[verifier::external_body]
pub struct ExTwigKind(twig::Kind);

/// A grammar of the `twig` crate, carried between calls into it.
#[verifier::external_type_specification]
#[verifier::external_body]
pub struct ExTwigFormat(twig::Format);

/// Hands a grammar to `twig`, as the [`twig::Format`] of the same name.
#[verifier::external_body]
fn to_format(format: ContentFormat) -> twig::Format {
    match format {
        ContentFormat::Markdown => twig::Format::Markdown,
        ContentFormat::Djot => twig::Format::Djot,
        ContentFormat::Html => twig::Format::Html,
    }
}

/// Takes a node kind from `twig`; the kinds that a body is not searched for
/// all become [`NodeKind::Other`].
#[verifier::external_body]
fn from_kind(kind: &twig::Kind) -> NodeKind {
    match kind {
        twig::Kind::Verbatim => NodeKind::Verbatim,
        twig::Kind::CodeBlock => NodeKind::CodeBlock,
        twig::Kind::RawInline => NodeKind::RawInline,
        twig::Kind::RawBlock => NodeKind::RawBlock,
        twig::Kind::Link => NodeKind::Link,
        twig::Kind::Image => NodeKind::Image,
        _ => NodeKind::Other,
    }
}

/// The nodes of a body, as [`twig::Document::nodes`] lists them.
pub uninterp spec fn body_nodes(body: Seq<char>, format: ContentFormat) -> Option<Seq<ProseNode>>;

/// What an optional list of nodes holds.
pub open spec fn nodes_opt(r: Option<Vec<ProseNode>>) -> Option<Seq<ProseNode>> {
    match r {
        Some(v) => Some(v@),
        None => None,
    }
}

/// Calls [`twig::Document::parse_str`] and [`twig::Document::nodes`]: every node
/// of `body` read as `format`, with the bytes it covers, in the order that
/// `twig` lists them; nothing where it cannot read the body.
/// How these nodes relate to those of another body, such as one in which a link is
/// spelled anew, is no part of the claim: a new spelling can open or close a node.
#[verifier::external_body]
fn nodes(body: &str, format: ContentFormat) -> (r: Option<Vec<ProseNode>>)
    ensures
        nodes_opt(r) == body_nodes(body@, format),
{
    let mut document = twig::Document::parse_str(body, to_format(format)).ok()?;
    let nodes = document.nodes().ok()?;
    Some(
        nodes.iter().map(
            |n| ProseNode { kind: from_kind(&n.kind), start: n.span.start, end: n.span.end },
        ).collect(),
    )
}

/// Prose written in another grammar, as [`twig::Document::serialize`] does.
pub uninterp spec fn transcoded(body: Seq<char>, from: ContentFormat, to: ContentFormat) -> Option<
    Seq<char>,
>;

/// Calls [`twig::Document::parse_str`] and [`twig::Document::serialize`]: `body`
/// read as `from` and written as `to`; nothing where `twig` fails at either.
#[verifier::external_body]
pub(crate) fn serialize_as(body: &str, from: ContentFormat, to: ContentFormat) -> (r: Option<
    String,
>)
    ensures
        crate::path::opt_text(r) == transcoded(body@, from, to),
{
    let mut document = twig::Document::parse_str(body, to_format(from)).ok()?;
    String::from_utf8(document.serialize(to_format(to)).ok()?).ok()
}

/// A link in a body: what it says and the characters it covers.
#[derive(Debug, PartialEq, Eq)]
pub struct BodyLink {
    /// What the link says.
    pub link: Link,
    /// The character it starts at.
    pub start: usize,
    /// The character after it.
    pub end: usize,
    /// Whether it is an image; its span then starts after the `!`.
    pub image: bool,
}

/// What a [`BodyLink`] holds.
pub struct BodyLinkView {
    pub link: LinkView,
    pub start: int,
    pub end: int,
    pub image: bool,
}

impl View for BodyLink {
    type V = BodyLinkView;

    open spec fn view(&self) -> BodyLinkView {
        BodyLinkView {
            link: self.link@,
            start: self.start as int,
            end: self.end as int,
            image: self.image,
        }
    }
}

/// What a list of body links holds.
pub open spec fn links_view(v: Seq<BodyLink>) -> Seq<BodyLinkView> {
    v.map_values(|l: BodyLink| l@)
}

/// How many bytes a character takes in UTF-8.
pub open spec fn width(c: char) -> int {
    if (c as u32) < 0x80 {
        1
    } else if (c as u32) < 0x800 {
        2
    } else if (c as u32) < 0x10000 {
        3
    } else {
        4
    }
}

/// The position of the character that starts `offset` bytes after the character
/// at `i`.
pub open spec fn char_index(s: Seq<char>, offset: int, i: int) -> Option<int>
    decreases s.len() - i,
{
    if offset == 0 {
        Some(i)
    } else if i < 0 || i >= s.len() || offset < width(s[i]) {
        None
    } else {
        char_index(s, offset - width(s[i]), i + 1)
    }
}

/// A range of characters.
pub struct Mark {
    pub start: int,
    pub end: int,
    pub image: bool,
}

/// The characters that a node covers.
pub open spec fn mark_of(body: Seq<char>, node: ProseNode) -> Option<Mark> {
    match (char_index(body, node.start as int, 0), char_index(body, node.end as int, 0)) {
        (Some(a), Some(b)) => if a <= b {
            Some(Mark { start: a, end: b, image: node.kind is Image })
        } else {
            None
        },
        _ => None,
    }
}

/// A node whose text is not prose.
pub open spec fn is_code(kind: NodeKind) -> bool {
    kind is Verbatim || kind is CodeBlock || kind is RawInline || kind is RawBlock
}

/// `marks` with one more, after every mark that starts no later.
pub open spec fn insert_mark(marks: Seq<Mark>, mark: Mark) -> Seq<Mark>
    decreases marks.len(),
{
    if marks.len() == 0 || marks.last().start <= mark.start {
        marks.push(mark)
    } else {
        insert_mark(marks.drop_last(), mark).push(marks.last())
    }
}

/// The nodes that are code, in order of where they start.
pub open spec fn code_marks(body: Seq<char>, nodes: Seq<ProseNode>) -> Seq<Mark>
    decreases nodes.len(),
{
    if nodes.len() == 0 {
        Seq::empty()
    } else {
        let rest = code_marks(body, nodes.drop_last());
        match mark_of(body, nodes.last()) {
            Some(mark) if is_code(nodes.last().kind) => insert_mark(rest, mark),
            _ => rest,
        }
    }
}

/// The nodes of one kind, in order of where they start.
pub open spec fn kind_marks(body: Seq<char>, nodes: Seq<ProseNode>, kind: NodeKind) -> Seq<Mark>
    decreases nodes.len(),
{
    if nodes.len() == 0 {
        Seq::empty()
    } else {
        let rest = kind_marks(body, nodes.drop_last(), kind);
        match mark_of(body, nodes.last()) {
            Some(mark) if nodes.last().kind == kind => insert_mark(rest, mark),
            _ => rest,
        }
    }
}

/// The wikilinks of `body` between `from` and `to`. The first `]]` after a `[[`
/// closes it; one with an empty target is no link.
pub open spec fn wikilinks(body: Seq<char>, from: int, to: int) -> Seq<BodyLinkView>
    decreases to - from,
{
    if from < 0 || to > body.len() || from > to {
        Seq::empty()
    } else {
        match crate::text::find_from(body.take(to), "[["@, from) {
            Some(open) => match crate::text::find_from(body.take(to), "]]"@, open + 2) {
                Some(close) => if from <= open && open + 2 <= close && close + 2 <= to {
                    let link = crate::link::wiki_of(body.subrange(open + 2, close));
                    let rest = wikilinks(body, close + 2, to);
                    if link.target.len() > 0 {
                        seq![
                            BodyLinkView { link, start: open, end: close + 2, image: false },
                        ] + rest
                    } else {
                        rest
                    }
                } else {
                    Seq::empty()
                },
                None => Seq::empty(),
            },
            None => Seq::empty(),
        }
    }
}

/// The wikilinks of `body` from `from` on, outside the code.
pub open spec fn prose_wikilinks(body: Seq<char>, code: Seq<Mark>, from: int) -> Seq<BodyLinkView>
    decreases code.len(),
{
    if code.len() == 0 {
        wikilinks(body, from, body.len() as int)
    } else {
        let next = if from < code[0].end {
            code[0].end
        } else {
            from
        };
        let here = if from < code[0].start {
            wikilinks(body, from, code[0].start)
        } else {
            Seq::empty()
        };
        here + prose_wikilinks(body, code.drop_first(), next)
    }
}

/// Whether two ranges share a character.
pub open spec fn overlap(a: BodyLinkView, start: int, end: int) -> bool {
    a.start < end && start < a.end
}

/// `links` with one more, after every link that starts no later.
pub open spec fn insert_link(links: Seq<BodyLinkView>, link: BodyLinkView) -> Seq<BodyLinkView>
    decreases links.len(),
{
    if links.len() == 0 || links.last().start <= link.start {
        links.push(link)
    } else {
        insert_link(links.drop_last(), link).push(links.last())
    }
}

/// The link that a mark covers: an inline `[label](target)`, for an image the
/// one after its `!`.
pub open spec fn marked_link(body: Seq<char>, mark: Mark) -> Option<BodyLinkView> {
    let start = if mark.image {
        mark.start + 1
    } else {
        mark.start
    };
    if mark.image && (mark.start >= mark.end || body[mark.start] != '!') {
        None
    } else {
        let link = crate::link::parse_link(body.subrange(start, mark.end));
        if link.label is Some && !link.wikilink {
            Some(BodyLinkView { link, start, end: mark.end, image: mark.image })
        } else {
            None
        }
    }
}

/// `links` with the links that `marks` cover, except where they overlap one that
/// is there already.
pub open spec fn with_marked(body: Seq<char>, links: Seq<BodyLinkView>, marks: Seq<Mark>) -> Seq<
    BodyLinkView,
>
    decreases marks.len(),
{
    if marks.len() == 0 {
        links
    } else {
        let before = with_marked(body, links, marks.drop_last());
        match marked_link(body, marks.last()) {
            Some(link) => if exists|i: int|
                0 <= i < before.len() && overlap(#[trigger] before[i], link.start, link.end) {
                before
            } else {
                insert_link(before, link)
            },
            None => before,
        }
    }
}

/// The links of a body read with these nodes, in order of where they start.
pub open spec fn links_among(body: Seq<char>, nodes: Seq<ProseNode>) -> Seq<BodyLinkView> {
    with_marked(
        body,
        prose_wikilinks(body, code_marks(body, nodes), 0),
        kind_marks(body, nodes, NodeKind::Link) + kind_marks(body, nodes, NodeKind::Image),
    )
}

/// The nodes of the body of the file at `path`; none where its grammar is not
/// known or `twig` cannot read it.
pub open spec fn nodes_of(path: Seq<char>, body: Seq<char>) -> Seq<ProseNode> {
    match crate::document::grammar(path) {
        Some(format) => match body_nodes(body, format) {
            Some(nodes) => nodes,
            None => Seq::empty(),
        },
        None => Seq::empty(),
    }
}

/// The links of the body of the file at `path`.
pub open spec fn body_links(path: Seq<char>, body: Seq<char>) -> Seq<BodyLinkView> {
    links_among(body, nodes_of(path, body))
}

/// Links that stand apart, in order, inside a body of `n` characters.
pub open spec fn is_spaced(links: Seq<BodyLinkView>, n: int) -> bool {
    &&& forall|i: int|
        0 <= i < links.len() ==> 0 <= (#[trigger] links[i]).start < links[i].end <= n
    &&& forall|i: int, j: int|
        0 <= i < j < links.len() ==> (#[trigger] links[i]).end <= (#[trigger] links[j]).start
}

/// Links that lie between `a` and `b`.
pub open spec fn lie_between(links: Seq<BodyLinkView>, a: int, b: int) -> bool {
    forall|i: int| 0 <= i < links.len() ==> a <= (#[trigger] links[i]).start && links[i].end <= b
}

pub proof fn lemma_find_from(s: Seq<char>, pat: Seq<char>, i: int)
    ensures
        crate::text::find_from(s, pat, i) matches Some(k) ==> i <= k && k + pat.len() <= s.len()
            && 0 <= k && crate::text::has_at(s, pat, k),
    decreases s.len() - i + 1,
{
    if i >= 0 && i + pat.len() <= s.len() && !crate::text::has_at(s, pat, i) {
        lemma_find_from(s, pat, i + 1);
    }
}

proof fn lemma_brackets()
    ensures
        "[["@.len() == 2,
        "]]"@.len() == 2,
        "[["@[0] == '[',
        "[["@[1] == '[',
        "]]"@[0] == ']',
        "]]"@[1] == ']',
{
    reveal_strlit("[[");
    reveal_strlit("]]");
}

proof fn lemma_wikilinks_spaced(body: Seq<char>, from: int, to: int)
    ensures
        is_spaced(wikilinks(body, from, to), body.len() as int),
        lie_between(wikilinks(body, from, to), from, to),
    decreases to - from,
{
    lemma_brackets();
    if from < 0 || to > body.len() || from > to {
    } else {
        let t = body.take(to);
        lemma_find_from(t, "[["@, from);
        match crate::text::find_from(t, "[["@, from) {
            Some(open) => {
                lemma_find_from(t, "]]"@, open + 2);
                match crate::text::find_from(t, "]]"@, open + 2) {
                    Some(close) => {
                        lemma_wikilinks_spaced(body, close + 2, to);
                    },
                    None => {},
                }
            },
            None => {},
        }
    }
}

proof fn lemma_spaced_add(a: Seq<BodyLinkView>, b: Seq<BodyLinkView>, n: int, cut: int)
    requires
        is_spaced(a, n),
        is_spaced(b, n),
        forall|i: int| 0 <= i < a.len() ==> (#[trigger] a[i]).end <= cut,
        forall|i: int| 0 <= i < b.len() ==> cut <= (#[trigger] b[i]).start,
    ensures
        is_spaced(a + b, n),
{
}

/// Marks that do not end before they start.
pub open spec fn are_ranges(marks: Seq<Mark>) -> bool {
    forall|i: int| 0 <= i < marks.len() ==> (#[trigger] marks[i]).start <= marks[i].end
}

proof fn lemma_insert_ranges(marks: Seq<Mark>, mark: Mark)
    requires
        are_ranges(marks),
        mark.start <= mark.end,
    ensures
        are_ranges(insert_mark(marks, mark)),
    decreases marks.len(),
{
    if marks.len() == 0 || marks.last().start <= mark.start {
    } else {
        lemma_insert_ranges(marks.drop_last(), mark);
    }
}

proof fn lemma_code_ranges(body: Seq<char>, nodes: Seq<ProseNode>)
    ensures
        are_ranges(code_marks(body, nodes)),
    decreases nodes.len(),
{
    if nodes.len() > 0 {
        lemma_code_ranges(body, nodes.drop_last());
        match mark_of(body, nodes.last()) {
            Some(mark) => {
                lemma_insert_ranges(code_marks(body, nodes.drop_last()), mark);
            },
            None => {},
        }
    }
}

proof fn lemma_prose_spaced(body: Seq<char>, code: Seq<Mark>, from: int)
    requires
        0 <= from,
        are_ranges(code),
    ensures
        is_spaced(prose_wikilinks(body, code, from), body.len() as int),
        lie_between(prose_wikilinks(body, code, from), from, body.len() as int),
    decreases code.len(),
{
    if code.len() == 0 {
        lemma_wikilinks_spaced(body, from, body.len() as int);
    } else {
        let next = if from < code[0].end {
            code[0].end
        } else {
            from
        };
        assert forall|i: int| 0 <= i < code.drop_first().len() implies (
        #[trigger] code.drop_first()[i]).start <= code.drop_first()[i].end by {
            assert(code[i + 1].start <= code[i + 1].end);
        }
        lemma_prose_spaced(body, code.drop_first(), next);
        let rest = prose_wikilinks(body, code.drop_first(), next);
        if from < code[0].start {
            let here = wikilinks(body, from, code[0].start);
            lemma_wikilinks_spaced(body, from, code[0].start);
            if code[0].start <= next {
                lemma_spaced_add(here, rest, body.len() as int, code[0].start);
            }
        } else {
            assert(Seq::<BodyLinkView>::empty() + rest =~= rest);
        }
    }
}


proof fn lemma_insert_spaced(links: Seq<BodyLinkView>, link: BodyLinkView, n: int)
    requires
        is_spaced(links, n),
        0 <= link.start < link.end <= n,
        forall|i: int| 0 <= i < links.len() ==> !overlap(#[trigger] links[i], link.start, link.end),
    ensures
        is_spaced(insert_link(links, link), n),
        forall|k: int|
            0 <= k < insert_link(links, link).len() ==> ({
                let x = #[trigger] insert_link(links, link)[k];
                x == link || links.contains(x)
            }),
    decreases links.len(),
{
    if links.len() == 0 || links.last().start <= link.start {
        let out = links.push(link);
        assert forall|i: int, j: int| 0 <= i < j < out.len() implies (#[trigger] out[i]).end <= (
        #[trigger] out[j]).start by {
            if j == links.len() {
                assert(!overlap(links[i], link.start, link.end));
                assert(links[i].start <= links.last().start);
            }
        }
        assert forall|k: int| 0 <= k < out.len() implies ({
            let x = #[trigger] out[k];
            x == link || links.contains(x)
        }) by {
            if k < links.len() {
                assert(links.contains(links[k]));
            }
        }
    } else {
        let rest = links.drop_last();
        assert forall|i: int| 0 <= i < rest.len() implies !overlap(
            #[trigger] rest[i],
            link.start,
            link.end,
        ) by {
            assert(!overlap(links[i], link.start, link.end));
        }
        lemma_insert_spaced(rest, link, n);
        let front = insert_link(rest, link);
        let out = front.push(links.last());
        assert(!overlap(links[links.len() - 1], link.start, link.end));
        assert forall|i: int, j: int| 0 <= i < j < out.len() implies (#[trigger] out[i]).end <= (
        #[trigger] out[j]).start by {
            if j == front.len() {
                let x = front[i];
                if x != link {
                    assert(rest.contains(x));
                    let k = choose|k: int| 0 <= k < rest.len() && rest[k] == x;
                    assert(links[k].end <= links[links.len() - 1].start);
                }
            }
        }
        assert forall|k: int| 0 <= k < out.len() implies ({
            let x = #[trigger] out[k];
            x == link || links.contains(x)
        }) by {
            if k < front.len() {
                let x = front[k];
                if x != link {
                    assert(rest.contains(x));
                    let m = choose|m: int| 0 <= m < rest.len() && rest[m] == x;
                    assert(links[m] == x);
                }
            } else {
                assert(links.contains(links[links.len() - 1]));
            }
        }
    }
}

/// Marks inside a body of `n` characters.
pub open spec fn lie_inside(marks: Seq<Mark>, n: int) -> bool {
    forall|i: int|
        0 <= i < marks.len() ==> 0 <= (#[trigger] marks[i]).start <= marks[i].end <= n
}

proof fn lemma_char_index(s: Seq<char>, offset: int, i: int)
    requires
        0 <= i <= s.len(),
    ensures
        char_index(s, offset, i) matches Some(k) ==> i <= k <= s.len(),
    decreases s.len() - i,
{
    if offset != 0 && i < s.len() && offset >= width(s[i]) {
        lemma_char_index(s, offset - width(s[i]), i + 1);
    }
}

proof fn lemma_mark_inside(body: Seq<char>, node: ProseNode)
    ensures
        mark_of(body, node) matches Some(m) ==> 0 <= m.start <= m.end <= body.len(),
{
    lemma_char_index(body, node.start as int, 0);
    lemma_char_index(body, node.end as int, 0);
}

proof fn lemma_insert_inside(marks: Seq<Mark>, mark: Mark, n: int)
    requires
        lie_inside(marks, n),
        0 <= mark.start <= mark.end <= n,
    ensures
        lie_inside(insert_mark(marks, mark), n),
    decreases marks.len(),
{
    if marks.len() == 0 || marks.last().start <= mark.start {
    } else {
        lemma_insert_inside(marks.drop_last(), mark, n);
    }
}

proof fn lemma_kind_inside(body: Seq<char>, nodes: Seq<ProseNode>, kind: NodeKind)
    ensures
        lie_inside(kind_marks(body, nodes, kind), body.len() as int),
    decreases nodes.len(),
{
    if nodes.len() > 0 {
        lemma_kind_inside(body, nodes.drop_last(), kind);
        lemma_mark_inside(body, nodes.last());
        match mark_of(body, nodes.last()) {
            Some(mark) => {
                lemma_insert_inside(
                    kind_marks(body, nodes.drop_last(), kind),
                    mark,
                    body.len() as int,
                );
            },
            None => {},
        }
    }
}

/// A link that a mark covers is not empty.
proof fn lemma_marked_link(body: Seq<char>, mark: Mark)
    requires
        0 <= mark.start <= mark.end <= body.len(),
    ensures
        marked_link(body, mark) matches Some(l) ==> 0 <= l.start < l.end <= body.len(),
{
    match marked_link(body, mark) {
        Some(l) => {
            if l.start >= l.end {
                let raw = body.subrange(l.start, mark.end);
                assert(raw.len() == 0);
                assert(crate::text::trimmed(raw) =~= raw);
            }
        },
        None => {},
    }
}

proof fn lemma_marked_spaced(body: Seq<char>, links: Seq<BodyLinkView>, marks: Seq<Mark>)
    requires
        is_spaced(links, body.len() as int),
        lie_inside(marks, body.len() as int),
    ensures
        is_spaced(with_marked(body, links, marks), body.len() as int),
    decreases marks.len(),
{
    if marks.len() > 0 {
        assert forall|i: int| 0 <= i < marks.drop_last().len() implies 0 <= (
        #[trigger] marks.drop_last()[i]).start <= marks.drop_last()[i].end <= body.len() by {
            assert(0 <= marks[i].start <= marks[i].end <= body.len());
        }
        lemma_marked_spaced(body, links, marks.drop_last());
        let before = with_marked(body, links, marks.drop_last());
        assert(0 <= marks[marks.len() - 1].start <= marks[marks.len() - 1].end <= body.len());
        lemma_marked_link(body, marks.last());
        match marked_link(body, marks.last()) {
            Some(link) => {
                if exists|i: int|
                    0 <= i < before.len() && overlap(#[trigger] before[i], link.start, link.end) {
                } else {
                    assert forall|i: int| 0 <= i < before.len() implies !overlap(
                        #[trigger] before[i],
                        link.start,
                        link.end,
                    ) by {}
                    lemma_insert_spaced(before, link, body.len() as int);
                }
            },
            None => {},
        }
    }
}

/// The links of a body stand apart, in order, inside it.
pub proof fn law_body_links_spaced(path: Seq<char>, body: Seq<char>)
    ensures
        is_spaced(body_links(path, body), body.len() as int),
{
    lemma_links_spaced(body, nodes_of(path, body));
}

/// The links of a body read with any nodes stand apart, in order, inside it.
pub proof fn lemma_links_spaced(body: Seq<char>, nodes: Seq<ProseNode>)
    ensures
        is_spaced(links_among(body, nodes), body.len() as int),
{
    lemma_code_ranges(body, nodes);
    lemma_prose_spaced(body, code_marks(body, nodes), 0);
    lemma_kind_inside(body, nodes, NodeKind::Link);
    lemma_kind_inside(body, nodes, NodeKind::Image);
    lemma_marked_spaced(
        body,
        prose_wikilinks(body, code_marks(body, nodes), 0),
        kind_marks(body, nodes, NodeKind::Link) + kind_marks(body, nodes, NodeKind::Image),
    );
}


/// A range of characters of a body.
#[derive(Debug, Clone, Copy, PartialEq, Eq, Structural)]
struct Span {
    start: usize,
    end: usize,
    image: bool,
}

impl Span {
    spec fn mark(self) -> Mark {
        Mark { start: self.start as int, end: self.end as int, image: self.image }
    }
}

spec fn marks_view(v: Seq<Span>) -> Seq<Mark> {
    v.map_values(|s: Span| s.mark())
}

proof fn lemma_insert_mark_at(marks: Seq<Mark>, mark: Mark, p: int)
    requires
        0 <= p <= marks.len(),
        p > 0 ==> marks[p - 1].start <= mark.start,
        forall|j: int| p <= j < marks.len() ==> (#[trigger] marks[j]).start > mark.start,
    ensures
        insert_mark(marks, mark) == marks.insert(p, mark),
    decreases marks.len(),
{
    if p == marks.len() {
        assert(marks.insert(p, mark) =~= marks.push(mark));
    } else {
        assert(marks[marks.len() - 1].start > mark.start);
        lemma_insert_mark_at(marks.drop_last(), mark, p);
        assert(marks.drop_last().insert(p, mark).push(marks.last()) =~= marks.insert(p, mark));
    }
}

fn insert_span(spans: &mut Vec<Span>, span: Span)
    ensures
        marks_view(final(spans)@) == insert_mark(marks_view(old(spans)@), span.mark()),
{
    let ghost before = marks_view(spans@);
    let mut p: usize = spans.len();
    while p > 0 && spans[p - 1].start > span.start
        invariant
            p <= spans@.len(),
            before == marks_view(spans@),
            forall|j: int| p <= j < before.len() ==> (#[trigger] before[j]).start > span.start,
        decreases p,
    {
        proof {
            assert(before[p - 1].start == spans@[p - 1].start);
        }
        p = p - 1;
    }
    proof {
        if p > 0 {
            assert(before[p - 1].start == spans@[p - 1].start);
        }
        lemma_insert_mark_at(before, span.mark(), p as int);
    }
    spans.insert(p, span);
    proof {
        assert(marks_view(spans@) =~= before.insert(p as int, span.mark()));
    }
}

proof fn lemma_insert_link_at(links: Seq<BodyLinkView>, link: BodyLinkView, p: int)
    requires
        0 <= p <= links.len(),
        p > 0 ==> links[p - 1].start <= link.start,
        forall|j: int| p <= j < links.len() ==> (#[trigger] links[j]).start > link.start,
    ensures
        insert_link(links, link) == links.insert(p, link),
    decreases links.len(),
{
    if p == links.len() {
        assert(links.insert(p, link) =~= links.push(link));
    } else {
        assert(links[links.len() - 1].start > link.start);
        lemma_insert_link_at(links.drop_last(), link, p);
        assert(links.drop_last().insert(p, link).push(links.last()) =~= links.insert(p, link));
    }
}

fn insert_body_link(links: &mut Vec<BodyLink>, link: BodyLink)
    ensures
        links_view(final(links)@) == insert_link(links_view(old(links)@), link@),
{
    let ghost before = links_view(links@);
    let mut p: usize = links.len();
    while p > 0 && links[p - 1].start > link.start
        invariant
            p <= links@.len(),
            before == links_view(links@),
            forall|j: int| p <= j < before.len() ==> (#[trigger] before[j]).start > link.start,
        decreases p,
    {
        proof {
            assert(before[p - 1].start == links@[p - 1].start);
        }
        p = p - 1;
    }
    proof {
        if p > 0 {
            assert(before[p - 1].start == links@[p - 1].start);
        }
        lemma_insert_link_at(before, link@, p as int);
    }
    links.insert(p, link);
    proof {
        assert(links_view(links@) =~= before.insert(p as int, link@));
    }
}

fn width_of(c: char) -> (r: usize)
    ensures
        r == width(c),
{
    let u: u32 = c as u32;
    if u < 0x80 {
        1
    } else if u < 0x800 {
        2
    } else if u < 0x10000 {
        3
    } else {
        4
    }
}

/// The position of the character that starts at this byte.
fn char_position(cs: &[char], byte: usize) -> (r: Option<usize>)
    ensures
        r is Some <==> char_index(cs@, byte as int, 0) is Some,
        r matches Some(i) ==> char_index(cs@, byte as int, 0) == Some(i as int) && i <= cs@.len(),
{
    let mut left: usize = byte;
    let mut i: usize = 0;
    while left > 0 && i < cs.len() && left >= width_of(cs[i])
        invariant
            i <= cs@.len(),
            char_index(cs@, byte as int, 0) == char_index(cs@, left as int, i as int),
        decreases cs@.len() - i,
    {
        left = left - width_of(cs[i]);
        i = i + 1;
    }
    if left == 0 {
        Some(i)
    } else {
        None
    }
}

fn span_of(cs: &[char], node: ProseNode) -> (r: Option<Span>)
    ensures
        match r {
            Some(s) => mark_of(cs@, node) == Some(s.mark()),
            None => mark_of(cs@, node) is None,
        },
{
    match (char_position(cs, node.start), char_position(cs, node.end)) {
        (Some(a), Some(b)) => if a <= b {
            let image = match node.kind {
                NodeKind::Image => true,
                _ => false,
            };
            Some(Span { start: a, end: b, image })
        } else {
            None
        },
        _ => None,
    }
}

fn kind_is_code(kind: NodeKind) -> (r: bool)
    ensures
        r == is_code(kind),
{
    match kind {
        NodeKind::Verbatim
        | NodeKind::CodeBlock
        | NodeKind::RawInline
        | NodeKind::RawBlock => true,
        _ => false,
    }
}

fn code_spans(cs: &[char], nodes: &Vec<ProseNode>) -> (r: Vec<Span>)
    ensures
        marks_view(r@) == code_marks(cs@, nodes@),
{
    let mut out: Vec<Span> = Vec::new();
    let mut i: usize = 0;
    proof {
        assert(nodes@.take(0) =~= Seq::empty());
        assert(marks_view(out@) =~= Seq::empty());
    }
    while i < nodes.len()
        invariant
            i <= nodes@.len(),
            marks_view(out@) == code_marks(cs@, nodes@.take(i as int)),
        decreases nodes@.len() - i,
    {
        proof {
            assert(nodes@.take(i + 1).drop_last() =~= nodes@.take(i as int));
            assert(nodes@.take(i + 1).last() == nodes@[i as int]);
        }
        let node = nodes[i];
        match span_of(cs, node) {
            Some(span) => {
                if kind_is_code(node.kind) {
                    insert_span(&mut out, span);
                }
            },
            None => {},
        }
        i = i + 1;
    }
    proof {
        assert(nodes@.take(i as int) =~= nodes@);
    }
    out
}

fn kind_spans(cs: &[char], nodes: &Vec<ProseNode>, kind: NodeKind) -> (r: Vec<Span>)
    ensures
        marks_view(r@) == kind_marks(cs@, nodes@, kind),
{
    let mut out: Vec<Span> = Vec::new();
    let mut i: usize = 0;
    proof {
        assert(nodes@.take(0) =~= Seq::empty());
        assert(marks_view(out@) =~= Seq::empty());
    }
    while i < nodes.len()
        invariant
            i <= nodes@.len(),
            marks_view(out@) == kind_marks(cs@, nodes@.take(i as int), kind),
        decreases nodes@.len() - i,
    {
        proof {
            assert(nodes@.take(i + 1).drop_last() =~= nodes@.take(i as int));
            assert(nodes@.take(i + 1).last() == nodes@[i as int]);
        }
        let node = nodes[i];
        match span_of(cs, node) {
            Some(span) => {
                if node.kind == kind {
                    insert_span(&mut out, span);
                }
            },
            None => {},
        }
        i = i + 1;
    }
    proof {
        assert(nodes@.take(i as int) =~= nodes@);
    }
    out
}

/// Adds the wikilinks of `cs` between `from` and `to`.
fn scan_wikilinks(cs: &[char], from: usize, to: usize, out: &mut Vec<BodyLink>)
    requires
        to <= cs@.len(),
    ensures
        links_view(final(out)@) == links_view(old(out)@) + wikilinks(
            cs@,
            from as int,
            to as int,
        ),
{
    if from > to {
        proof {
            assert(links_view(out@) + wikilinks(cs@, from as int, to as int) =~= links_view(out@));
        }
        return;
    }
    let run = vstd::slice::slice_subrange(cs, 0, to);
    let open_mark = chars_of("[[");
    let close_mark = chars_of("]]");
    let ghost base = links_view(out@);
    let ghost all = wikilinks(cs@, from as int, to as int);
    let mut at: usize = from;
    proof {
        lemma_brackets();
        assert(run@ =~= cs@.take(to as int));
    }
    loop
        invariant_except_break
            from <= at <= to <= cs@.len(),
            run@ == cs@.take(to as int),
            open_mark@ == "[["@,
            close_mark@ == "]]"@,
            "[["@.len() == 2,
            "]]"@.len() == 2,
            links_view(out@) + wikilinks(cs@, at as int, to as int) == base + all,
        ensures
            links_view(out@) == base + all,
        decreases to - at,
    {
        proof {
            lemma_find_from(run@, "[["@, at as int);
        }
        let open = match find_text(run, &open_mark, at) {
            Some(open) => open,
            None => {
                proof {
                    assert(links_view(out@) + wikilinks(cs@, at as int, to as int) =~= links_view(
                        out@,
                    ));
                }
                break ;
            },
        };
        proof {
            lemma_find_from(run@, "]]"@, open + 2);
        }
        let close = match find_text(run, &close_mark, open + 2) {
            Some(close) => close,
            None => {
                proof {
                    assert(links_view(out@) + wikilinks(cs@, at as int, to as int) =~= links_view(
                        out@,
                    ));
                }
                break ;
            },
        };
        let link = crate::link::wikilink_of(&text_of(cs, open + 2, close));
        let ghost done = links_view(out@);
        let ghost rest = wikilinks(cs@, close + 2, to as int);
        if !link.target.as_str().is_empty() {
            let found = BodyLink { link, start: open, end: close + 2, image: false };
            out.push(found);
            proof {
                assert(links_view(out@) =~= done.push(found@));
                assert(done + (seq![found@] + rest) =~= done.push(found@) + rest);
            }
        }
        at = close + 2;
    }
}

/// Adds the wikilinks of `cs` outside the code.
fn scan_prose(cs: &[char], code: &Vec<Span>) -> (r: Vec<BodyLink>)
    requires
        lie_inside(marks_view(code@), cs@.len() as int),
    ensures
        links_view(r@) == prose_wikilinks(cs@, marks_view(code@), 0),
{
    let ghost marks = marks_view(code@);
    let mut out: Vec<BodyLink> = Vec::new();
    let mut at: usize = 0;
    let mut i: usize = 0;
    proof {
        assert(marks.skip(0) =~= marks);
        assert(links_view(out@) + prose_wikilinks(cs@, marks, 0) =~= prose_wikilinks(
            cs@,
            marks,
            0,
        ));
    }
    while i < code.len()
        invariant
            i <= code@.len(),
            at <= cs@.len(),
            marks == marks_view(code@),
            lie_inside(marks, cs@.len() as int),
            links_view(out@) + prose_wikilinks(cs@, marks.skip(i as int), at as int)
                == prose_wikilinks(cs@, marks, 0),
        decreases code@.len() - i,
    {
        let span = code[i];
        let ghost done = links_view(out@);
        proof {
            assert(marks.skip(i as int)[0] == marks[i as int]);
            assert(marks[i as int] == span.mark());
            assert(marks.skip(i as int).drop_first() =~= marks.skip(i + 1));
        }
        if at < span.start {
            scan_wikilinks(cs, at, span.start, &mut out);
        }
        let ghost next = if at < span.end {
            span.end as int
        } else {
            at as int
        };
        proof {
            let here = if at < span.start {
                wikilinks(cs@, at as int, span.start as int)
            } else {
                Seq::empty()
            };
            let rest = prose_wikilinks(cs@, marks.skip(i + 1), next);
            assert(done + here =~= links_view(out@));
            assert(done + (here + rest) =~= links_view(out@) + rest);
        }
        if at < span.end {
            at = span.end;
        }
        i = i + 1;
    }
    let end: usize = cs.len();
    proof {
        assert(marks.skip(i as int) =~= Seq::empty());
    }
    scan_wikilinks(cs, at, end, &mut out);
    out
}

fn span_link(cs: &[char], span: Span) -> (r: Option<BodyLink>)
    requires
        span.start <= span.end <= cs@.len(),
    ensures
        match r {
            Some(l) => marked_link(cs@, span.mark()) == Some(l@),
            None => marked_link(cs@, span.mark()) is None,
        },
{
    let mut start: usize = span.start;
    if span.image {
        if span.start >= span.end || cs[span.start] != '!' {
            return None;
        }
        start = start + 1;
    }
    let link = Link::parse(&text_of(cs, start, span.end));
    if link.label.is_some() && !link.wikilink {
        Some(BodyLink { link, start, end: span.end, image: span.image })
    } else {
        None
    }
}

fn overlaps_any(links: &Vec<BodyLink>, start: usize, end: usize) -> (r: bool)
    ensures
        r == exists|i: int|
            0 <= i < links_view(links@).len() && overlap(
                #[trigger] links_view(links@)[i],
                start as int,
                end as int,
            ),
{
    let ghost v = links_view(links@);
    let mut i: usize = 0;
    while i < links.len()
        invariant
            i <= links@.len(),
            v == links_view(links@),
            forall|j: int| 0 <= j < i ==> !overlap(#[trigger] v[j], start as int, end as int),
        decreases links@.len() - i,
    {
        if links[i].start < end && start < links[i].end {
            proof {
                assert(overlap(v[i as int], start as int, end as int));
            }
            return true;
        }
        proof {
            assert(v[i as int] == links@[i as int]@);
        }
        i = i + 1;
    }
    false
}

fn add_marked(cs: &[char], links: &mut Vec<BodyLink>, spans: &Vec<Span>)
    requires
        lie_inside(marks_view(spans@), cs@.len() as int),
    ensures
        links_view(final(links)@) == with_marked(
            cs@,
            links_view(old(links)@),
            marks_view(spans@),
        ),
{
    let ghost base = links_view(links@);
    let ghost marks = marks_view(spans@);
    let mut i: usize = 0;
    proof {
        assert(marks.take(0) =~= Seq::empty());
    }
    while i < spans.len()
        invariant
            i <= spans@.len(),
            marks == marks_view(spans@),
            lie_inside(marks, cs@.len() as int),
            links_view(links@) == with_marked(cs@, base, marks.take(i as int)),
        decreases spans@.len() - i,
    {
        let span = spans[i];
        proof {
            assert(marks.take(i + 1).drop_last() =~= marks.take(i as int));
            assert(marks.take(i + 1).last() == marks[i as int]);
            assert(marks[i as int] == span.mark());
        }
        match span_link(cs, span) {
            Some(link) => {
                if !overlaps_any(links, link.start, link.end) {
                    insert_body_link(links, link);
                }
            },
            None => {},
        }
        i = i + 1;
    }
    proof {
        assert(marks.take(i as int) =~= marks);
    }
}

/// The links of a body read with these nodes, in order of where they start:
/// wikilinks outside code, inline links, and images.
pub fn links_with(body: &str, nodes: &Vec<ProseNode>) -> (r: Vec<BodyLink>)
    ensures
        links_view(r@) == links_among(body@, nodes@),
{
    let cs = chars_of(body);
    let code = code_spans(&cs, nodes);
    let mut marked = kind_spans(&cs, nodes, NodeKind::Link);
    let mut images = kind_spans(&cs, nodes, NodeKind::Image);
    let ghost (l, m) = (marks_view(marked@), marks_view(images@));
    proof {
        lemma_code_inside(body@, nodes@);
        lemma_kind_inside(body@, nodes@, NodeKind::Link);
        lemma_kind_inside(body@, nodes@, NodeKind::Image);
    }
    marked.append(&mut images);
    proof {
        assert(marks_view(marked@) =~= l + m);
    }
    let mut out = scan_prose(&cs, &code);
    add_marked(&cs, &mut out, &marked);
    out
}

proof fn lemma_code_inside(body: Seq<char>, nodes: Seq<ProseNode>)
    ensures
        lie_inside(code_marks(body, nodes), body.len() as int),
    decreases nodes.len(),
{
    if nodes.len() > 0 {
        lemma_code_inside(body, nodes.drop_last());
        lemma_mark_inside(body, nodes.last());
        match mark_of(body, nodes.last()) {
            Some(mark) => {
                lemma_insert_inside(code_marks(body, nodes.drop_last()), mark, body.len() as int);
            },
            None => {},
        }
    }
}

/// The links of the body of the file at `path`, in order of where they start.
pub fn scan_body_links(path: &str, body: &str) -> (r: Vec<BodyLink>)
    ensures
        links_view(r@) == body_links(path@, body@),
        is_spaced(links_view(r@), body@.len() as int),
{
    let found = match crate::document::grammar_of(path) {
        Some(format) => match nodes(body, format) {
            Some(v) => v,
            None => Vec::new(),
        },
        None => Vec::new(),
    };
    proof {
        law_body_links_spaced(path@, body@);
        assert(found@ =~= nodes_of(path@, body@));
    }
    links_with(body, &found)
}

} // verus!
