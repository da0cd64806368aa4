//! Links as text: how a reference is written in metadata or prose, what it
//! names, and how it is respelled without losing its label or its wrapper.
//!
//! A reference is a bare target, a labelled `[label](target)` or a wikilink
//! `[[target|label]]`. Its target is a path, a durable `id:` handle, a place in
//! the same document (`#3`) or an address outside the workspace. Only a path
//! says where something lives, so only a path is ever rewritten.

use crate::path::opt_text;
use crate::text::{chars_of, find_mark, find_text, stands_at, text_of, trim_range};
use vstd::prelude::*;

verus! {

/// A parsed reference.
#[derive(Debug, PartialEq, Eq)]
pub struct Link {
    /// The display label, of `[label](target)` or `[[target|label]]`.
    pub label: Option<String>,
    /// The target as written.
    pub target: String,
    /// Whether the reference is written as a wikilink.
    pub wikilink: bool,
}

/// What a [`Link`] holds.
pub struct LinkView {
    pub label: Option<Seq<char>>,
    pub target: Seq<char>,
    pub wikilink: bool,
}

impl View for Link {
    type V = LinkView;

    open spec fn view(&self) -> LinkView {
        LinkView { label: opt_text(self.label), target: self.target@, wikilink: self.wikilink }
    }
}

/// `s` up to the first `c` and after it.
pub open spec fn split_once(s: Seq<char>, c: char) -> Option<(Seq<char>, Seq<char>)> {
    match crate::text::find_char(s, c, 0) {
        Some(i) => Some((s.take(i), s.skip(i + 1))),
        None => None,
    }
}

/// Whether `s` is wrapped as a wikilink.
pub open spec fn is_wiki(s: Seq<char>) -> bool {
    &&& s.len() >= 4
    &&& s[0] == '[' && s[1] == '['
    &&& s[s.len() - 2] == ']' && s[s.len() - 1] == ']'
}

/// The wikilink with this text between its brackets.
pub open spec fn wiki_of(inner: Seq<char>) -> LinkView {
    match split_once(inner, '|') {
        Some((target, label)) => LinkView {
            label: Some(crate::text::trimmed(label)),
            target: crate::text::trimmed(target),
            wikilink: true,
        },
        None => LinkView { label: None, target: crate::text::trimmed(inner), wikilink: true },
    }
}

/// The position of the `)` that closes a target, reading `s` from `i` with
/// `depth` parentheses open inside it.
pub open spec fn closing_paren(s: Seq<char>, i: int, depth: nat) -> Option<int>
    decreases s.len() - i,
{
    if i < 0 || i >= s.len() {
        None
    } else if s[i] == '(' {
        closing_paren(s, i + 1, depth + 1)
    } else if s[i] == ')' {
        if depth == 0 {
            Some(i)
        } else {
            closing_paren(s, i + 1, (depth - 1) as nat)
        }
    } else {
        closing_paren(s, i + 1, depth)
    }
}

/// The target of `[label](target)`, given what follows `](`. One in angle
/// brackets is unwrapped, and must close with `>)`.
pub open spec fn target_after(after: Seq<char>) -> Option<Seq<char>> {
    if after.len() > 0 && after[0] == '<' {
        match crate::text::find_char(after, '>', 1) {
            Some(i) if i + 1 < after.len() && after[i + 1] == ')' => Some(after.subrange(1, i)),
            _ => None,
        }
    } else {
        match closing_paren(after, 0, 0) {
            Some(i) => Some(after.take(i)),
            None => None,
        }
    }
}

/// The label and target of `[label](target)`.
pub open spec fn markdown_of(s: Seq<char>) -> Option<(Seq<char>, Seq<char>)> {
    if s.len() == 0 || s[0] != '[' {
        None
    } else {
        match crate::text::find_char(s, ']', 0) {
            Some(i) if i + 1 < s.len() && s[i + 1] == '(' => match target_after(s.skip(i + 2)) {
                Some(target) => Some((s.subrange(1, i), target)),
                None => None,
            },
            _ => None,
        }
    }
}

/// What a raw reference says.
pub open spec fn parse_link(raw: Seq<char>) -> LinkView {
    let s = crate::text::trimmed(raw);
    if is_wiki(s) {
        wiki_of(s.subrange(2, s.len() - 2))
    } else {
        match markdown_of(s) {
            Some((label, target)) => LinkView { label: Some(label), target, wikilink: false },
            None => LinkView { label: None, target: s, wikilink: false },
        }
    }
}

/// Whether a target must stand in angle brackets inside `[label](…)`.
pub open spec fn needs_brackets(target: Seq<char>) -> bool {
    target.contains(' ') || target.contains('(') || target.contains(')')
}

/// A target as it stands inside `[label](…)`.
pub open spec fn emitted(target: Seq<char>) -> Seq<char> {
    if needs_brackets(target) {
        seq!['<'] + target + seq!['>']
    } else {
        target
    }
}

/// A reference as it is written.
pub open spec fn rendered(link: LinkView) -> Seq<char> {
    match (link.label, link.wikilink) {
        (Some(label), true) => seq!['[', '['] + link.target + seq!['|'] + label + seq![']', ']'],
        (None, true) => seq!['[', '['] + link.target + seq![']', ']'],
        (Some(label), false) => seq!['['] + label + seq![']', '('] + emitted(link.target)
            + seq![')'],
        (None, false) => link.target,
    }
}

/// A target outside the workspace.
pub open spec fn is_external(target: Seq<char>) -> bool {
    ||| crate::text::find_from(target, "://"@, 0) is Some
    ||| crate::text::begins(target, "mailto:"@)
}

/// A target that is only a place in the document it is written in.
pub open spec fn is_same_document(target: Seq<char>) -> bool {
    !is_external(target) && target.len() > 0 && target[0] == '#'
}

/// The document part of a target and its locator, the text after the first `#`.
pub open spec fn split_locator(target: Seq<char>) -> (Seq<char>, Option<Seq<char>>) {
    match split_once(target, '#') {
        Some((doc, locator)) if doc.len() > 0 => (doc, Some(locator)),
        _ => (target, None),
    }
}

/// The locator of a target; an address outside the workspace has none.
pub open spec fn locator_of(target: Seq<char>) -> Option<Seq<char>> {
    if is_external(target) {
        None
    } else {
        split_locator(target).1
    }
}

/// The part of a target that names a document.
pub open spec fn addressed(target: Seq<char>) -> Seq<char> {
    if is_external(target) {
        target
    } else {
        split_locator(target).0
    }
}

/// A target with a locator put back on it.
pub open spec fn join_locator(target: Seq<char>, locator: Option<Seq<char>>) -> Seq<char> {
    match locator {
        Some(locator) => target.push('#') + locator,
        None => target,
    }
}

/// The link with its document part replaced, its locator kept.
pub open spec fn with_path(link: LinkView, path: Seq<char>) -> LinkView {
    LinkView { target: join_locator(path, locator_of(link.target)), ..link }
}

/// The link with another label.
pub open spec fn with_label(link: LinkView, label: Seq<char>) -> LinkView {
    LinkView { label: Some(label), ..link }
}

/// The text after the id scheme, in its current or its older spelling.
pub open spec fn id_body(target: Seq<char>) -> Option<Seq<char>> {
    if crate::text::begins(target, "id:"@) {
        Some(target.skip("id:"@.len() as int))
    } else if crate::text::begins(target, "colophon:"@) {
        Some(target.skip("colophon:"@.len() as int))
    } else {
        None
    }
}

/// What an `id:` target names.
#[derive(Debug, PartialEq, Eq)]
pub enum IdRef {
    /// A document of this workspace.
    Local(String),
    /// A document of the workspace with this name.
    Foreign(String, String),
    /// No reference at all: an empty half, or more than one separator.
    Malformed,
}

/// What an [`IdRef`] holds.
pub enum IdRefView {
    Local(Seq<char>),
    Foreign(Seq<char>, Seq<char>),
    Malformed,
}

impl View for IdRef {
    type V = IdRefView;

    open spec fn view(&self) -> IdRefView {
        match self {
            IdRef::Local(id) => IdRefView::Local(id@),
            IdRef::Foreign(workspace, id) => IdRefView::Foreign(workspace@, id@),
            IdRef::Malformed => IdRefView::Malformed,
        }
    }
}

/// What the text after the id scheme names.
pub open spec fn parse_id_body(body: Seq<char>) -> IdRefView {
    match split_once(body, '/') {
        None => if body.len() == 0 {
            IdRefView::Malformed
        } else {
            IdRefView::Local(body)
        },
        Some((workspace, id)) => if workspace.len() == 0 || id.len() == 0 || id.contains('/') {
            IdRefView::Malformed
        } else {
            IdRefView::Foreign(workspace, id)
        },
    }
}

/// What an `id:` target names; none for any other target.
pub open spec fn id_ref(target: Seq<char>) -> Option<IdRefView> {
    match id_body(addressed(target)) {
        Some(body) => Some(parse_id_body(body)),
        None => None,
    }
}

/// A target that says where something lives.
pub open spec fn is_path_target(target: Seq<char>) -> bool {
    !is_external(target) && !is_same_document(target) && id_ref(target) is None
}

/// A target that is a bare name, with neither a separator nor an extension.
pub open spec fn is_alias_shaped(target: Seq<char>) -> bool {
    target.len() > 0 && !target.contains('/') && !target.contains('\\') && crate::path::ext_of(
        target,
    ) is None
}

/// The path a target written in `doc` reaches. A leading `/` starts at the
/// workspace root, anything else at the directory of `doc`.
pub open spec fn resolve_path(doc: Seq<char>, target: Seq<char>) -> Seq<char> {
    let t = split_locator(target).0;
    if t.len() > 0 && t[0] == '/' {
        crate::path::normalized(t.drop_first())
    } else {
        crate::path::under(crate::path::parent_of(doc), t)
    }
}

/// How the path of a reference is written.
#[derive(Debug, Clone, Copy, PartialEq, Eq, Structural)]
pub enum LinkStyle {
    /// `[Title](/path/file.md)`.
    MarkdownRoot,
    /// `[Title](../path/file.md)`.
    MarkdownRelative,
    /// `/path/file.md`.
    PlainRoot,
    /// `../path/file.md`.
    PlainRelative,
}

impl LinkStyle {
    /// Whether paths in this style start at the workspace root.
    pub open spec fn is_root(self) -> bool {
        self is MarkdownRoot || self is PlainRoot
    }
}

/// The path text of a reference from `from` to `to`.
pub open spec fn path_text_of(style: LinkStyle, from: Seq<char>, to: Seq<char>) -> Seq<char> {
    if style.is_root() {
        seq!['/'] + to
    } else {
        crate::path::relative_to(crate::path::parent_of(from), to)
    }
}

/// The brackets a reference stands in.
#[derive(Debug, Clone, Copy, PartialEq, Eq, Structural)]
pub enum Wrapper {
    /// `[Title](target)` or a bare target.
    Markdown,
    /// `[[target]]` or `[[target|label]]`.
    Wikilink,
}

/// What a reference names its target by.
#[derive(Debug, Clone, Copy, PartialEq, Eq, Structural)]
pub enum Addressing {
    /// By path.
    Path,
    /// By durable `id:` handle.
    Id,
    /// By title.
    Alias,
}

/// How a reference is written.
#[derive(Debug, Clone, Copy, PartialEq, Eq, Structural)]
pub struct ReferenceStyle {
    /// The brackets it stands in.
    pub wrapper: Wrapper,
    /// What it names its target by.
    pub addressing: Addressing,
    /// Whether an `id` reference carries the title of its target as a label.
    pub label: bool,
    /// How a path is written.
    pub path_style: LinkStyle,
}

/// `target` in `wrapper`, labelled with `title` where `labelled`.
pub open spec fn wrapped(
    wrapper: Wrapper,
    target: Seq<char>,
    title: Seq<char>,
    labelled: bool,
) -> Seq<char> {
    if wrapper is Wikilink {
        rendered(
            LinkView {
                label: if labelled {
                    Some(title)
                } else {
                    None
                },
                target,
                wikilink: true,
            },
        )
    } else if labelled {
        rendered(LinkView { label: Some(title), target, wikilink: false })
    } else {
        emitted(target)
    }
}

/// A reference by path.
pub open spec fn path_reference(
    style: ReferenceStyle,
    wrapper: Wrapper,
    from: Seq<char>,
    to: Seq<char>,
    title: Seq<char>,
) -> Seq<char> {
    let target = path_text_of(style.path_style, from, to);
    if wrapper is Wikilink {
        wrapped(wrapper, target, title, style.label)
    } else if style.path_style is MarkdownRoot || style.path_style is MarkdownRelative {
        wrapped(wrapper, target, title, true)
    } else {
        target
    }
}

/// A reference from `from` to `to` in `style`. An `id` style with no id to
/// write falls back to a path.
pub open spec fn reference_of(
    style: ReferenceStyle,
    from: Seq<char>,
    to: Seq<char>,
    id: Option<Seq<char>>,
    title: Seq<char>,
) -> Seq<char> {
    match (style.addressing, id) {
        (Addressing::Alias, _) => wrapped(Wrapper::Wikilink, title, title, false),
        (Addressing::Id, Some(id)) => wrapped(style.wrapper, "id:"@ + id, title, style.label),
        (Addressing::Id, None) => path_reference(style, Wrapper::Markdown, from, to, title),
        (Addressing::Path, _) => path_reference(style, style.wrapper, from, to, title),
    }
}

proof fn lemma_find_char(s: Seq<char>, c: char, i: int)
    requires
        0 <= i,
    ensures
        crate::text::find_char(s, c, i) matches Some(k) ==> i <= k < s.len() && s[k] == c && (
        forall|j: int| i <= j < k ==> s[j] != c),
        crate::text::find_char(s, c, i) is None ==> forall|j: int| i <= j < s.len() ==> s[j] != c,
    decreases s.len() - i,
{
    if i < s.len() && s[i] != c {
        lemma_find_char(s, c, i + 1);
    }
}

/// Whether `s` holds `c`.
pub fn holds(s: &str, c: char) -> (r: bool)
    ensures
        r == s@.contains(c),
{
    let cs = chars_of(s);
    proof {
        lemma_find_char(cs@, c, 0);
    }
    match find_mark(&cs, c, 0) {
        Some(i) => {
            proof {
                assert(s@[i as int] == c);
            }
            true
        },
        None => false,
    }
}

/// `s` up to the first `c` and after it.
pub fn cut(s: &str, c: char) -> (r: Option<(String, String)>)
    ensures
        match r {
            Some((a, b)) => split_once(s@, c) == Some((a@, b@)),
            None => split_once(s@, c) is None,
        },
{
    let cs = chars_of(s);
    let n: usize = cs.len();
    match find_mark(&cs, c, 0) {
        Some(i) => {
            proof {
                assert(cs@.subrange(0, i as int) =~= s@.take(i as int));
                assert(cs@.subrange(i + 1, n as int) =~= s@.skip(i + 1));
            }
            Some((text_of(&cs, 0, i), text_of(&cs, i + 1, n)))
        },
        None => None,
    }
}

/// `s` without white space at either end.
pub fn trim(s: &str) -> (r: String)
    ensures
        r@ == crate::text::trimmed(s@),
{
    let cs = chars_of(s);
    let n: usize = cs.len();
    let (a, b) = trim_range(&cs, 0, n);
    proof {
        assert(cs@.subrange(0, n as int) =~= s@);
    }
    text_of(&cs, a, b)
}

/// Whether `s` begins with `pat`.
pub fn starts_with(s: &str, pat: &str) -> (r: bool)
    ensures
        r == crate::text::begins(s@, pat@),
{
    stands_at(&chars_of(s), &chars_of(pat), 0)
}

/// What follows `pat` at the start of `s`.
pub fn strip_prefix(s: &str, pat: &str) -> (r: Option<String>)
    ensures
        match r {
            Some(rest) => crate::text::begins(s@, pat@) && rest@ == s@.skip(pat@.len() as int),
            None => !crate::text::begins(s@, pat@),
        },
{
    let cs = chars_of(s);
    let ps = chars_of(pat);
    if stands_at(&cs, &ps, 0) {
        let n: usize = cs.len();
        let k: usize = ps.len();
        proof {
            assert(cs@.subrange(k as int, n as int) =~= s@.skip(k as int));
        }
        Some(text_of(&cs, k, n))
    } else {
        None
    }
}

/// The wikilink with this text between its brackets.
pub fn wikilink_of(inner: &str) -> (r: Link)
    ensures
        r@ == wiki_of(inner@),
{
    match cut(inner, '|') {
        Some((target, label)) => Link {
            label: Some(trim(&label)),
            target: trim(&target),
            wikilink: true,
        },
        None => Link { label: None, target: trim(inner), wikilink: true },
    }
}

/// The position of the `)` that closes a target.
fn find_closing_paren(cs: &[char]) -> (r: Option<usize>)
    ensures
        r is Some <==> closing_paren(cs@, 0, 0) is Some,
        r matches Some(i) ==> closing_paren(cs@, 0, 0) == Some(i as int) && i < cs@.len(),
{
    let mut depth: usize = 0;
    let mut i: usize = 0;
    while i < cs.len()
        invariant
            depth <= i <= cs@.len(),
            closing_paren(cs@, 0, 0) == closing_paren(cs@, i as int, depth as nat),
        decreases cs@.len() - i,
    {
        if cs[i] == '(' {
            depth = depth + 1;
        } else if cs[i] == ')' {
            if depth == 0 {
                return Some(i);
            }
            depth = depth - 1;
        }
        i = i + 1;
    }
    None
}

fn target_of(after: &[char]) -> (r: Option<String>)
    ensures
        opt_text(r) == target_after(after@),
{
    if after.len() > 0 && after[0] == '<' {
        match find_mark(after, '>', 1) {
            Some(i) => {
                if i < after.len() - 1 && after[i + 1] == ')' {
                    Some(text_of(after, 1, i))
                } else {
                    None
                }
            },
            None => None,
        }
    } else {
        match find_closing_paren(after) {
            Some(i) => {
                proof {
                    assert(after@.subrange(0, i as int) =~= after@.take(i as int));
                }
                Some(text_of(after, 0, i))
            },
            None => None,
        }
    }
}

/// The label and target of `[label](target)`.
fn split_markdown_link(s: &str) -> (r: Option<(String, String)>)
    ensures
        match r {
            Some((label, target)) => markdown_of(s@) == Some((label@, target@)),
            None => markdown_of(s@) is None,
        },
{
    let cs = chars_of(s);
    let n: usize = cs.len();
    if n == 0 || cs[0] != '[' {
        return None;
    }
    match find_mark(&cs, ']', 0) {
        Some(i) => {
            if i < n - 1 && cs[i + 1] == '(' {
                let after = chars_of(&text_of(&cs, i + 2, n));
                proof {
                    assert(after@ =~= s@.skip(i + 2));
                    assert(cs@[0] != ']');
                }
                match target_of(&after) {
                    Some(target) => Some((text_of(&cs, 1, i), target)),
                    None => None,
                }
            } else {
                None
            }
        },
        None => None,
    }
}

impl Link {
    /// Parses a raw reference. `[[target|label]]` and `[label](target)` give
    /// both parts; anything else is a bare target.
    pub fn parse(raw: &str) -> (r: Link)
        ensures
            r@ == parse_link(raw@),
    {
        let s = trim(raw);
        let cs = chars_of(&s);
        let n: usize = cs.len();
        if n >= 4 && cs[0] == '[' && cs[1] == '[' && cs[n - 2] == ']' && cs[n - 1] == ']' {
            return wikilink_of(&text_of(&cs, 2, n - 2));
        }
        match split_markdown_link(&s) {
            Some((label, target)) => Link { label: Some(label), target, wikilink: false },
            None => Link { label: None, target: s, wikilink: false },
        }
    }

    /// The reference as it is written.
    pub fn render(&self) -> (r: String)
        ensures
            r@ == rendered(self@),
    {
        let mut s = String::new();
        if self.wikilink {
            s.push('[');
            s.push('[');
            s.append(&self.target);
            match &self.label {
                Some(label) => {
                    s.push('|');
                    s.append(label);
                },
                None => {},
            }
            s.push(']');
            s.push(']');
        } else {
            match &self.label {
                Some(label) => {
                    s.push('[');
                    s.append(label);
                    s.push(']');
                    s.push('(');
                    s.append(&emit_target(&self.target));
                    s.push(')');
                },
                None => {
                    s.append(&self.target);
                },
            }
        }
        proof {
            assert(s@ =~= rendered(self@));
        }
        s
    }

    /// This link with its document part replaced and its locator kept.
    pub fn with_path(&self, path: &str) -> (r: Link)
        ensures
            r@ == with_path(self@, path@),
    {
        let mut target = path.to_owned();
        match self.locator() {
            Some(locator) => {
                target.push('#');
                target.append(&locator);
            },
            None => {},
        }
        Link { label: self.label.clone(), target, wikilink: self.wikilink }
    }

    /// This link with another label.
    pub fn with_label(&self, label: &str) -> (r: Link)
        ensures
            r@ == with_label(self@, label@),
    {
        Link {
            label: Some(label.to_owned()),
            target: self.target.clone(),
            wikilink: self.wikilink,
        }
    }

    /// Whether the target lies outside the workspace.
    pub fn is_external(&self) -> (r: bool)
        ensures
            r == is_external(self.target@),
    {
        find_text(&chars_of(&self.target), &chars_of("://"), 0).is_some() || starts_with(
            &self.target,
            "mailto:",
        )
    }

    /// Whether the target is only a place in its own document.
    pub fn is_same_document(&self) -> (r: bool)
        ensures
            r == is_same_document(self.target@),
    {
        let cs = chars_of(&self.target);
        !self.is_external() && cs.len() > 0 && cs[0] == '#'
    }

    /// The locator on the target.
    pub fn locator(&self) -> (r: Option<String>)
        ensures
            opt_text(r) == locator_of(self.target@),
    {
        if self.is_external() {
            return None;
        }
        match cut(&self.target, '#') {
            Some((doc, locator)) => if doc.as_str().is_empty() {
                None
            } else {
                Some(locator)
            },
            None => None,
        }
    }

    /// The part of the target that names a document.
    pub fn addressed_target(&self) -> (r: String)
        ensures
            r@ == addressed(self.target@),
    {
        if self.is_external() {
            return self.target.clone();
        }
        document_part(&self.target)
    }

    /// What an `id:` target names; none for any other target.
    pub fn id_ref(&self) -> (r: Option<IdRef>)
        ensures
            match r {
                Some(id) => id_ref(self.target@) == Some(id@),
                None => id_ref(self.target@) is None,
            },
    {
        let target = self.addressed_target();
        let body = match strip_prefix(&target, "id:") {
            Some(body) => body,
            None => match strip_prefix(&target, "colophon:") {
                Some(body) => body,
                None => {
                    return None;
                },
            },
        };
        match cut(&body, '/') {
            None => if body.as_str().is_empty() {
                Some(IdRef::Malformed)
            } else {
                Some(IdRef::Local(body))
            },
            Some((workspace, id)) => if workspace.as_str().is_empty() || id.as_str().is_empty()
                || holds(&id, '/') {
                Some(IdRef::Malformed)
            } else {
                Some(IdRef::Foreign(workspace, id))
            },
        }
    }

    /// Whether the target says where something lives: the only kind of target a
    /// move may rewrite.
    pub fn is_path_target(&self) -> (r: bool)
        ensures
            r == is_path_target(self.target@),
    {
        !self.is_external() && !self.is_same_document() && self.id_ref().is_none()
    }

    /// A copy of this link.
    pub fn copy(&self) -> (r: Link)
        ensures
            r@ == self@,
    {
        Link {
            label: self.label.clone(),
            target: self.target.clone(),
            wikilink: self.wikilink,
        }
    }
}

/// The part of a target before its locator.
fn document_part(target: &str) -> (r: String)
    ensures
        r@ == split_locator(target@).0,
{
    match cut(target, '#') {
        Some((doc, _)) => if doc.as_str().is_empty() {
            target.to_owned()
        } else {
            doc
        },
        None => target.to_owned(),
    }
}

fn emit_target(target: &str) -> (r: String)
    ensures
        r@ == emitted(target@),
{
    if holds(target, ' ') || holds(target, '(') || holds(target, ')') {
        let mut s = String::new();
        s.push('<');
        s.append(target);
        s.push('>');
        proof {
            assert(s@ =~= emitted(target@));
        }
        s
    } else {
        target.to_owned()
    }
}

/// Whether `target` is a bare name.
pub fn alias_shaped(target: &str) -> (r: bool)
    ensures
        r == is_alias_shaped(target@),
{
    !target.is_empty() && !holds(target, '/') && !holds(target, '\\') && crate::path::extension(
        target,
    ).is_none()
}

/// The path that a target written in `doc` reaches.
pub fn resolve(doc: &str, target: &str) -> (r: String)
    ensures
        r@ == resolve_path(doc@, target@),
        crate::path::is_canonical(r@),
{
    let t = document_part(target);
    let cs = chars_of(&t);
    let n: usize = cs.len();
    if n > 0 && cs[0] == '/' {
        proof {
            assert(cs@.subrange(1, n as int) =~= t@.drop_first());
        }
        crate::path::normalize(&text_of(&cs, 1, n))
    } else {
        crate::path::read_in(&crate::path::parent(doc), &t)
    }
}

/// The path text of a reference from `from` to `to`.
pub fn path_text(style: LinkStyle, from: &str, to: &str) -> (r: String)
    ensures
        r@ == path_text_of(style, from@, to@),
{
    match style {
        LinkStyle::MarkdownRoot | LinkStyle::PlainRoot => {
            let mut s = String::new();
            s.push('/');
            s.append(to);
            proof {
                assert(s@ =~= seq!['/'] + to@);
            }
            s
        },
        LinkStyle::MarkdownRelative | LinkStyle::PlainRelative => crate::path::relative(
            &crate::path::parent(from),
            to,
        ),
    }
}

fn wrap(wrapper: Wrapper, target: &str, title: &str, labelled: bool) -> (r: String)
    ensures
        r@ == wrapped(wrapper, target@, title@, labelled),
{
    match wrapper {
        Wrapper::Wikilink => Link {
            label: if labelled {
                Some(title.to_owned())
            } else {
                None
            },
            target: target.to_owned(),
            wikilink: true,
        }.render(),
        Wrapper::Markdown => if labelled {
            Link {
                label: Some(title.to_owned()),
                target: target.to_owned(),
                wikilink: false,
            }.render()
        } else {
            emit_target(target)
        },
    }
}

fn format_path(style: ReferenceStyle, wrapper: Wrapper, from: &str, to: &str, title: &str) -> (r:
    String)
    ensures
        r@ == path_reference(style, wrapper, from@, to@, title@),
{
    let target = path_text(style.path_style, from, to);
    match wrapper {
        Wrapper::Wikilink => wrap(wrapper, &target, title, style.label),
        Wrapper::Markdown => match style.path_style {
            LinkStyle::MarkdownRoot | LinkStyle::MarkdownRelative => wrap(
                wrapper,
                &target,
                title,
                true,
            ),
            LinkStyle::PlainRoot | LinkStyle::PlainRelative => target,
        },
    }
}

/// A reference from `from` to `to`, titled `title`, in `style`.
pub fn format_reference(
    style: ReferenceStyle,
    from: &str,
    to: &str,
    id: &Option<String>,
    title: &str,
) -> (r: String)
    ensures
        r@ == reference_of(style, from@, to@, opt_text(*id), title@),
{
    match style.addressing {
        Addressing::Alias => wrap(Wrapper::Wikilink, title, title, false),
        Addressing::Id => match id {
            Some(id) => {
                let mut target = "id:".to_owned();
                target.append(id);
                wrap(style.wrapper, &target, title, style.label)
            },
            None => format_path(style, Wrapper::Markdown, from, to, title),
        },
        Addressing::Path => format_path(style, style.wrapper, from, to, title),
    }
}

/// Text with no white space at either end.
pub open spec fn is_tight(s: Seq<char>) -> bool {
    s.len() > 0 ==> !crate::text::is_space(s[0]) && !crate::text::is_space(s.last())
}

/// Whether `path` can stand as the document part of `link` and be read back
/// from it: nothing in it closes the brackets around it early, starts another
/// kind of target, or begins a locator.
pub open spec fn is_writable(link: LinkView, path: Seq<char>) -> bool {
    let target = with_path(link, path).target;
    &&& path.len() > 0
    &&& !path.contains('#')
    &&& is_tight(path)
    &&& is_path_target(target)
    &&& link.wikilink ==> !path.contains('|')
    &&& !link.wikilink && link.label is Some ==> path[0] != '<' && (needs_brackets(target)
        ==> !target.contains('>'))
    &&& !link.wikilink && link.label is None ==> path[0] != '['
}

proof fn lemma_trim_start(s: Seq<char>)
    ensures
        ({
            let t = crate::text::trim_start(s);
            &&& t.len() > 0 ==> !crate::text::is_space(t[0])
            &&& t.len() <= s.len()
            &&& t == s.skip(s.len() - t.len())
        }),
    decreases s.len(),
{
    if s.len() > 0 && crate::text::is_space(s[0]) {
        lemma_trim_start(s.drop_first());
        let t = crate::text::trim_start(s);
        assert(s.drop_first().skip(s.drop_first().len() - t.len()) =~= s.skip(s.len() - t.len()));
    } else {
        assert(s.skip(0) =~= s);
    }
}

proof fn lemma_trim_end(s: Seq<char>)
    ensures
        ({
            let t = crate::text::trim_end(s);
            &&& t.len() > 0 ==> !crate::text::is_space(t.last())
            &&& t.len() <= s.len()
            &&& t == s.take(t.len() as int)
        }),
    decreases s.len(),
{
    if s.len() > 0 && crate::text::is_space(s.last()) {
        lemma_trim_end(s.drop_last());
        let t = crate::text::trim_end(s);
        assert(s.drop_last().take(t.len() as int) =~= s.take(t.len() as int));
    } else {
        assert(s.take(s.len() as int) =~= s);
    }
}

/// Trimming leaves a run of the text with no white space at its ends.
pub proof fn lemma_trimmed(s: Seq<char>)
    ensures
        is_tight(crate::text::trimmed(s)),
        exists|a: int, b: int|
            0 <= a <= b <= s.len() && crate::text::trimmed(s) == #[trigger] s.subrange(a, b),
{
    let t = crate::text::trim_start(s);
    lemma_trim_start(s);
    lemma_trim_end(t);
    let u = crate::text::trimmed(s);
    let a = s.len() - t.len();
    assert(u =~= s.subrange(a, a + u.len()));
}

/// Tight text is trimmed already.
pub proof fn lemma_tight_trimmed(s: Seq<char>)
    requires
        is_tight(s),
    ensures
        crate::text::trimmed(s) == s,
{
}

proof fn lemma_split_once(s: Seq<char>, c: char)
    ensures
        split_once(s, c) matches Some((a, b)) ==> !a.contains(c) && s == a.push(c) + b,
        split_once(s, c) is None ==> !s.contains(c),
{
    lemma_find_char(s, c, 0);
    match crate::text::find_char(s, c, 0) {
        Some(i) => {
            assert(s =~= s.take(i).push(c) + s.skip(i + 1));
            if s.take(i).contains(c) {
                let j = choose|j: int| 0 <= j < i && s.take(i)[j] == c;
                assert(s[j] == c);
            }
        },
        None => {},
    }
}

/// Text before the first mark, the mark, and the rest split again there.
proof fn lemma_split_built(a: Seq<char>, c: char, b: Seq<char>)
    requires
        !a.contains(c),
    ensures
        split_once(a.push(c) + b, c) == Some((a, b)),
{
    let s = a.push(c) + b;
    lemma_find_char(s, c, 0);
    assert(s[a.len() as int] == c);
    match crate::text::find_char(s, c, 0) {
        Some(i) => {
            if i < a.len() {
                assert(a[i] == s[i]);
                assert(a.contains(c));
            }
            assert(i == a.len());
            assert(s.take(i) =~= a);
            assert(s.skip(i + 1) =~= b);
        },
        None => {},
    }
}

proof fn lemma_no_mark(s: Seq<char>, c: char)
    requires
        !s.contains(c),
    ensures
        split_once(s, c) is None,
{
    lemma_find_char(s, c, 0);
    match crate::text::find_char(s, c, 0) {
        Some(i) => {
            assert(s.contains(s[i]));
        },
        None => {},
    }
}

proof fn lemma_sub_contains(s: Seq<char>, a: int, b: int, c: char)
    requires
        0 <= a <= b <= s.len(),
        s.subrange(a, b).contains(c),
    ensures
        s.contains(c),
{
    let i = choose|i: int| 0 <= i < b - a && s.subrange(a, b)[i] == c;
    assert(s[a + i] == c);
}

proof fn lemma_trimmed_contains(s: Seq<char>, c: char)
    ensures
        crate::text::trimmed(s).contains(c) ==> s.contains(c),
{
    lemma_trimmed(s);
    let (a, b) = choose|a: int, b: int|
        0 <= a <= b <= s.len() && crate::text::trimmed(s) == #[trigger] s.subrange(a, b);
    if crate::text::trimmed(s).contains(c) {
        lemma_sub_contains(s, a, b, c);
    }
}

proof fn lemma_closing(s: Seq<char>, i: int)
    requires
        0 <= i,
        s.len() > 0,
        s.last() == ')',
        i < s.len(),
        forall|j: int| i <= j < s.len() - 1 ==> s[j] != '(' && s[j] != ')',
    ensures
        closing_paren(s, i, 0) == Some(s.len() - 1),
    decreases s.len() - i,
{
    if i < s.len() - 1 {
        lemma_closing(s, i + 1);
    }
}

/// What a parsed reference never holds: the marks that would have ended it.
proof fn lemma_parsed(raw: Seq<char>)
    ensures
        ({
            let l = parse_link(raw);
            &&& is_tight(l.target) || (!l.wikilink && l.label is Some)
            &&& l.wikilink ==> !l.target.contains('|') && (l.label matches Some(label)
                ==> is_tight(label))
            &&& !l.wikilink ==> (l.label matches Some(label) ==> !label.contains(']'))
        }),
{
    let s = crate::text::trimmed(raw);
    lemma_trimmed(raw);
    if is_wiki(s) {
        let inner = s.subrange(2, s.len() - 2);
        lemma_split_once(inner, '|');
        lemma_trimmed(inner);
        lemma_trimmed_contains(inner, '|');
        match split_once(inner, '|') {
            Some((target, label)) => {
                lemma_trimmed(target);
                lemma_trimmed(label);
                lemma_trimmed_contains(target, '|');
            },
            None => {},
        }
    } else {
        lemma_find_char(s, ']', 0);
        match markdown_of(s) {
            Some((label, target)) => {
                let i = crate::text::find_char(s, ']', 0)->0;
                if label.contains(']') {
                    let j = choose|j: int| 0 <= j < label.len() && label[j] == ']';
                    assert(s[1 + j] == ']');
                }
            },
            None => {},
        }
    }
}

/// The locator that a target keeps is the end of the target.
proof fn lemma_locator(target: Seq<char>)
    ensures
        locator_of(target) matches Some(l) ==> ({
            &&& split_once(target, '#') is Some
            &&& target == split_locator(target).0.push('#') + l
            &&& forall|c: char| l.contains(c) ==> target.contains(c)
        }),
{
    match locator_of(target) {
        Some(l) => {
            lemma_split_once(target, '#');
            let doc = split_locator(target).0;
            assert forall|c: char| l.contains(c) implies target.contains(c) by {
                let j = choose|j: int| 0 <= j < l.len() && l[j] == c;
                assert(target[doc.len() + 1 + j] == c);
            }
        },
        None => {},
    }
}

/// A link that can be written and read back: nothing in its target or its label
/// closes what stands around it early, or starts another kind of link.
pub open spec fn is_spelled(link: LinkView) -> bool {
    let t = link.target;
    &&& t.len() > 0
    &&& link.wikilink ==> !t.contains('|') && is_tight(t) && (link.label matches Some(label)
        ==> is_tight(label))
    &&& !link.wikilink && link.label is Some ==> !link.label->Some_0.contains(']') && t[0] != '<' && (
    needs_brackets(t) ==> !t.contains('>'))
    &&& !link.wikilink && link.label is None ==> is_tight(t) && t[0] != '['
}

/// A link that is written reads back as it was.
pub proof fn law_rendered_reads_back(link: LinkView)
    requires
        is_spelled(link),
    ensures
        parse_link(rendered(link)) == link,
{
    let out = rendered(link);
    let t = link.target;
    if link.wikilink {
        lemma_tight_trimmed(t);
        assert(out[0] == '[' && out[1] == '[');
        assert(out[out.len() - 1] == ']' && out[out.len() - 2] == ']');
        lemma_tight_trimmed(out);
        let inner = out.subrange(2, out.len() - 2);
        match link.label {
            Some(label) => {
                assert(inner =~= t.push('|') + label);
                lemma_split_built(t, '|', label);
                lemma_tight_trimmed(label);
            },
            None => {
                assert(inner =~= t);
                lemma_no_mark(t, '|');
            },
        }
    } else {
        match link.label {
            Some(label) => {
                let body = emitted(t);
                assert(out[0] == '[' && out.last() == ')');
                lemma_tight_trimmed(out);
                lemma_find_char(out, ']', 0);
                assert(out[label.len() as int + 1] == ']');
                let i = crate::text::find_char(out, ']', 0)->0;
                if i < label.len() + 1 {
                    assert(i > 0);
                    assert(label[i - 1] == ']');
                    assert(label.contains(']'));
                }
                assert(i == label.len() + 1);
                assert(out[i + 1] == '(');
                assert(out.subrange(1, i) =~= label);
                let after = out.skip(i + 2);
                assert(after =~= body + seq![')']);
                if needs_brackets(t) {
                    assert(after[0] == '<');
                    lemma_find_char(after, '>', 1);
                    assert(after[t.len() as int + 1] == '>');
                    let k = crate::text::find_char(after, '>', 1)->0;
                    if k < t.len() + 1 {
                        assert(t[k - 1] == '>');
                        assert(t.contains('>'));
                    }
                    assert(k == t.len() + 1);
                    assert(after[k + 1] == ')');
                    assert(after.subrange(1, k) =~= t);
                } else {
                    assert(after[0] == t[0]);
                    assert forall|j: int| 0 <= j < after.len() - 1 implies after[j] != '('
                        && after[j] != ')' by {
                        assert(after[j] == t[j]);
                        assert(t.contains(t[j]));
                    }
                    lemma_closing(after, 0);
                    assert(after.take(after.len() - 1) =~= t);
                }
            },
            None => {
                lemma_tight_trimmed(t);
            },
        }
    }
}

/// A respelled reference reads back as it was written: the same label, the
/// same wrapper, the same locator, and the new path.
pub proof fn law_respelled_reads_back(raw: Seq<char>, path: Seq<char>)
    requires
        is_writable(parse_link(raw), path),
    ensures
        parse_link(rendered(with_path(parse_link(raw), path))) == with_path(parse_link(raw), path),
{
    let l = parse_link(raw);
    let w = with_path(l, path);
    lemma_parsed(raw);
    lemma_locator(l.target);
    let t = w.target;
    assert(t.len() > 0 && t[0] == path[0]);
    if l.wikilink {
        assert(!t.contains('|')) by {
            if t.contains('|') {
                let j = choose|j: int| 0 <= j < t.len() && t[j] == '|';
                match locator_of(l.target) {
                    Some(loc) => {
                        if j < path.len() {
                            assert(path[j] == '|');
                        } else {
                            assert(j != path.len());
                            assert(loc[j - path.len() - 1] == '|');
                            assert(loc.contains('|'));
                        }
                    },
                    None => {
                        assert(path[j] == '|');
                    },
                }
            }
        }
    }
    if l.wikilink || l.label is None {
        assert(is_tight(t)) by {
            match locator_of(l.target) {
                Some(loc) => {
                    if loc.len() > 0 {
                        assert(t.last() == loc.last());
                        assert(l.target.last() == loc.last());
                    } else {
                        assert(t.last() == '#');
                    }
                },
                None => {
                    assert(t =~= path);
                },
            }
        }
    }
    law_rendered_reads_back(w);
}

/// A reference with another label leads where it led.
pub proof fn law_relabelled_reads_back(raw: Seq<char>, label: Seq<char>)
    requires
        is_spelled(with_label(parse_link(raw), label)),
    ensures
        ({
            let after = parse_link(rendered(with_label(parse_link(raw), label)));
            &&& after.target == parse_link(raw).target
            &&& after.wikilink == parse_link(raw).wikilink
            &&& after.label == Some(label)
        }),
{
    law_rendered_reads_back(with_label(parse_link(raw), label));
}

/// The link that a reference by path is.
pub open spec fn path_link(
    style: ReferenceStyle,
    from: Seq<char>,
    to: Seq<char>,
    title: Seq<char>,
) -> LinkView {
    let target = path_text_of(style.path_style, from, to);
    if style.wrapper is Wikilink && style.addressing is Path {
        LinkView {
            label: if style.label {
                Some(title)
            } else {
                None
            },
            target,
            wikilink: true,
        }
    } else if style.path_style is MarkdownRoot || style.path_style is MarkdownRelative {
        LinkView { label: Some(title), target, wikilink: false }
    } else {
        LinkView { label: None, target, wikilink: false }
    }
}

/// A reference that is authored by path leads where it should.
pub proof fn law_path_reference_arrives(
    style: ReferenceStyle,
    from: Seq<char>,
    to: Seq<char>,
    id: Option<Seq<char>>,
    title: Seq<char>,
)
    requires
        style.addressing is Path || (style.addressing is Id && id is None),
        is_spelled(path_link(style, from, to, title)),
        crate::path::is_inside(crate::path::parent_of(from)),
        crate::path::is_inside(to),
        !path_text_of(style.path_style, from, to).contains('#'),
    ensures
        parse_link(reference_of(style, from, to, id, title)) == path_link(style, from, to, title),
        resolve_path(from, parse_link(reference_of(style, from, to, id, title)).target) == to,
{
    law_rendered_reads_back(path_link(style, from, to, title));
    law_path_text_arrives(style.path_style, from, to);
}

/// Path text written from `doc` for a place inside the workspace reaches that
/// place when it is read in `doc`.
pub proof fn law_path_text_arrives(style: LinkStyle, doc: Seq<char>, to: Seq<char>)
    requires
        crate::path::is_inside(crate::path::parent_of(doc)),
        crate::path::is_inside(to),
        !path_text_of(style, doc, to).contains('#'),
    ensures
        resolve_path(doc, path_text_of(style, doc, to)) == to,
{
    let t = path_text_of(style, doc, to);
    lemma_no_mark(t, '#');
    if style.is_root() {
        assert(t[0] == '/');
        assert(t.drop_first() =~= to);
    } else {
        crate::path::law_relative_arrives(crate::path::parent_of(doc), to);
    }
}

/// A path reference that is respelled for a place inside the workspace reaches
/// that place, with its label, its wrapper and its locator kept.
pub proof fn law_respelled_arrives(raw: Seq<char>, style: LinkStyle, doc: Seq<char>, to: Seq<char>)
    requires
        crate::path::is_inside(crate::path::parent_of(doc)),
        crate::path::is_inside(to),
        is_writable(parse_link(raw), path_text_of(style, doc, to)),
    ensures
        ({
            let before = parse_link(raw);
            let after = parse_link(rendered(with_path(before, path_text_of(style, doc, to))));
            &&& is_path_target(after.target)
            &&& resolve_path(doc, after.target) == to
            &&& after.label == before.label
            &&& after.wikilink == before.wikilink
            &&& locator_of(after.target) == locator_of(before.target)
        }),
{
    let before = parse_link(raw);
    let text = path_text_of(style, doc, to);
    law_respelled_reads_back(raw, text);
    law_path_text_arrives(style, doc, to);
    let target = with_path(before, text).target;
    match locator_of(before.target) {
        Some(loc) => {
            lemma_split_built(text, '#', loc);
        },
        None => {
            lemma_no_mark(target, '#');
        },
    }
    lemma_no_mark(text, '#');
}

/// The link that a reference by identifier is.
pub open spec fn id_link(style: ReferenceStyle, id: Seq<char>, title: Seq<char>) -> LinkView {
    LinkView {
        label: if style.label {
            Some(title)
        } else {
            None
        },
        target: "id:"@ + id,
        wikilink: style.wrapper is Wikilink,
    }
}

/// A reference that is authored by identifier names that identifier.
pub proof fn law_id_reference_names(
    style: ReferenceStyle,
    from: Seq<char>,
    to: Seq<char>,
    id: Seq<char>,
    title: Seq<char>,
)
    requires
        style.addressing is Id,
        is_spelled(id_link(style, id, title)),
        !needs_brackets("id:"@ + id),
        !is_external("id:"@ + id),
        id.len() > 0,
        !id.contains('/'),
        !("id:"@ + id).contains('#'),
    ensures
        ({
            let target = parse_link(reference_of(style, from, to, Some(id), title)).target;
            &&& target == "id:"@ + id
            &&& !is_external(target)
            &&& !is_same_document(target)
            &&& id_ref(target) == Some(IdRefView::Local(id))
        }),
{
    let target = "id:"@ + id;
    reveal_strlit("id:");
    law_rendered_reads_back(id_link(style, id, title));
    lemma_no_mark(target, '#');
    lemma_no_mark(id, '/');
    assert(target.skip("id:"@.len() as int) =~= id);
    assert(crate::text::begins(target, "id:"@)) by {
        assert(target.subrange(0, 3) =~= "id:"@);
    }
}

} // verus!
