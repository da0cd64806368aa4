//! The plumbing that the operations share: where a move takes a path, which
//! file travels with a document, and how the links of a body are respelled.

use crate::document::Document;
use crate::error::{Error, Fault};
use crate::link::{Link, LinkStyle, LinkView};
use crate::path::opt_text;
use crate::prose::{scan_body_links, BodyLinkView};
use crate::text::{chars_of, find_text, same_text, stands_at, text_of};
use vstd::prelude::*;

verus! {

/// What a move does to paths: where each path it takes along lands.
#[derive(Debug, PartialEq, Eq)]
pub enum Moves {
    /// Named files, each to its own destination.
    Files(Vec<(String, String)>),
    /// Everything under one directory, to the same place under another.
    Tree(String, String),
}

/// The texts that pairs of strings hold.
pub open spec fn pair_texts(v: Seq<(String, String)>) -> Seq<(Seq<char>, Seq<char>)> {
    v.map_values(|p: (String, String)| (p.0@, p.1@))
}

/// The second half of the first pair that starts with `key`.
pub open spec fn paired_with(pairs: Seq<(Seq<char>, Seq<char>)>, key: Seq<char>) -> Option<
    Seq<char>,
>
    decreases pairs.len(),
{
    if pairs.len() == 0 {
        None
    } else if pairs[0].0 == key {
        Some(pairs[0].1)
    } else {
        paired_with(pairs.drop_first(), key)
    }
}

/// What a [`Moves`] holds.
pub enum MovesView {
    Files(Seq<(Seq<char>, Seq<char>)>),
    Tree(Seq<char>, Seq<char>),
}

impl View for Moves {
    type V = MovesView;

    open spec fn view(&self) -> MovesView {
        match self {
            Moves::Files(pairs) => MovesView::Files(pair_texts(pairs@)),
            Moves::Tree(from, to) => MovesView::Tree(from@, to@),
        }
    }
}

/// Where `path` lands; none where the move leaves it alone.
pub open spec fn landing(moves: MovesView, path: Seq<char>) -> Option<Seq<char>> {
    match moves {
        MovesView::Files(pairs) => paired_with(pairs, path),
        MovesView::Tree(from, to) => if crate::path::is_within(path, from) {
            Some(crate::path::rebased(path, from, to))
        } else {
            None
        },
    }
}

/// Where `path` is after the move.
pub open spec fn landing_or_same(moves: MovesView, path: Seq<char>) -> Seq<char> {
    match landing(moves, path) {
        Some(to) => to,
        None => path,
    }
}

impl Moves {
    /// The move of one file.
    pub fn one(from: &str, to: &str) -> (r: Moves)
        ensures
            r@ == MovesView::Files(seq![(from@, to@)]),
            forall|path: Seq<char>| #[trigger]
                landing(r@, path) == (if path == from@ {
                    Some(to@)
                } else {
                    None
                }),
    {
        let mut v: Vec<(String, String)> = Vec::new();
        v.push((from.to_owned(), to.to_owned()));
        proof {
            let pairs = seq![(from@, to@)];
            assert(pair_texts(v@) =~= pairs);
            assert forall|path: Seq<char>| #[trigger]
                landing(MovesView::Files(pairs), path) == (if path == from@ {
                    Some(to@)
                } else {
                    None
                }) by {
                assert(pairs.drop_first().len() == 0);
                reveal_with_fuel(paired_with, 2);
            }
        }
        Moves::Files(v)
    }

    /// Where `path` lands; none where the move leaves it alone.
    pub fn landed(&self, path: &str) -> (r: Option<String>)
        ensures
            opt_text(r) == landing(self@, path@),
    {
        match self {
            Moves::Files(pairs) => {
                let ghost all = pair_texts(pairs@);
                let mut i: usize = 0;
                proof {
                    assert(all.skip(0) =~= all);
                }
                while i < pairs.len()
                    invariant
                        i <= pairs@.len(),
                        all == pair_texts(pairs@),
                        self@ == MovesView::Files(all),
                        paired_with(all, path@) == paired_with(all.skip(i as int), path@),
                    decreases pairs@.len() - i,
                {
                    proof {
                        assert(all.skip(i as int)[0] == (pairs@[i as int].0@, pairs@[i as int].1@));
                        assert(all.skip(i as int).drop_first() =~= all.skip(i + 1));
                    }
                    if same_text(&pairs[i].0, path) {
                        return Some(pairs[i].1.clone());
                    }
                    i = i + 1;
                }
                None
            },
            Moves::Tree(from, to) => if crate::path::lies_within(path, from) {
                Some(crate::path::rebase(path, from, to))
            } else {
                None
            },
        }
    }

    /// Where `path` is after the move: where it lands, or where it was.
    pub fn landed_or_same(&self, path: &str) -> (r: String)
        ensures
            r@ == landing_or_same(self@, path@),
    {
        match self.landed(path) {
            Some(to) => to,
            None => path.to_owned(),
        }
    }
}

/// `text` with its body replaced. The body is the end of the text, or its
/// beginning, or else its first occurrence.
pub open spec fn spliced(text: Seq<char>, old_body: Seq<char>, new_body: Seq<char>) -> Seq<char> {
    if crate::text::ends(text, old_body) {
        text.take(text.len() - old_body.len()) + new_body
    } else if crate::text::begins(text, old_body) {
        new_body + text.skip(old_body.len() as int)
    } else {
        crate::text::replace_first(text, old_body, new_body)
    }
}

/// `text` with its body replaced: the end of the text, or its beginning, or
/// else its first occurrence.
pub fn splice_body(text: &str, old_body: &str, new_body: &str) -> (r: String)
    ensures
        r@ == spliced(text@, old_body@, new_body@),
{
    let cs = chars_of(text);
    let old = chars_of(old_body);
    let n: usize = cs.len();
    let k: usize = old.len();
    if k <= n && stands_at(&cs, &old, n - k) {
        proof {
            assert(cs@.subrange(0, n - k) =~= text@.take(n - k));
        }
        return text_of(&cs, 0, n - k).concat(new_body);
    }
    if stands_at(&cs, &old, 0) {
        proof {
            assert(cs@.subrange(k as int, n as int) =~= text@.skip(k as int));
        }
        return new_body.to_owned().concat(&text_of(&cs, k, n));
    }
    match find_text(&cs, &old, 0) {
        Some(i) => {
            proof {
                crate::prose::lemma_find_from(cs@, old@, 0);
                assert(cs@.subrange(0, i as int) =~= text@.take(i as int));
                assert(cs@.subrange(i + k, n as int) =~= text@.skip(i + k));
            }
            text_of(&cs, 0, i).concat(new_body).concat(&text_of(&cs, i + k, n))
        },
        None => text.to_owned(),
    }
}

/// A replacement in a body: the characters it takes out and what it puts in.
pub struct Change {
    pub start: int,
    pub end: int,
    pub text: Seq<char>,
}

/// Where the last of the changes ends.
pub open spec fn changes_end(changes: Seq<Change>) -> int {
    if changes.len() == 0 {
        0
    } else {
        changes.last().end
    }
}

/// `body` up to the end of the last change, with the changes made.
pub open spec fn rebuilt_front(body: Seq<char>, changes: Seq<Change>) -> Seq<char>
    decreases changes.len(),
{
    if changes.len() == 0 {
        Seq::empty()
    } else {
        rebuilt_front(body, changes.drop_last()) + body.subrange(
            changes_end(changes.drop_last()),
            changes.last().start,
        ) + changes.last().text
    }
}

/// `body` with the changes made.
pub open spec fn rebuilt(body: Seq<char>, changes: Seq<Change>) -> Seq<char> {
    rebuilt_front(body, changes) + body.skip(changes_end(changes))
}

/// The changes that a rule asks for, link by link.
pub open spec fn changes_by(
    links: Seq<BodyLinkView>,
    rule: spec_fn(BodyLinkView) -> Option<Seq<char>>,
) -> Seq<Change>
    decreases links.len(),
{
    if links.len() == 0 {
        Seq::empty()
    } else {
        let rest = changes_by(links.drop_last(), rule);
        match rule(links.last()) {
            Some(text) => rest.push(
                Change { start: links.last().start, end: links.last().end, text },
            ),
            None => rest,
        }
    }
}

/// `body` with every link respelled that the rule respells.
pub open spec fn respelled_body(
    body: Seq<char>,
    links: Seq<BodyLinkView>,
    rule: spec_fn(BodyLinkView) -> Option<Seq<char>>,
) -> Seq<char> {
    rebuilt(body, changes_by(links, rule))
}

/// `text` with its body respelled; as it was where no link is.
pub open spec fn respelled_text(
    text: Seq<char>,
    body: Seq<char>,
    links: Seq<BodyLinkView>,
    rule: spec_fn(BodyLinkView) -> Option<Seq<char>>,
) -> Seq<char> {
    if changes_by(links, rule).len() == 0 {
        text
    } else {
        spliced(text, body, respelled_body(body, links, rule))
    }
}

/// Changes that stand apart, in order, inside a body of `n` characters.
pub open spec fn changes_spaced(changes: Seq<Change>, n: int) -> bool {
    &&& forall|i: int|
        0 <= i < changes.len() ==> 0 <= (#[trigger] changes[i]).start < changes[i].end <= n
    &&& forall|i: int, j: int|
        0 <= i < j < changes.len() ==> (#[trigger] changes[i]).end <= (#[trigger] changes[j]).start
}

/// The changes to links that stand apart stand apart.
pub proof fn lemma_changes_spaced(
    links: Seq<BodyLinkView>,
    rule: spec_fn(BodyLinkView) -> Option<Seq<char>>,
    n: int,
)
    requires
        crate::prose::is_spaced(links, n),
    ensures
        changes_spaced(changes_by(links, rule), n),
        forall|i: int|
            0 <= i < changes_by(links, rule).len() ==> (#[trigger] changes_by(links, rule)[i]).end
                <= (if links.len() > 0 {
                links.last().end
            } else {
                0
            }),
    decreases links.len(),
{
    if links.len() > 0 {
        let rest = links.drop_last();
        assert(crate::prose::is_spaced(rest, n)) by {
            assert forall|i: int| 0 <= i < rest.len() implies 0 <= (#[trigger] rest[i]).start
                < rest[i].end <= n by {
                assert(links[i].start < links[i].end);
            }
            assert forall|i: int, j: int| 0 <= i < j < rest.len() implies (#[trigger] rest[i]).end
                <= (#[trigger] rest[j]).start by {
                assert(links[i].end <= links[j].start);
            }
        }
        lemma_changes_spaced(rest, rule, n);
        let last = links.len() - 1;
        assert(0 <= links[last].start < links[last].end <= n);
        if rest.len() > 0 {
            assert(links[last - 1].end <= links[last].start);
            assert(rest.last() == links[last - 1]);
        }
    }
}

/// Rebuilds a body one change after another.
struct Rebuild {
    text: String,
    cursor: usize,
}

impl Rebuild {
    spec fn tracks(self, body: Seq<char>, changes: Seq<Change>) -> bool {
        &&& self.text@ == rebuilt_front(body, changes)
        &&& self.cursor == changes_end(changes)
    }

    fn new() -> (r: Rebuild)
        ensures
            forall|body: Seq<char>| #[trigger] r.tracks(body, Seq::empty()),
    {
        Rebuild { text: String::new(), cursor: 0 }
    }

    /// Puts `with` in place of the characters from `start` to `end`.
    fn put(&mut self, body: &[char], start: usize, end: usize, with: &str)
        requires
            old(self).cursor <= start < end <= body@.len(),
        ensures
            forall|changes: Seq<Change>| #[trigger]
                old(self).tracks(body@, changes) ==> final(self).tracks(
                    body@,
                    changes.push(Change { start: start as int, end: end as int, text: with@ }),
                ),
    {
        let from = self.cursor;
        let ghost before = *self;
        self.text.append(&text_of(body, from, start));
        self.text.append(with);
        self.cursor = end;
        proof {
            let change = Change { start: start as int, end: end as int, text: with@ };
            assert forall|changes: Seq<Change>| #[trigger]
                before.tracks(body@, changes) implies self.tracks(
                body@,
                changes.push(change),
            ) by {
                assert(changes.push(change).drop_last() =~= changes);
            }
        }
    }

    /// The whole body.
    fn finish(self, body: &[char]) -> (r: String)
        requires
            self.cursor <= body@.len(),
        ensures
            forall|changes: Seq<Change>| #[trigger]
                self.tracks(body@, changes) ==> r@ == rebuilt(body@, changes),
    {
        let n: usize = body.len();
        let tail = text_of(body, self.cursor, n);
        proof {
            assert(tail@ =~= body@.skip(self.cursor as int));
        }
        self.text.concat(&tail)
    }
}

proof fn lemma_changes_step(
    links: Seq<BodyLinkView>,
    rule: spec_fn(BodyLinkView) -> Option<Seq<char>>,
    i: int,
    n: int,
)
    requires
        crate::prose::is_spaced(links, n),
        0 <= i < links.len(),
    ensures
        changes_by(links.take(i + 1), rule) == (match rule(links[i]) {
            Some(text) => changes_by(links.take(i), rule).push(
                Change { start: links[i].start, end: links[i].end, text },
            ),
            None => changes_by(links.take(i), rule),
        }),
        changes_end(changes_by(links.take(i), rule)) <= links[i].start < links[i].end <= n,
        0 <= links[i].start,
{
    assert(links.take(i + 1).drop_last() =~= links.take(i));
    assert(links.take(i + 1).last() == links[i]);
    let some = links.take(i);
    assert(crate::prose::is_spaced(some, n)) by {
        assert forall|k: int| 0 <= k < some.len() implies 0 <= (#[trigger] some[k]).start
            < some[k].end <= n by {
            assert(links[k].start < links[k].end);
        }
        assert forall|k: int, j: int| 0 <= k < j < some.len() implies (#[trigger] some[k]).end <= (
        #[trigger] some[j]).start by {
            assert(links[k].end <= links[j].start);
        }
    }
    lemma_changes_spaced(some, rule, n);
    let changes = changes_by(some, rule);
    if changes.len() > 0 {
        assert(changes[changes.len() - 1].end <= some.last().end);
        assert(links[i - 1].end <= links[i].start);
    }
    assert(0 <= links[i].start < links[i].end <= n);
}

/// The path text that a respelled link gets.
pub open spec fn respelling(link: LinkView, style: LinkStyle, doc: Seq<char>, to: Seq<char>) -> Seq<
    char,
> {
    crate::link::rendered(
        crate::link::with_path(link, crate::link::path_text_of(style, doc, to)),
    )
}

/// The link respelled to reach `to` from `doc`.
pub fn respell(link: &Link, style: LinkStyle, doc: &str, to: &str) -> (r: String)
    ensures
        r@ == respelling(link@, style, doc@, to@),
{
    link.with_path(&crate::link::path_text(style, doc, to)).render()
}

/// The rule that sends every path link from `source` to `from` to `to` instead.
pub open spec fn inbound_rule(source: Seq<char>, from: Seq<char>, to: Seq<char>, style: LinkStyle) ->
    spec_fn(BodyLinkView) -> Option<Seq<char>> {
    |l: BodyLinkView|
        if crate::link::is_path_target(l.link.target) && crate::link::resolve_path(
            source,
            l.link.target,
        ) == from {
            Some(respelling(l.link, style, source, to))
        } else {
            None
        }
}

/// The text of a document with the links of its body to `from` sent to `to`.
pub open spec fn body_inbound(
    text: Seq<char>,
    body: Seq<char>,
    source: Seq<char>,
    from: Seq<char>,
    to: Seq<char>,
    style: LinkStyle,
) -> Seq<char> {
    respelled_text(
        text,
        body,
        crate::prose::body_links(source, body),
        inbound_rule(source, from, to, style),
    )
}

/// Sends the path links in the body of `source` that reach `from` to `to`
/// instead, wikilinks, inline links and images alike. Each keeps its label, its
/// wrapper and its locator; targets that are not paths are left alone.
pub fn rewrite_body_inbound(
    text: &str,
    body: &str,
    source: &str,
    from: &str,
    to: &str,
    style: LinkStyle,
) -> (r: String)
    ensures
        r@ == body_inbound(text@, body@, source@, from@, to@, style),
{
    let cs = chars_of(body);
    let links = scan_body_links(source, body);
    let ghost all = crate::prose::links_view(links@);
    let ghost rule = inbound_rule(source@, from@, to@, style);
    let mut out = Rebuild::new();
    let mut changed = false;
    let mut i: usize = 0;
    proof {
        assert(all.take(0) =~= Seq::empty());
        assert(out.tracks(body@, Seq::empty()));
    }
    while i < links.len()
        invariant
            i <= links@.len(),
            cs@ == body@,
            all == crate::prose::links_view(links@),
            crate::prose::is_spaced(all, body@.len() as int),
            rule == inbound_rule(source@, from@, to@, style),
            out.tracks(body@, changes_by(all.take(i as int), rule)),
            changed == (changes_by(all.take(i as int), rule).len() > 0),
        decreases links@.len() - i,
    {
        let l = &links[i];
        proof {
            lemma_changes_step(all, rule, i as int, body@.len() as int);
            assert(all[i as int] == l@);
        }
        if l.link.is_path_target() && same_text(
            &crate::link::resolve(source, &l.link.target),
            from,
        ) {
            out.put(&cs, l.start, l.end, &respell(&l.link, style, source, to));
            changed = true;
        }
        i = i + 1;
    }
    proof {
        assert(all.take(i as int) =~= all);
        lemma_changes_spaced(all, rule, body@.len() as int);
    }
    if !changed {
        return text.to_owned();
    }
    splice_body(text, body, &out.finish(&cs))
}

/// The rule that keeps every path link of a document pointing where it pointed,
/// or where that has gone, when the document moves from `from` to `to`.
pub open spec fn moved_rule(
    body: Seq<char>,
    from: Seq<char>,
    to: Seq<char>,
    moves: MovesView,
    style: LinkStyle,
) -> spec_fn(BodyLinkView) -> Option<Seq<char>> {
    |l: BodyLinkView|
        {
            let out = respelling(
                l.link,
                style,
                to,
                landing_or_same(moves, crate::link::resolve_path(from, l.link.target)),
            );
            if crate::link::is_path_target(l.link.target) && out != body.subrange(l.start, l.end) {
                Some(out)
            } else {
                None
            }
        }
}

/// The text of a document that moves, with the links of its body recomputed.
pub open spec fn body_moved(
    text: Seq<char>,
    body: Seq<char>,
    from: Seq<char>,
    to: Seq<char>,
    moves: MovesView,
    style: LinkStyle,
) -> Seq<char> {
    respelled_text(
        text,
        body,
        crate::prose::body_links(from, body),
        moved_rule(body, from, to, moves, style),
    )
}

/// Recomputes the path links in the body of a document that moves from `from` to
/// `to`, so that they still reach what they reached, or where `moves` takes it.
/// Targets that are not paths are left alone.
pub fn rerelativize_body_links(
    text: &str,
    body: &str,
    from: &str,
    to: &str,
    moves: &Moves,
    style: LinkStyle,
) -> (r: String)
    ensures
        r@ == body_moved(text@, body@, from@, to@, moves@, style),
{
    let cs = chars_of(body);
    let links = scan_body_links(from, body);
    let ghost all = crate::prose::links_view(links@);
    let ghost rule = moved_rule(body@, from@, to@, moves@, style);
    let mut out = Rebuild::new();
    let mut changed = false;
    let mut i: usize = 0;
    proof {
        assert(all.take(0) =~= Seq::empty());
        assert(out.tracks(body@, Seq::empty()));
    }
    while i < links.len()
        invariant
            i <= links@.len(),
            cs@ == body@,
            all == crate::prose::links_view(links@),
            crate::prose::is_spaced(all, body@.len() as int),
            rule == moved_rule(body@, from@, to@, moves@, style),
            out.tracks(body@, changes_by(all.take(i as int), rule)),
            changed == (changes_by(all.take(i as int), rule).len() > 0),
        decreases links@.len() - i,
    {
        let l = &links[i];
        proof {
            lemma_changes_step(all, rule, i as int, body@.len() as int);
            assert(all[i as int] == l@);
        }
        if l.link.is_path_target() {
            let target = moves.landed_or_same(&crate::link::resolve(from, &l.link.target));
            let with = respell(&l.link, style, to, &target);
            if !same_text(&with, &text_of(&cs, l.start, l.end)) {
                out.put(&cs, l.start, l.end, &with);
                changed = true;
            }
        }
        i = i + 1;
    }
    proof {
        assert(all.take(i as int) =~= all);
        lemma_changes_spaced(all, rule, body@.len() as int);
    }
    if !changed {
        return text.to_owned();
    }
    splice_body(text, body, &out.finish(&cs))
}

/// The rule that writes every path link of a document in `style`. A bare name
/// is no path.
pub open spec fn restyle_rule(file: Seq<char>, style: LinkStyle) -> spec_fn(BodyLinkView) -> Option<
    Seq<char>,
> {
    |l: BodyLinkView|
        if crate::link::is_path_target(l.link.target) && !crate::link::is_alias_shaped(
            l.link.target,
        ) {
            Some(
                respelling(l.link, style, file, crate::link::resolve_path(file, l.link.target)),
            )
        } else {
            None
        }
}

/// The text of a document with the links of its body in `style`.
pub open spec fn body_restyled(
    text: Seq<char>,
    body: Seq<char>,
    file: Seq<char>,
    style: LinkStyle,
) -> Seq<char> {
    respelled_text(text, body, crate::prose::body_links(file, body), restyle_rule(file, style))
}

/// Writes the path links in the body of `file` in `style`. Bare names, and
/// targets that are not paths, are left alone.
pub fn restyle_body_links(text: &str, body: &str, file: &str, style: LinkStyle) -> (r: String)
    ensures
        r@ == body_restyled(text@, body@, file@, style),
{
    let cs = chars_of(body);
    let links = scan_body_links(file, body);
    let ghost all = crate::prose::links_view(links@);
    let ghost rule = restyle_rule(file@, style);
    let mut out = Rebuild::new();
    let mut changed = false;
    let mut i: usize = 0;
    proof {
        assert(all.take(0) =~= Seq::empty());
        assert(out.tracks(body@, Seq::empty()));
    }
    while i < links.len()
        invariant
            i <= links@.len(),
            cs@ == body@,
            all == crate::prose::links_view(links@),
            crate::prose::is_spaced(all, body@.len() as int),
            rule == restyle_rule(file@, style),
            out.tracks(body@, changes_by(all.take(i as int), rule)),
            changed == (changes_by(all.take(i as int), rule).len() > 0),
        decreases links@.len() - i,
    {
        let l = &links[i];
        proof {
            lemma_changes_step(all, rule, i as int, body@.len() as int);
            assert(all[i as int] == l@);
        }
        if l.link.is_path_target() && !crate::link::alias_shaped(&l.link.target) {
            let target = crate::link::resolve(file, &l.link.target);
            out.put(&cs, l.start, l.end, &respell(&l.link, style, file, &target));
            changed = true;
        }
        i = i + 1;
    }
    proof {
        assert(all.take(i as int) =~= all);
        lemma_changes_spaced(all, rule, body@.len() as int);
    }
    if !changed {
        return text.to_owned();
    }
    splice_body(text, body, &out.finish(&cs))
}

/// Whether the bytes from `start` to `end` of a body are the characters `expected`.
pub open spec fn covers(body: Seq<char>, start: int, end: int, expected: Seq<char>) -> bool {
    let bytes = vstd::utf8::encode_utf8(body);
    &&& 0 <= start <= end <= bytes.len()
    &&& vstd::utf8::is_char_boundary(bytes, start)
    &&& vstd::utf8::is_char_boundary(bytes, end)
    &&& bytes.subrange(start, end) == vstd::utf8::encode_utf8(expected)
}

/// A body with other characters in place of its bytes from `start` to `end`.
pub open spec fn body_with(body: Seq<char>, start: int, end: int, with: Seq<char>) -> Seq<char> {
    let bytes = vstd::utf8::encode_utf8(body);
    vstd::utf8::decode_utf8(bytes.take(start)) + with + vstd::utf8::decode_utf8(bytes.skip(end))
}

/// The characters from `a` to `b` of a body stand at the bytes they take, and putting
/// others there puts them in the place of those characters.
pub proof fn law_span_of_characters(body: Seq<char>, a: int, b: int, with: Seq<char>)
    requires
        0 <= a <= b <= body.len(),
    ensures
        covers(
            body,
            crate::text::byte_at(body, a),
            crate::text::byte_at(body, b),
            body.subrange(a, b),
        ),
        body_with(
            body,
            crate::text::byte_at(body, a),
            crate::text::byte_at(body, b),
            with,
        ) == body.take(a) + with + body.skip(b),
{
    crate::text::law_bytes_of_characters(body, a, b);
}

/// Replaces the bytes from `start` to `end` of a body, provided that they start and
/// end with characters and that what stands there is still `expected`.
pub fn splice_body_span(
    text: &str,
    body: &str,
    start: usize,
    end: usize,
    expected: &str,
    replacement: &str,
) -> (r: Result<String, Error>)
    ensures
        ({
            let stands = covers(body@, start as int, end as int, expected@);
            match r {
                Ok(out) => stands && out@ == spliced(
                    text@,
                    body@,
                    body_with(body@, start as int, end as int, replacement@),
                ),
                Err(e) => !stands && crate::error::fault(e) == Fault::SpanChanged(expected@),
            }
        }),
{
    let bytes = body.as_bytes();
    if start > end || end > bytes.len() || !body.is_char_boundary(start)
        || !body.is_char_boundary(end) || !crate::text::same_bytes(
        vstd::slice::slice_subrange(bytes, start, end),
        expected.as_bytes(),
    ) {
        return Err(Fault::SpanChanged(expected.to_owned()));
    }
    let (head, _) = body.split_at(start);
    let (_, tail) = body.split_at(end);
    proof {
        let all = vstd::utf8::encode_utf8(body@);
        assert(all.take(start as int) =~= all.subrange(0, start as int));
        assert(all.skip(end as int) =~= all.subrange(end as int, all.len() as int));
        vstd::utf8::encode_utf8_decode_utf8(head@);
        vstd::utf8::encode_utf8_decode_utf8(tail@);
    }
    let new_body = head.to_owned().concat(replacement).concat(tail);
    Ok(splice_body(text, body, &new_body))
}

/// The content file of a node at `node` whose content file was `body`: an opaque
/// payload is named by the stem of its node, prose shares that stem and keeps
/// its own extension.
pub open spec fn sibling_of(node: Seq<char>, body: Seq<char>) -> Seq<char> {
    if crate::document::is_opaque(body) {
        crate::path::renamed(
            node,
            match crate::path::stem_of(node) {
                Some(stem) => stem,
                None => Seq::empty(),
            },
        )
    } else {
        crate::path::with_ext(
            node,
            match crate::path::ext_of(body) {
                Some(ext) => ext,
                None => "md"@,
            },
        )
    }
}

/// The last part of `path`, or nothing.
pub open spec fn name_or_empty(path: Seq<char>) -> Seq<char> {
    match crate::path::name_of(path) {
        Some(name) => name,
        None => Seq::empty(),
    }
}

/// The last part of `path`, or nothing.
pub fn base_name(path: &str) -> (r: String)
    ensures
        r@ == name_or_empty(path@),
{
    match crate::path::file_name(path) {
        Some(name) => name,
        None => String::new(),
    }
}

/// Where the content file of a node sits when the node is at `node_to`, and the
/// value that points at it.
pub fn body_sibling(node_to: &str, body_from: &str) -> (r: (String, String))
    ensures
        r.0@ == sibling_of(node_to@, body_from@),
        r.1@ == name_or_empty(r.0@),
{
    let body_to = if crate::document::is_opaque_payload(body_from) {
        let stem = match crate::path::file_stem(node_to) {
            Some(stem) => stem,
            None => String::new(),
        };
        crate::path::with_file_name(node_to, &stem)
    } else {
        match crate::path::extension(body_from) {
            Some(ext) => crate::path::with_extension(node_to, &ext),
            None => crate::path::with_extension(node_to, "md"),
        }
    };
    let name = base_name(&body_to);
    (body_to, name)
}

/// The content file of a node sits beside it, and the value that points at it means it
/// there. It has the stem of its node and keeps its extension, where it is prose and has
/// one; the one of an opaque payload is named by the stem alone. That is so but where the
/// name would be one or two dots, which name no file.
pub proof fn law_sibling_beside(node: Seq<char>, body: Seq<char>)
    requires
        crate::path::is_inside(node),
        crate::path::is_inside(body),
        crate::path::name_of(node) matches Some(name) && ((crate::document::is_opaque(body)
            || crate::path::ext_of(body) == Some(Seq::<char>::empty())) ==> (
        crate::path::stem_of_name(name) != "."@ && crate::path::stem_of_name(name) != ".."@)),
    ensures
        crate::path::parent_of(sibling_of(node, body)) == crate::path::parent_of(node),
        crate::path::is_inside(sibling_of(node, body)),
        crate::path::name_of(sibling_of(node, body)) == Some(
            name_or_empty(sibling_of(node, body)),
        ),
        crate::path::under(
            crate::path::parent_of(node),
            name_or_empty(sibling_of(node, body)),
        ) == sibling_of(node, body),
        crate::document::is_opaque(body) ==> crate::path::name_of(sibling_of(node, body))
            == crate::path::stem_of(node),
        !crate::document::is_opaque(body) && crate::path::ext_of(body) != Some(
            Seq::<char>::empty(),
        ) ==> crate::path::stem_of(sibling_of(node, body)) == crate::path::stem_of(node)
            && crate::path::ext_of(sibling_of(node, body)) == Some(
            match crate::path::ext_of(body) {
                Some(ext) => ext,
                None => "md"@,
            },
        ),
{
    let name = crate::path::name_of(node)->Some_0;
    let stem = crate::path::stem_of_name(name);
    crate::path::lemma_inside_name(node);
    crate::path::lemma_inside_name(body);
    crate::path::lemma_ext_has_no_dot(name);
    reveal_strlit("md");
    reveal_strlit(".");
    reveal_strlit("..");
    let given = match crate::path::ext_of(body) {
        Some(ext) => {
            crate::path::lemma_ext_has_no_dot(crate::path::name_of(body)->Some_0);
            ext
        },
        None => "md"@,
    };
    assert(!given.contains('.') && !given.contains('/'));
    if crate::document::is_opaque(body) || given.len() == 0 {
        assert(given.len() == 0 ==> given =~= Seq::empty());
        crate::path::law_renamed_in_place(node, stem);
    } else {
        let new = stem.push('.') + given;
        crate::path::law_name_comes_apart(stem, given);
        assert(new.len() >= 3);
        assert(!new.contains('/')) by {
            if new.contains('/') {
                let j = choose|j: int| 0 <= j < new.len() && new[j] == '/';
                if j < stem.len() {
                    assert(stem[j] == '/');
                } else if j > stem.len() {
                    assert(given[j - stem.len() - 1] == '/');
                }
            }
        }
        crate::path::law_renamed_in_place(node, new);
    }
}

/// The content file of the document at `path`.
pub open spec fn content_file(doc: crate::document::DocView, path: Seq<char>) -> Option<Seq<char>> {
    match crate::document::content_of(doc) {
        Some(raw) => Some(crate::path::under(crate::path::parent_of(path), raw)),
        None => None,
    }
}

/// The content file of the document at `doc_path`; none where its body is in
/// its own file.
pub fn content_target(doc: &Document, doc_path: &str) -> (r: Option<String>)
    ensures
        opt_text(r) == content_file(doc@, doc_path@),
{
    match doc.content_attr() {
        Some(raw) => Some(crate::path::read_in(&crate::path::parent(doc_path), &raw)),
        None => None,
    }
}

/// The manifest of the document at `path`.
pub open spec fn manifest_file(doc: crate::document::DocView, path: Seq<char>) -> Option<
    Seq<char>,
> {
    match crate::document::manifest_of(doc) {
        Some(raw) => Some(crate::path::under(crate::path::parent_of(path), raw)),
        None => None,
    }
}

/// The manifest of the document at `doc_path`; none where it stands for itself.
pub fn manifest_target(doc: &Document, doc_path: &str) -> (r: Option<String>)
    ensures
        opt_text(r) == manifest_file(doc@, doc_path@),
{
    match doc.manifest_attr() {
        Some(raw) => Some(crate::path::read_in(&crate::path::parent(doc_path), &raw)),
        None => None,
    }
}

/// The file that travels with the document at `path`: its content file, or its
/// manifest.
pub open spec fn companion(doc: crate::document::DocView, path: Seq<char>) -> Option<Seq<char>> {
    match content_file(doc, path) {
        Some(file) => Some(file),
        None => manifest_file(doc, path),
    }
}

/// The file that travels with the document at `doc_path`.
pub fn paired_file(doc: &Document, doc_path: &str) -> (r: Option<String>)
    ensures
        opt_text(r) == companion(doc@, doc_path@),
{
    match content_target(doc, doc_path) {
        Some(file) => Some(file),
        None => manifest_target(doc, doc_path),
    }
}

/// A body at the end of a text is replaced there, and what comes before it stays.
pub proof fn law_spliced_end(head: Seq<char>, body: Seq<char>, new_body: Seq<char>)
    ensures
        spliced(head + body, body, new_body) == head + new_body,
{
    let text = head + body;
    assert(text.skip(text.len() - body.len()) =~= body);
    assert(text.take(text.len() - body.len()) =~= head);
    assert(crate::text::ends(text, body)) by {
        assert(text.subrange(text.len() - body.len(), text.len() as int) =~= body);
    }
}

/// Without a link that a rule respells, a document is as it was.
pub proof fn law_nothing_respelled(
    text: Seq<char>,
    body: Seq<char>,
    links: Seq<BodyLinkView>,
    rule: spec_fn(BodyLinkView) -> Option<Seq<char>>,
)
    requires
        forall|i: int| 0 <= i < links.len() ==> rule(#[trigger] links[i]) is None,
    ensures
        respelled_text(text, body, links, rule) == text,
    decreases links.len(),
{
    if links.len() > 0 {
        let rest = links.drop_last();
        assert forall|i: int| 0 <= i < rest.len() implies rule(#[trigger] rest[i]) is None by {
            assert(rule(links[i]) is None);
        }
        law_nothing_respelled(text, body, rest, rule);
        assert(rule(links[links.len() - 1]) is None);
    }
}

/// Paths that move with a directory land apart from each other, and come back by
/// the move back.
pub proof fn law_tree_moves_apart(from: Seq<char>, to: Seq<char>, a: Seq<char>, b: Seq<char>)
    requires
        crate::path::is_inside(from),
        crate::path::is_inside(to),
        crate::path::is_inside(a),
        crate::path::is_inside(b),
        landing(MovesView::Tree(from, to), a) is Some,
        landing(MovesView::Tree(from, to), b) is Some,
    ensures
        a != b ==> landing(MovesView::Tree(from, to), a) != landing(MovesView::Tree(from, to), b),
        landing(MovesView::Tree(to, from), landing(MovesView::Tree(from, to), a)->Some_0) == Some(
            a,
        ),
{
    crate::path::law_rebased(a, from, to);
    crate::path::law_rebased(b, from, to);
}

/// Changes that put in what they take out change nothing.
pub proof fn lemma_rebuilt_same(body: Seq<char>, changes: Seq<Change>)
    requires
        changes_spaced(changes, body.len() as int),
        forall|i: int|
            0 <= i < changes.len() ==> body.subrange(
                (#[trigger] changes[i]).start,
                changes[i].end,
            ) == changes[i].text,
    ensures
        rebuilt_front(body, changes) == body.take(changes_end(changes)),
        rebuilt(body, changes) == body,
    decreases changes.len(),
{
    if changes.len() > 0 {
        let rest = changes.drop_last();
        let n = changes.len() - 1;
        assert(changes_spaced(rest, body.len() as int)) by {
            assert forall|i: int| 0 <= i < rest.len() implies 0 <= (#[trigger] rest[i]).start
                < rest[i].end <= body.len() by {
                assert(changes[i].start < changes[i].end);
            }
            assert forall|i: int, j: int| 0 <= i < j < rest.len() implies (#[trigger] rest[i]).end
                <= (#[trigger] rest[j]).start by {
                assert(changes[i].end <= changes[j].start);
            }
        }
        assert forall|i: int| 0 <= i < rest.len() implies body.subrange(
            (#[trigger] rest[i]).start,
            rest[i].end,
        ) == rest[i].text by {
            assert(changes[i] == rest[i]);
        }
        lemma_rebuilt_same(body, rest);
        assert(0 <= changes[n].start < changes[n].end);
        if rest.len() > 0 {
            assert(changes[n - 1].end <= changes[n].start);
            assert(rest.last() == changes[n - 1]);
            assert(changes[n - 1].start < changes[n - 1].end);
        }
        assert(changes.last() == changes[n]);
        assert(rebuilt_front(body, changes) =~= body.take(changes_end(changes)));
    } else {
        assert(rebuilt_front(body, changes) =~= body.take(0));
    }
    assert(rebuilt(body, changes) =~= body);
}

/// Each change that a rule asks for is asked for by one of the links.
pub proof fn lemma_changes_from(
    links: Seq<BodyLinkView>,
    rule: spec_fn(BodyLinkView) -> Option<Seq<char>>,
    c: int,
) -> (k: int)
    requires
        0 <= c < changes_by(links, rule).len(),
    ensures
        0 <= k < links.len(),
        rule(links[k]) matches Some(text) && changes_by(links, rule)[c] == (Change {
            start: links[k].start,
            end: links[k].end,
            text,
        }),
    decreases links.len(),
{
    let rest = links.drop_last();
    if c < changes_by(rest, rule).len() {
        lemma_changes_from(rest, rule, c)
    } else {
        links.len() - 1
    }
}

} // verus!
