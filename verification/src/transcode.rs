//! Prose in another grammar: a document, or everything under one, written anew
//! and renamed, and every reference to it with it.

use crate::change::{ChangeSet, ChangeView, Rewrite, RewriteView};
use crate::document::{ContentFormat, Document};
use crate::error::{Error, Fault};
use crate::field::Movers;
use crate::maintain::{Moves, MovesView};
use crate::meta::{Meta, MetaView};
use crate::path::opt_text;
use crate::rename::moved_ids;
use crate::text::same_text;
use crate::walk::{no_texts, push_text};
use crate::workspace::{Outcome, Workspace, WsView};
use vstd::prelude::*;

verus! {

/// Prose that is to be written in another grammar.
#[derive(Debug, PartialEq, Eq)]
pub struct Transcode {
    /// The file that holds it.
    pub from: String,
    /// Where that file goes.
    pub to: String,
    /// The grammar it is in.
    pub grammar: ContentFormat,
    /// The node it is the body of, where that is another file.
    pub node: Option<String>,
}

/// What a [`Transcode`] holds.
pub struct TranscodeView {
    pub from: Seq<char>,
    pub to: Seq<char>,
    pub grammar: ContentFormat,
    pub node: Option<Seq<char>>,
}

impl View for Transcode {
    type V = TranscodeView;

    open spec fn view(&self) -> TranscodeView {
        TranscodeView {
            from: self.from@,
            to: self.to@,
            grammar: self.grammar,
            node: opt_text(self.node),
        }
    }
}

/// What plans hold.
pub open spec fn plans_view(v: Seq<Transcode>) -> Seq<TranscodeView> {
    v.map_values(|p: Transcode| p@)
}

/// The prose of the document at `path` that is to be written in another grammar;
/// none where it is in that grammar, and none where there is no prose, unless
/// the document was named.
pub open spec fn transcode_plan(
    ws: WsView,
    path: Seq<char>,
    format: ContentFormat,
    force: bool,
    named: bool,
) -> Outcome<Option<TranscodeView>> {
    match crate::workspace::loaded(ws.files, path) {
        Err(e) => Err(e),
        Ok((_, doc)) => {
            let content = crate::maintain::content_file(doc, path);
            let prose = match content {
                Some(body) => body,
                None => path,
            };
            if crate::document::is_opaque(prose) {
                if named {
                    Err(Fault::OpaqueContent(path))
                } else {
                    Ok(None)
                }
            } else {
                match crate::document::grammar(prose) {
                    None => if named {
                        Err(Fault::NoProse(path))
                    } else {
                        Ok(None)
                    },
                    Some(grammar) => if grammar == format {
                        Ok(None)
                    } else if crate::document::is_lossy(grammar, format) && !force {
                        Err(Fault::Lossy(prose, grammar, format))
                    } else {
                        Ok(
                            Some(
                                TranscodeView {
                                    from: prose,
                                    to: crate::path::with_ext(
                                        prose,
                                        crate::document::ext_of_grammar(format),
                                    ),
                                    grammar,
                                    node: if content is Some {
                                        Some(path)
                                    } else {
                                        None
                                    },
                                },
                            ),
                        )
                    },
                }
            }
        },
    }
}

/// The prose of these documents that is to be written in another grammar.
pub open spec fn transcode_plans(
    ws: WsView,
    docs: Seq<Seq<char>>,
    file: Seq<char>,
    format: ContentFormat,
    force: bool,
) -> Outcome<Seq<TranscodeView>>
    decreases docs.len(),
{
    if docs.len() == 0 {
        Ok(Seq::empty())
    } else {
        match transcode_plans(ws, docs.drop_last(), file, format, force) {
            Err(e) => Err(e),
            Ok(plans) => match transcode_plan(ws, docs.last(), format, force, docs.last() == file) {
                Err(e) => Err(e),
                Ok(None) => Ok(plans),
                Ok(Some(plan)) => Ok(plans.push(plan)),
            },
        }
    }
}

/// Where prose goes.
pub open spec fn destinations(plans: Seq<TranscodeView>) -> Seq<Seq<char>> {
    plans.map_values(|p: TranscodeView| p.to)
}

/// What is in the way of these plans: a destination that is taken, or that two of
/// them have.
pub open spec fn destination_fault(ws: WsView, plans: Seq<TranscodeView>) -> Option<
    Fault<Seq<char>>,
>
    decreases plans.len(),
{
    if plans.len() == 0 {
        None
    } else {
        match destination_fault(ws, plans.drop_last()) {
            Some(e) => Some(e),
            None => if crate::files::occupied(ws.files, plans.last().to) {
                Some(Fault::AlreadyExists(plans.last().to))
            } else if destinations(plans.drop_last()).contains(plans.last().to) {
                Some(Fault::SameDestination(plans.last().from, plans.last().to))
            } else {
                None
            },
        }
    }
}

/// The documents that move: a content file is reached by its node, not by links.
pub open spec fn node_moves(plans: Seq<TranscodeView>) -> Seq<(Seq<char>, Seq<char>)>
    decreases plans.len(),
{
    if plans.len() == 0 {
        Seq::empty()
    } else {
        let rest = node_moves(plans.drop_last());
        match plans.last().node {
            None => rest.push((plans.last().from, plans.last().to)),
            Some(_) => rest,
        }
    }
}

/// What keeps these documents from taking their identifiers along.
pub open spec fn moves_fault(ws: WsView, pairs: Seq<(Seq<char>, Seq<char>)>) -> Option<
    Fault<Seq<char>>,
>
    decreases pairs.len(),
{
    if pairs.len() == 0 {
        None
    } else {
        match moves_fault(ws, pairs.drop_last()) {
            Some(e) => Some(e),
            None => crate::separate::handover_fault(ws, pairs.last().0, pairs.last().1),
        }
    }
}

/// The identifiers when these documents have moved.
pub open spec fn all_moved_ids(
    ws: WsView,
    ids: crate::registry::IdSeq,
    pairs: Seq<(Seq<char>, Seq<char>)>,
) -> crate::registry::IdSeq
    decreases pairs.len(),
{
    if pairs.len() == 0 {
        ids
    } else {
        moved_ids(all_moved_ids(ws, ids, pairs.drop_last()), pairs.last().0, pairs.last().1)
    }
}

/// The text of a document as far as it was rewritten.
pub open spec fn staged(rewrites: Seq<RewriteView>, path: Seq<char>) -> Option<Seq<char>>
    decreases rewrites.len(),
{
    if rewrites.len() == 0 {
        None
    } else if rewrites.last().path == path {
        Some(rewrites.last().text)
    } else {
        staged(rewrites.drop_last(), path)
    }
}

/// The text of a document: as far as it was rewritten, or as it is.
pub open spec fn staged_text(ws: WsView, rewrites: Seq<RewriteView>, path: Seq<char>) -> Outcome<
    Seq<char>,
> {
    match staged(rewrites, path) {
        Some(text) => Ok(text),
        None => crate::workspace::text_at(ws.files, path),
    }
}

/// Prose in another grammar.
pub open spec fn rewritten_prose(
    path: Seq<char>,
    prose: Seq<char>,
    from: ContentFormat,
    to: ContentFormat,
) -> Outcome<Seq<char>> {
    match crate::prose::transcoded(prose, from, to) {
        Some(out) => Ok(out),
        None => Err(Fault::Content(path)),
    }
}

/// The text of a file with its prose in another grammar. A content file is prose
/// throughout; a document keeps its metadata.
pub open spec fn transcoded_text(
    ws: WsView,
    rewrites: Seq<RewriteView>,
    plan: TranscodeView,
    format: ContentFormat,
) -> Outcome<Seq<char>> {
    match staged_text(ws, rewrites, plan.from) {
        Err(e) => Err(e),
        Ok(text) => match plan.node {
            Some(_) => rewritten_prose(plan.from, text, plan.grammar, format),
            None => match crate::document::parsed(plan.from, text) {
                None => Err(Fault::Metadata(plan.from)),
                Some(doc) => match rewritten_prose(plan.from, doc.body, plan.grammar, format) {
                    Err(e) => Err(e),
                    Ok(body) => Ok(crate::maintain::spliced(text, doc.body, body)),
                },
            },
        },
    }
}

/// The text of a node that points at its content file under its new name; none
/// where it has no metadata.
pub open spec fn repointed(
    ws: WsView,
    rewrites: Seq<RewriteView>,
    node: Seq<char>,
    to: Seq<char>,
) -> Outcome<Option<Seq<char>>> {
    match staged_text(ws, rewrites, node) {
        Err(e) => Err(e),
        Ok(text) => match crate::document::parsed(node, text) {
            None => Err(Fault::Metadata(node)),
            Some(doc) => match doc.carrier {
                None => Ok(None),
                Some(carrier) => match crate::document::replace_at(
                    text,
                    carrier,
                    crate::document::key_way("content"@),
                    MetaView::Text(crate::maintain::name_or_empty(to)),
                ) {
                    Some(out) => Ok(Some(out)),
                    None => Err(Fault::Metadata(node)),
                },
            },
        },
    }
}

/// The changes with one more file in another grammar.
pub open spec fn one_transcoded(
    ws: WsView,
    cs: ChangeView,
    rewrites: Seq<RewriteView>,
    plan: TranscodeView,
    format: ContentFormat,
) -> Outcome<ChangeView> {
    match transcoded_text(ws, rewrites, plan, format) {
        Err(e) => Err(e),
        Ok(text) => {
            let moved = cs.with(crate::files::OpView::Rename(plan.from, plan.to)).with(
                crate::files::write_text(plan.to, text),
            );
            match plan.node {
                None => Ok(moved),
                Some(node) => match repointed(ws, rewrites, node, plan.to) {
                    Err(e) => Err(e),
                    Ok(None) => Ok(moved),
                    Ok(Some(out)) => Ok(moved.with(crate::files::write_text(node, out))),
                },
            }
        },
    }
}

/// The changes with these files in another grammar.
pub open spec fn all_transcoded(
    ws: WsView,
    rewrites: Seq<RewriteView>,
    plans: Seq<TranscodeView>,
    format: ContentFormat,
) -> Outcome<ChangeView>
    decreases plans.len(),
{
    if plans.len() == 0 {
        Ok(crate::change::no_change(ws))
    } else {
        match all_transcoded(ws, rewrites, plans.drop_last(), format) {
            Err(e) => Err(e),
            Ok(cs) => one_transcoded(ws, cs, rewrites, plans.last(), format),
        }
    }
}

/// Whether a plan writes this document itself.
pub open spec fn is_planned(plans: Seq<TranscodeView>, path: Seq<char>) -> bool {
    exists|i: int|
        0 <= i < plans.len() && ((#[trigger] plans[i]).from == path || plans[i].node == Some(path))
}

/// The rewrites of documents that no plan writes itself.
pub open spec fn left_over(rewrites: Seq<RewriteView>, plans: Seq<TranscodeView>) -> Seq<
    RewriteView,
>
    decreases rewrites.len(),
{
    if rewrites.len() == 0 {
        Seq::empty()
    } else {
        let rest = left_over(rewrites.drop_last(), plans);
        if is_planned(plans, rewrites.last().path) {
            rest
        } else {
            rest.push(rewrites.last())
        }
    }
}

/// The changes that these plans make, and where the prose goes; or why there are
/// none.
pub open spec fn plans_carried(
    ws: WsView,
    file: Seq<char>,
    plans: Seq<TranscodeView>,
    format: ContentFormat,
) -> Outcome<(ChangeView, Seq<Seq<char>>)> {
    let pairs = node_moves(plans);
    match destination_fault(ws, plans) {
        Some(e) => Err(e),
        None => match moves_fault(ws, pairs) {
            Some(e) => Err(e),
            None => match crate::field::inbound_rewrites(
                ws,
                file,
                MovesView::Files(pairs),
                Movers::Rewrite,
            ) {
                Err(e) => Err(e),
                Ok(rewrites) => match all_transcoded(ws, rewrites, plans, format) {
                    Err(e) => Err(e),
                    Ok(cs) => Ok(
                        (
                            cs.with_all(
                                crate::change::rewrite_ops(left_over(rewrites, plans)),
                            ).with_ids(all_moved_ids(ws, ws.ids, pairs)).along(
                                MovesView::Files(pairs),
                            ),
                            destinations(plans),
                        ),
                    ),
                },
            },
        },
    }
}

/// The changes that write a document, or everything under it, in another grammar,
/// and where the prose goes; or why there are none.
pub open spec fn content_conversion(
    ws: WsView,
    file: Seq<char>,
    format: ContentFormat,
    recursive: bool,
    force: bool,
) -> Outcome<(ChangeView, Seq<Seq<char>>)> {
    let file = crate::path::normalized(file);
    if !crate::files::occupied(ws.files, file) {
        Err(Fault::NotFound(file))
    } else {
        match transcode_plans(
            ws,
            crate::convert::covered(ws, file, recursive),
            file,
            format,
            force,
        ) {
            Err(e) => Err(e),
            Ok(plans) => if plans.len() == 0 {
                Ok((crate::change::no_change(ws), Seq::empty()))
            } else {
                plans_carried(ws, file, plans, format)
            },
        }
    }
}

proof fn lemma_plans_fail(
    ws: WsView,
    docs: Seq<Seq<char>>,
    file: Seq<char>,
    format: ContentFormat,
    force: bool,
    n: int,
)
    requires
        0 <= n <= docs.len(),
        transcode_plans(ws, docs.take(n), file, format, force) is Err,
    ensures
        transcode_plans(ws, docs, file, format, force) == transcode_plans(
            ws,
            docs.take(n),
            file,
            format,
            force,
        ),
    decreases docs.len(),
{
    if n == docs.len() {
        assert(docs.take(n) =~= docs);
    } else {
        assert(docs.drop_last().take(n) =~= docs.take(n));
        lemma_plans_fail(ws, docs.drop_last(), file, format, force, n);
    }
}

proof fn lemma_destination_fails(ws: WsView, plans: Seq<TranscodeView>, n: int)
    requires
        0 <= n <= plans.len(),
        destination_fault(ws, plans.take(n)) is Some,
    ensures
        destination_fault(ws, plans) == destination_fault(ws, plans.take(n)),
    decreases plans.len(),
{
    if n == plans.len() {
        assert(plans.take(n) =~= plans);
    } else {
        assert(plans.drop_last().take(n) =~= plans.take(n));
        lemma_destination_fails(ws, plans.drop_last(), n);
    }
}

proof fn lemma_moves_fail(ws: WsView, pairs: Seq<(Seq<char>, Seq<char>)>, n: int)
    requires
        0 <= n <= pairs.len(),
        moves_fault(ws, pairs.take(n)) is Some,
    ensures
        moves_fault(ws, pairs) == moves_fault(ws, pairs.take(n)),
    decreases pairs.len(),
{
    if n == pairs.len() {
        assert(pairs.take(n) =~= pairs);
    } else {
        assert(pairs.drop_last().take(n) =~= pairs.take(n));
        lemma_moves_fail(ws, pairs.drop_last(), n);
    }
}

proof fn lemma_transcoded_fails(
    ws: WsView,
    rewrites: Seq<RewriteView>,
    plans: Seq<TranscodeView>,
    format: ContentFormat,
    n: int,
)
    requires
        0 <= n <= plans.len(),
        all_transcoded(ws, rewrites, plans.take(n), format) is Err,
    ensures
        all_transcoded(ws, rewrites, plans, format) == all_transcoded(
            ws,
            rewrites,
            plans.take(n),
            format,
        ),
    decreases plans.len(),
{
    if n == plans.len() {
        assert(plans.take(n) =~= plans);
    } else {
        assert(plans.drop_last().take(n) =~= plans.take(n));
        lemma_transcoded_fails(ws, rewrites, plans.drop_last(), format, n);
    }
}

fn list_destinations(plans: &Vec<Transcode>) -> (r: Vec<String>)
    ensures
        crate::text::texts(r@) == destinations(plans_view(plans@)),
{
    let mut out = no_texts();
    let mut i: usize = 0;
    while i < plans.len()
        invariant
            i <= plans@.len(),
            crate::text::texts(out@).len() == i,
            forall|j: int| 0 <= j < i ==> #[trigger] crate::text::texts(out@)[j] == plans@[j].to@,
        decreases plans@.len() - i,
    {
        push_text(&mut out, plans[i].to.clone());
        i = i + 1;
    }
    proof {
        assert(crate::text::texts(out@) =~= destinations(plans_view(plans@)));
    }
    out
}

fn list_moves(plans: &Vec<Transcode>) -> (r: Vec<(String, String)>)
    ensures
        crate::maintain::pair_texts(r@) == node_moves(plans_view(plans@)),
{
    let ghost all = plans_view(plans@);
    let mut out: Vec<(String, String)> = Vec::new();
    let mut i: usize = 0;
    proof {
        assert(all.take(0) =~= Seq::empty());
        assert(crate::maintain::pair_texts(out@) =~= Seq::empty());
    }
    while i < plans.len()
        invariant
            i <= plans@.len(),
            all == plans_view(plans@),
            crate::maintain::pair_texts(out@) == node_moves(all.take(i as int)),
        decreases plans@.len() - i,
    {
        proof {
            assert(all.take(i + 1).drop_last() =~= all.take(i as int));
            assert(all.take(i + 1).last() == plans@[i as int]@);
        }
        if plans[i].node.is_none() {
            let ghost before = crate::maintain::pair_texts(out@);
            let pair = (plans[i].from.clone(), plans[i].to.clone());
            out.push(pair);
            proof {
                assert(crate::maintain::pair_texts(out@) =~= before.push((pair.0@, pair.1@)));
            }
        }
        i = i + 1;
    }
    proof {
        assert(all.take(i as int) =~= all);
    }
    out
}

pub(crate) fn find_staged(rewrites: &Vec<Rewrite>, path: &str) -> (r: Option<String>)
    ensures
        opt_text(r) == staged(crate::change::rewrites_view(rewrites@), path@),
{
    let ghost all = crate::change::rewrites_view(rewrites@);
    let mut i: usize = rewrites.len();
    proof {
        assert(all.take(i as int) =~= all);
    }
    while i > 0
        invariant
            i <= rewrites@.len(),
            all == crate::change::rewrites_view(rewrites@),
            staged(all, path@) == staged(all.take(i as int), path@),
        decreases i,
    {
        proof {
            assert(all.take(i as int).last() == rewrites@[i - 1]@);
            assert(all.take(i as int).drop_last() =~= all.take(i - 1));
        }
        if same_text(&rewrites[i - 1].path, path) {
            return Some(rewrites[i - 1].text.clone());
        }
        i = i - 1;
    }
    None
}

fn writes_itself(plans: &Vec<Transcode>, path: &str) -> (r: bool)
    ensures
        r == is_planned(plans_view(plans@), path@),
{
    let ghost all = plans_view(plans@);
    let mut i: usize = 0;
    while i < plans.len()
        invariant
            i <= plans@.len(),
            all == plans_view(plans@),
            forall|j: int|
                0 <= j < i ==> (#[trigger] all[j]).from != path@ && all[j].node != Some(path@),
        decreases plans@.len() - i,
    {
        proof {
            assert(all[i as int] == plans@[i as int]@);
        }
        let by_node = match &plans[i].node {
            Some(node) => same_text(node, path),
            None => false,
        };
        if by_node || same_text(&plans[i].from, path) {
            return true;
        }
        i = i + 1;
    }
    false
}

fn leave_over(rewrites: Vec<Rewrite>, plans: &Vec<Transcode>) -> (r: Vec<Rewrite>)
    ensures
        crate::change::rewrites_view(r@) == left_over(
            crate::change::rewrites_view(rewrites@),
            plans_view(plans@),
        ),
{
    let ghost all = crate::change::rewrites_view(rewrites@);
    let mut out: Vec<Rewrite> = Vec::new();
    let mut i: usize = 0;
    proof {
        assert(all.take(0) =~= Seq::empty());
        assert(crate::change::rewrites_view(out@) =~= Seq::empty());
    }
    while i < rewrites.len()
        invariant
            i <= rewrites@.len(),
            all == crate::change::rewrites_view(rewrites@),
            crate::change::rewrites_view(out@) == left_over(
                all.take(i as int),
                plans_view(plans@),
            ),
        decreases rewrites@.len() - i,
    {
        proof {
            assert(all.take(i + 1).drop_last() =~= all.take(i as int));
            assert(all.take(i + 1).last() == rewrites@[i as int]@);
        }
        let w = &rewrites[i];
        if !writes_itself(plans, &w.path) {
            let ghost before = crate::change::rewrites_view(out@);
            let kept = Rewrite {
                path: w.path.clone(),
                read: w.read.clone(),
                text: w.text.clone(),
            };
            out.push(kept);
            proof {
                assert(crate::change::rewrites_view(out@) =~= before.push(kept@));
            }
        }
        i = i + 1;
    }
    proof {
        assert(all.take(i as int) =~= all);
    }
    out
}

fn transcode(path: &str, prose: &str, from: ContentFormat, to: ContentFormat) -> (r: Result<
    String,
    Error,
>)
    ensures
        crate::workspace::told(r) == rewritten_prose(path@, prose@, from, to),
{
    match crate::prose::serialize_as(prose, from, to) {
        Some(out) => Ok(out),
        None => Err(Fault::Content(path.to_owned())),
    }
}

/// What an optional plan holds.
pub open spec fn plan_opt(p: Option<Transcode>) -> Option<TranscodeView> {
    match p {
        Some(p) => Some(p@),
        None => None,
    }
}

impl Workspace {
    /// The prose of the document at `path` that is to be written in another
    /// grammar; none where it is in that grammar, and none where there is no
    /// prose, unless the document was named.
    pub fn plan_transcode(&self, path: &str, format: ContentFormat, force: bool, named: bool) -> (r:
        Result<Option<Transcode>, Error>)
        ensures
            ({
                let out = transcode_plan(self@, path@, format, force, named);
                match r {
                    Ok(p) => out matches Ok(v) && v == plan_opt(p),
                    Err(e) => out matches Err(f) && f == crate::error::fault(e),
                }
            }),
    {
        let doc = match self.load(path) {
            Ok((_, doc)) => doc,
            Err(e) => {
                return Err(e);
            },
        };
        let content = crate::maintain::content_target(&doc, path);
        let (prose, node) = match content {
            Some(body) => (body, Some(path.to_owned())),
            None => (path.to_owned(), None),
        };
        if crate::document::is_opaque_payload(&prose) {
            return if named {
                Err(Fault::OpaqueContent(path.to_owned()))
            } else {
                Ok(None)
            };
        }
        let grammar = match crate::document::grammar_of(&prose) {
            Some(grammar) => grammar,
            None => {
                return if named {
                    Err(Fault::NoProse(path.to_owned()))
                } else {
                    Ok(None)
                };
            },
        };
        if grammar == format {
            return Ok(None);
        }
        if crate::document::loses(grammar, format) && !force {
            return Err(Fault::Lossy(prose, grammar, format));
        }
        let to = crate::path::with_extension(
            &prose,
            crate::document::grammar_extension(format),
        );
        Ok(Some(Transcode { from: prose, to, grammar, node }))
    }

    fn plan_all(&self, docs: &Vec<String>, file: &str, format: ContentFormat, force: bool) -> (r:
        Result<Vec<Transcode>, Error>)
        ensures
            ({
                let out = transcode_plans(
                    self@,
                    crate::text::texts(docs@),
                    file@,
                    format,
                    force,
                );
                match r {
                    Ok(plans) => out matches Ok(v) && v == plans_view(plans@),
                    Err(e) => out matches Err(f) && f == crate::error::fault(e),
                }
            }),
    {
        let ghost all = crate::text::texts(docs@);
        let mut plans: Vec<Transcode> = Vec::new();
        let mut i: usize = 0;
        proof {
            assert(all.take(0) =~= Seq::empty());
            assert(plans_view(plans@) =~= Seq::empty());
        }
        while i < docs.len()
            invariant
                i <= docs@.len(),
                all == crate::text::texts(docs@),
                transcode_plans(self@, all.take(i as int), file@, format, force) matches Ok(v) && v
                    == plans_view(plans@),
            decreases docs@.len() - i,
        {
            let path = &docs[i];
            proof {
                assert(all.take(i + 1).drop_last() =~= all.take(i as int));
                assert(all.take(i + 1).last() == path@);
            }
            match self.plan_transcode(path, format, force, same_text(path, file)) {
                Err(e) => {
                    proof {
                        lemma_plans_fail(self@, all, file@, format, force, i + 1);
                    }
                    return Err(e);
                },
                Ok(None) => {},
                Ok(Some(plan)) => {
                    let ghost before = plans_view(plans@);
                    plans.push(plan);
                    proof {
                        assert(plans_view(plans@) =~= before.push(plan@));
                    }
                },
            }
            i = i + 1;
        }
        proof {
            assert(all.take(i as int) =~= all);
        }
        Ok(plans)
    }

    fn destination_refusal(&self, plans: &Vec<Transcode>) -> (r: Option<Error>)
        ensures
            crate::files::fault_opt(r) == destination_fault(self@, plans_view(plans@)),
    {
        let ghost all = plans_view(plans@);
        let mut seen = no_texts();
        let mut i: usize = 0;
        proof {
            assert(all.take(0) =~= Seq::empty());
            assert(crate::text::texts(seen@) =~= destinations(all.take(0)));
        }
        while i < plans.len()
            invariant
                i <= plans@.len(),
                all == plans_view(plans@),
                crate::text::texts(seen@) == destinations(all.take(i as int)),
                destination_fault(self@, all.take(i as int)) is None,
            decreases plans@.len() - i,
        {
            let plan = &plans[i];
            proof {
                assert(all.take(i + 1).drop_last() =~= all.take(i as int));
                assert(all.take(i + 1).last() == plan@);
            }
            if self.is_taken(&plan.to) {
                proof {
                    lemma_destination_fails(self@, all, i + 1);
                }
                return Some(Fault::AlreadyExists(plan.to.clone()));
            }
            if crate::walk::among(&seen, &plan.to) {
                proof {
                    lemma_destination_fails(self@, all, i + 1);
                }
                return Some(Fault::SameDestination(plan.from.clone(), plan.to.clone()));
            }
            push_text(&mut seen, plan.to.clone());
            proof {
                assert(crate::text::texts(seen@) =~= destinations(all.take(i + 1)));
            }
            i = i + 1;
        }
        proof {
            assert(all.take(i as int) =~= all);
        }
        None
    }

    fn moves_refusal(&self, pairs: &Vec<(String, String)>) -> (r: Option<Error>)
        ensures
            crate::files::fault_opt(r) == moves_fault(
                self@,
                crate::maintain::pair_texts(pairs@),
            ),
    {
        let ghost all = crate::maintain::pair_texts(pairs@);
        let mut i: usize = 0;
        proof {
            assert(all.take(0) =~= Seq::empty());
        }
        while i < pairs.len()
            invariant
                i <= pairs@.len(),
                all == crate::maintain::pair_texts(pairs@),
                moves_fault(self@, all.take(i as int)) is None,
            decreases pairs@.len() - i,
        {
            proof {
                assert(all.take(i + 1).drop_last() =~= all.take(i as int));
                assert(all.take(i + 1).last() == (pairs@[i as int].0@, pairs@[i as int].1@));
            }
            match self.registry.id_for_path(&pairs[i].0) {
                Some(id) => match self.move_conflict(&id, &pairs[i].1) {
                    Some(e) => {
                        proof {
                            lemma_moves_fail(self@, all, i + 1);
                        }
                        return Some(e);
                    },
                    None => {},
                },
                None => {},
            }
            i = i + 1;
        }
        proof {
            assert(all.take(i as int) =~= all);
        }
        None
    }

    fn read_staged(&self, rewrites: &Vec<Rewrite>, path: &str) -> (r: Result<String, Error>)
        ensures
            crate::workspace::told(r) == staged_text(
                self@,
                crate::change::rewrites_view(rewrites@),
                path@,
            ),
    {
        match find_staged(rewrites, path) {
            Some(text) => Ok(text),
            None => self.read_text(path),
        }
    }

    fn transcode_text(&self, rewrites: &Vec<Rewrite>, plan: &Transcode, format: ContentFormat) -> (r:
        Result<String, Error>)
        ensures
            crate::workspace::told(r) == transcoded_text(
                self@,
                crate::change::rewrites_view(rewrites@),
                plan@,
                format,
            ),
    {
        let text = match self.read_staged(rewrites, &plan.from) {
            Ok(text) => text,
            Err(e) => {
                return Err(e);
            },
        };
        if plan.node.is_some() {
            return transcode(&plan.from, &text, plan.grammar, format);
        }
        let doc = match Document::parse(&plan.from, &text) {
            Some(doc) => doc,
            None => {
                return Err(Fault::Metadata(plan.from.clone()));
            },
        };
        match transcode(&plan.from, &doc.body, plan.grammar, format) {
            Ok(body) => Ok(crate::maintain::splice_body(&text, &doc.body, &body)),
            Err(e) => Err(e),
        }
    }

    fn repoint(&self, rewrites: &Vec<Rewrite>, node: &str, to: &str) -> (r: Result<
        Option<String>,
        Error,
    >)
        ensures
            crate::workspace::told_opt(r) == repointed(
                self@,
                crate::change::rewrites_view(rewrites@),
                node@,
                to@,
            ),
    {
        let text = match self.read_staged(rewrites, node) {
            Ok(text) => text,
            Err(e) => {
                return Err(e);
            },
        };
        let doc = match Document::parse(node, &text) {
            Some(doc) => doc,
            None => {
                return Err(Fault::Metadata(node.to_owned()));
            },
        };
        let carrier = match doc.carrier {
            Some(carrier) => carrier,
            None => {
                return Ok(None);
            },
        };
        let value = Meta::Text(crate::maintain::base_name(to));
        let key = crate::document::key_path("content");
        match crate::document::replace_value(&text, carrier, &key, &value) {
            Some(out) => Ok(Some(out)),
            None => Err(Fault::Metadata(node.to_owned())),
        }
    }

    fn transcode_one(
        &self,
        cs: &mut ChangeSet,
        rewrites: &Vec<Rewrite>,
        plan: &Transcode,
        format: ContentFormat,
    ) -> (r: Result<(), Error>)
        ensures
            ({
                let out = one_transcoded(
                    self@,
                    old(cs)@,
                    crate::change::rewrites_view(rewrites@),
                    plan@,
                    format,
                );
                match r {
                    Ok(_) => out matches Ok(c) && c == final(cs)@,
                    Err(e) => out matches Err(f) && f == crate::error::fault(e),
                }
            }),
    {
        let text = match self.transcode_text(rewrites, plan, format) {
            Ok(text) => text,
            Err(e) => {
                return Err(e);
            },
        };
        cs.rename(&plan.from, &plan.to);
        cs.write(&plan.to, &text);
        match &plan.node {
            None => {},
            Some(node) => match self.repoint(rewrites, node, &plan.to) {
                Err(e) => {
                    return Err(e);
                },
                Ok(None) => {},
                Ok(Some(out)) => {
                    cs.write(node, &out);
                },
            },
        }
        Ok(())
    }

    fn transcode_all(
        &self,
        rewrites: &Vec<Rewrite>,
        plans: &Vec<Transcode>,
        format: ContentFormat,
    ) -> (r: Result<ChangeSet, Error>)
        ensures
            ({
                let out = all_transcoded(
                    self@,
                    crate::change::rewrites_view(rewrites@),
                    plans_view(plans@),
                    format,
                );
                match r {
                    Ok(cs) => out matches Ok(c) && c == cs@,
                    Err(e) => out matches Err(f) && f == crate::error::fault(e),
                }
            }),
    {
        let ghost all = plans_view(plans@);
        let ghost known = crate::change::rewrites_view(rewrites@);
        let mut cs = self.change();
        let mut i: usize = 0;
        proof {
            assert(all.take(0) =~= Seq::empty());
        }
        while i < plans.len()
            invariant
                i <= plans@.len(),
                all == plans_view(plans@),
                known == crate::change::rewrites_view(rewrites@),
                all_transcoded(self@, known, all.take(i as int), format) matches Ok(c) && c == cs@,
            decreases plans@.len() - i,
        {
            proof {
                assert(all.take(i + 1).drop_last() =~= all.take(i as int));
                assert(all.take(i + 1).last() == plans@[i as int]@);
            }
            match self.transcode_one(&mut cs, rewrites, &plans[i], format) {
                Ok(_) => {},
                Err(e) => {
                    proof {
                        lemma_transcoded_fails(self@, known, all, format, i + 1);
                    }
                    return Err(e);
                },
            }
            i = i + 1;
        }
        proof {
            assert(all.take(i as int) =~= all);
        }
        Ok(cs)
    }

    fn hand_over_all(&self, cs: &mut ChangeSet, pairs: &Vec<(String, String)>)
        ensures
            final(cs)@ == old(cs)@.with_ids(
                all_moved_ids(self@, old(cs)@.ids, crate::maintain::pair_texts(pairs@)),
            ),
    {
        let ghost all = crate::maintain::pair_texts(pairs@);
        let ghost start = cs@;
        let mut i: usize = 0;
        proof {
            assert(all.take(0) =~= Seq::empty());
        }
        while i < pairs.len()
            invariant
                i <= pairs@.len(),
                all == crate::maintain::pair_texts(pairs@),
                cs@ == start.with_ids(all_moved_ids(self@, start.ids, all.take(i as int))),
            decreases pairs@.len() - i,
        {
            proof {
                assert(all.take(i + 1).drop_last() =~= all.take(i as int));
                assert(all.take(i + 1).last() == (pairs@[i as int].0@, pairs@[i as int].1@));
            }
            match cs.registry.id_for_path(&pairs[i].0) {
                Some(id) => {
                    cs.bind(&id, &pairs[i].1);
                },
                None => {},
            }
            i = i + 1;
        }
        proof {
            assert(all.take(i as int) =~= all);
        }
    }

    fn carry_plans(&self, file: &str, plans: &Vec<Transcode>, format: ContentFormat) -> (r: Result<
        (ChangeSet, Vec<String>),
        Error,
    >)
        ensures
            ({
                let out = plans_carried(self@, file@, plans_view(plans@), format);
                match r {
                    Ok((cs, v)) => out matches Ok((c, to)) && c == cs@ && to == crate::text::texts(
                        v@,
                    ),
                    Err(e) => out matches Err(f) && f == crate::error::fault(e),
                }
            }),
    {
        match self.destination_refusal(plans) {
            Some(e) => {
                return Err(e);
            },
            None => {},
        }
        let pairs = list_moves(plans);
        match self.moves_refusal(&pairs) {
            Some(e) => {
                return Err(e);
            },
            None => {},
        }
        let moves = Moves::Files(pairs);
        let rewrites = match self.collect_inbound_rewrites(file, &moves, Movers::Rewrite) {
            Ok(rewrites) => rewrites,
            Err(e) => {
                return Err(e);
            },
        };
        let mut cs = match self.transcode_all(&rewrites, plans, format) {
            Ok(cs) => cs,
            Err(e) => {
                return Err(e);
            },
        };
        proof {
            lemma_ids_kept(
                self@,
                crate::change::rewrites_view(rewrites@),
                plans_view(plans@),
                format,
            );
        }
        let rest = leave_over(rewrites, plans);
        cs.rewrite(&rest);
        match &moves {
            Moves::Files(pairs) => {
                self.hand_over_all(&mut cs, pairs);
            },
            Moves::Tree(_, _) => {},
        }
        cs.go_along(&moves);
        Ok((cs, list_destinations(plans)))
    }

    /// The changes that write a document, or everything under it, in another
    /// grammar, and where the prose goes.
    pub fn plan_convert_content(
        &self,
        file: &str,
        format: ContentFormat,
        recursive: bool,
        force: bool,
    ) -> (r: Result<(ChangeSet, Vec<String>), Error>)
        ensures
            ({
                let plan = content_conversion(self@, file@, format, recursive, force);
                match r {
                    Ok((cs, v)) => plan matches Ok((c, to)) && c == cs@ && to == crate::text::texts(
                        v@,
                    ),
                    Err(e) => plan matches Err(f) && f == crate::error::fault(e),
                }
            }),
    {
        let file = crate::path::normalize(file);
        if !self.is_taken(&file) {
            return Err(Fault::NotFound(file));
        }
        let docs = self.cover(&file, recursive);
        let plans = match self.plan_all(&docs, &file, format, force) {
            Ok(plans) => plans,
            Err(e) => {
                return Err(e);
            },
        };
        proof {
            assert(plans_view(plans@).len() == plans@.len());
        }
        if plans.len() == 0 {
            return Ok((self.change(), no_texts()));
        }
        self.carry_plans(&file, &plans, format)
    }

    /// Writes the prose of a document, or of everything under it, in another
    /// grammar, and renames it to match; every reference follows, and so does
    /// its identifier. Prose that would not survive goes by force only. Gives
    /// where the prose went. A refusal changes nothing.
    pub fn convert_content_format(
        &mut self,
        file: &str,
        format: ContentFormat,
        recursive: bool,
        force: bool,
    ) -> (r: Result<Vec<String>, Error>)
        ensures
            ({
                let done = crate::change::carried_out(
                    old(self)@,
                    content_conversion(old(self)@, file@, format, recursive, force),
                );
                match r {
                    Ok(v) => done matches Ok((after, to)) && after == final(self)@ && to
                        == crate::text::texts(v@),
                    Err(e) => done matches Err(f) && f == crate::error::fault(e) && *final(self)
                        == *old(self),
                }
            }),
    {
        match self.plan_convert_content(file, format, recursive, force) {
            Ok((cs, to)) => match self.commit(cs) {
                Ok(_) => Ok(to),
                Err(e) => Err(e),
            },
            Err(e) => Err(e),
        }
    }
}

proof fn lemma_ids_kept(
    ws: WsView,
    rewrites: Seq<RewriteView>,
    plans: Seq<TranscodeView>,
    format: ContentFormat,
)
    ensures
        all_transcoded(ws, rewrites, plans, format) matches Ok(cs) ==> cs.ids == ws.ids && cs.root
            == ws.root && cs.parked == ws.parked,
    decreases plans.len(),
{
    if plans.len() > 0 {
        lemma_ids_kept(ws, rewrites, plans.drop_last(), format);
    }
}

proof fn lemma_destinations(ws: WsView, plans: Seq<TranscodeView>)
    requires
        destination_fault(ws, plans) is None,
    ensures
        forall|i: int|
            0 <= i < plans.len() ==> !crate::files::occupied(ws.files, (#[trigger] plans[i]).to),
        forall|i: int, j: int|
            0 <= i < j < plans.len() ==> (#[trigger] plans[i]).to != (#[trigger] plans[j]).to,
    decreases plans.len(),
{
    if plans.len() > 0 {
        let rest = plans.drop_last();
        let n = plans.len() - 1;
        lemma_destinations(ws, rest);
        assert forall|i: int| 0 <= i < plans.len() implies !crate::files::occupied(
            ws.files,
            (#[trigger] plans[i]).to,
        ) by {
            if i < n {
                assert(plans[i] == rest[i]);
            }
        }
        assert forall|i: int, j: int| 0 <= i < j < plans.len() implies (#[trigger] plans[i]).to != (
        #[trigger] plans[j]).to by {
            assert(plans[i] == rest[i]);
            if j < n {
                assert(plans[j] == rest[j]);
            } else {
                assert(destinations(rest)[i] == plans[i].to);
            }
        }
    }
}

proof fn lemma_node_moves(plans: Seq<TranscodeView>, i: int)
    requires
        0 <= i < node_moves(plans).len(),
    ensures
        exists|j: int|
            0 <= j < plans.len() && (#[trigger] plans[j]).node is None && (plans[j].from, plans[j].to)
                == node_moves(plans)[i],
    decreases plans.len(),
{
    let rest = plans.drop_last();
    let n = plans.len() - 1;
    if i < node_moves(rest).len() {
        lemma_node_moves(rest, i);
        let j = choose|j: int|
            0 <= j < rest.len() && (#[trigger] rest[j]).node is None && (rest[j].from, rest[j].to)
                == node_moves(rest)[i];
        assert(plans[j] == rest[j]);
    } else {
        assert(plans[n].node is None);
    }
}

proof fn lemma_node_moved(plans: Seq<TranscodeView>, j: int)
    requires
        0 <= j < plans.len(),
        plans[j].node is None,
    ensures
        exists|i: int|
            0 <= i < node_moves(plans).len() && #[trigger] node_moves(plans)[i] == (
                plans[j].from,
                plans[j].to,
            ),
    decreases plans.len(),
{
    let rest = plans.drop_last();
    let all = node_moves(plans);
    if j < rest.len() {
        lemma_node_moved(rest, j);
        let few = node_moves(rest);
        let i = choose|i: int|
            0 <= i < few.len() && #[trigger] few[i] == (rest[j].from, rest[j].to);
        assert(all[i] == few[i]);
    } else {
        assert(all[all.len() - 1] == (plans[j].from, plans[j].to));
    }
}

proof fn lemma_paired(pairs: Seq<(Seq<char>, Seq<char>)>, key: Seq<char>)
    ensures
        match crate::maintain::paired_with(pairs, key) {
            Some(to) => exists|i: int| 0 <= i < pairs.len() && #[trigger] pairs[i] == (key, to),
            None => forall|i: int| 0 <= i < pairs.len() ==> (#[trigger] pairs[i]).0 != key,
        },
    decreases pairs.len(),
{
    if pairs.len() > 0 && pairs[0].0 != key {
        let rest = pairs.drop_first();
        lemma_paired(rest, key);
        match crate::maintain::paired_with(rest, key) {
            Some(to) => {
                let i = choose|i: int| 0 <= i < rest.len() && #[trigger] rest[i] == (key, to);
                assert(pairs[i + 1] == (key, to));
            },
            None => {
                assert forall|i: int| 0 <= i < pairs.len() implies (#[trigger] pairs[i]).0
                    != key by {
                    if i > 0 {
                        assert(rest[i - 1] == pairs[i]);
                    }
                }
            },
        }
    } else if pairs.len() > 0 {
        assert(pairs[0] == (key, pairs[0].1));
    }
}

proof fn lemma_staged_there(ws: WsView, rewrites: Seq<RewriteView>, path: Seq<char>)
    requires
        forall|i: int|
            0 <= i < rewrites.len() ==> crate::workspace::loaded(
                ws.files,
                (#[trigger] rewrites[i]).path,
            ) is Ok,
        staged_text(ws, rewrites, path) is Ok,
    ensures
        crate::files::lookup(ws.files, path) is Some,
    decreases rewrites.len(),
{
    if rewrites.len() > 0 {
        let n = rewrites.len() - 1;
        assert(crate::workspace::loaded(ws.files, rewrites[n].path) is Ok);
        if rewrites.last().path != path {
            let rest = rewrites.drop_last();
            assert forall|i: int| 0 <= i < rest.len() implies crate::workspace::loaded(
                ws.files,
                (#[trigger] rest[i]).path,
            ) is Ok by {
                assert(rest[i] == rewrites[i]);
            }
            lemma_staged_there(ws, rest, path);
        }
    }
}

/// Whether a plan moves this file, or writes it.
pub open spec fn is_touched(plans: Seq<TranscodeView>, path: Seq<char>) -> bool {
    exists|i: int|
        0 <= i < plans.len() && ((#[trigger] plans[i]).from == path || plans[i].to == path
            || plans[i].node == Some(path))
}

proof fn lemma_transcoded(
    ws: WsView,
    rewrites: Seq<RewriteView>,
    plans: Seq<TranscodeView>,
    format: ContentFormat,
    q: Seq<char>,
    k: int,
)
    requires
        destination_fault(ws, plans) is None,
        forall|i: int|
            0 <= i < rewrites.len() ==> crate::workspace::loaded(
                ws.files,
                (#[trigger] rewrites[i]).path,
            ) is Ok,
        all_transcoded(ws, rewrites, plans, format) matches Ok(cs) && crate::files::changed_all(
            ws.files,
            cs.ops,
        ) is Ok,
        0 <= k <= plans.len(),
    ensures
        all_transcoded(ws, rewrites, plans, format) matches Ok(cs) && crate::files::changed_all(
            ws.files,
            cs.ops,
        ) matches Ok(f) && ({
            &&& !is_touched(plans, q) ==> crate::files::lookup(f, q) == crate::files::lookup(
                ws.files,
                q,
            )
            &&& crate::files::lookup(ws.files, q) is Some && (forall|i: int|
                0 <= i < plans.len() ==> (#[trigger] plans[i]).from != q) ==> crate::files::lookup(
                f,
                q,
            ) is Some
            &&& k < plans.len() ==> (transcoded_text(ws, rewrites, plans[k], format) matches Ok(t)
                && crate::files::lookup(f, plans[k].to) == Some(crate::files::FileView::Text(t)))
        }),
        forall|i: int|
            0 <= i < plans.len() ==> crate::files::lookup(ws.files, (#[trigger] plans[i]).from)
                is Some,
    decreases plans.len(),
{
    if plans.len() > 0 {
        let rest = plans.drop_last();
        let n = plans.len() - 1;
        let plan = plans.last();
        let before = all_transcoded(ws, rewrites, rest, format)->Ok_0;
        let cs = all_transcoded(ws, rewrites, plans, format)->Ok_0;
        let text = transcoded_text(ws, rewrites, plan, format)->Ok_0;
        let data = crate::files::FileView::Text(text);
        lemma_staged_there(ws, rewrites, plan.from);
        lemma_destinations(ws, plans);
        crate::landing::law_file_is_taken(ws.files, plan.from);
        let rename = crate::files::OpView::Rename(plan.from, plan.to);
        let write = crate::files::write_text(plan.to, text);
        let a = before.ops.push(rename);
        let b = a.push(write);
        crate::landing::lemma_changed_push(ws.files, before.ops, rename);
        crate::landing::lemma_changed_push(ws.files, a, write);
        let repoint = match plan.node {
            Some(node) => repointed(ws, rewrites, node, plan.to)->Ok_0,
            None => None,
        };
        match repoint {
            Some(out) => {
                let node = plan.node->Some_0;
                lemma_staged_there(ws, rewrites, node);
                crate::landing::law_file_is_taken(ws.files, node);
                crate::landing::lemma_changed_push(
                    ws.files,
                    b,
                    crate::files::write_text(node, out),
                );
            },
            None => {},
        }
        assert(crate::files::changed_all(ws.files, before.ops) is Ok);
        assert(destination_fault(ws, rest) is None);
        lemma_transcoded(
            ws,
            rewrites,
            rest,
            format,
            q,
            if k < n {
                k
            } else {
                0
            },
        );
        let f0 = crate::files::changed_all(ws.files, before.ops)->Ok_0;
        let d = crate::files::lookup(f0, plan.from)->Some_0;
        let g0 = crate::files::without(f0, plan.from);
        let f1 = crate::files::stored(g0, plan.to, d);
        let f2 = crate::files::stored(f1, plan.to, data);
        assert forall|r: Seq<char>| r != plan.from && r != plan.to implies
            #[trigger] crate::files::lookup(f2, r) == crate::files::lookup(f0, r) by {
            crate::files::law_without(f0, plan.from, r);
            crate::files::law_stored(g0, plan.to, d, r);
            crate::files::law_stored(f1, plan.to, data, r);
        }
        crate::files::law_stored(f1, plan.to, data, plan.to);
        let f = crate::files::changed_all(ws.files, cs.ops)->Ok_0;
        match repoint {
            Some(out) => {
                let node = plan.node->Some_0;
                let other = crate::files::FileView::Text(out);
                assert forall|r: Seq<char>| r != node implies #[trigger] crate::files::lookup(f, r)
                    == crate::files::lookup(f2, r) by {
                    crate::files::law_stored(f2, node, other, r);
                }
                crate::files::law_stored(f2, node, other, node);
            },
            None => {},
        }
        assert(plans[n] == plan);
        if !is_touched(plans, q) {
            assert(!is_touched(rest, q)) by {
                if is_touched(rest, q) {
                    let i = choose|i: int|
                        0 <= i < rest.len() && ((#[trigger] rest[i]).from == q || rest[i].to == q
                            || rest[i].node == Some(q));
                    assert(plans[i] == rest[i]);
                }
            }
        }
        if crate::files::lookup(ws.files, q) is Some {
            crate::landing::law_file_is_taken(ws.files, q);
            if forall|i: int| 0 <= i < plans.len() ==> (#[trigger] plans[i]).from != q {
                assert forall|i: int| 0 <= i < rest.len() implies (#[trigger] rest[i]).from
                    != q by {
                    assert(plans[i].from != q);
                }
                assert(plans[n].from != q);
            }
        }
        if k < n {
            assert(plans[k] == rest[k]);
            assert(!crate::files::occupied(ws.files, plans[k].to));
            assert(plans[k].to != plans[n].to);
            assert(crate::files::lookup(f2, plans[k].to) == crate::files::lookup(
                f0,
                plans[k].to,
            ));
        }
        assert forall|i: int| 0 <= i < plans.len() implies crate::files::lookup(
            ws.files,
            (#[trigger] plans[i]).from,
        ) is Some by {
            if i < n {
                assert(plans[i] == rest[i]);
            }
        }
    }
}

proof fn lemma_left_over(rewrites: Seq<RewriteView>, plans: Seq<TranscodeView>, q: Seq<char>)
    requires
        crate::landing::distinct_paths(rewrites),
    ensures
        crate::landing::distinct_paths(left_over(rewrites, plans)),
        forall|i: int|
            0 <= i < left_over(rewrites, plans).len() ==> exists|j: int|
                0 <= j < rewrites.len() && #[trigger] rewrites[j] == #[trigger] left_over(
                    rewrites,
                    plans,
                )[i],
        !is_planned(plans, q) ==> forall|j: int|
            0 <= j < rewrites.len() && (#[trigger] rewrites[j]).path == q ==> left_over(
                rewrites,
                plans,
            ).contains(rewrites[j]),
    decreases rewrites.len(),
{
    if rewrites.len() > 0 {
        let rest = rewrites.drop_last();
        let n = rewrites.len() - 1;
        assert(crate::landing::distinct_paths(rest)) by {
            assert forall|i: int, j: int| 0 <= i < j < rest.len() implies (#[trigger] rest[i]).path
                != (#[trigger] rest[j]).path by {
                assert(rewrites[i].path != rewrites[j].path);
            }
        }
        lemma_left_over(rest, plans, q);
        let before = left_over(rest, plans);
        let all = left_over(rewrites, plans);
        assert forall|i: int| 0 <= i < all.len() implies exists|j: int|
            0 <= j < rewrites.len() && #[trigger] rewrites[j] == #[trigger] all[i] by {
            if i < before.len() {
                let j = choose|j: int| 0 <= j < rest.len() && #[trigger] rest[j] == before[i];
                assert(rewrites[j] == all[i]);
            } else {
                assert(rewrites[n] == all[i]);
            }
        }
        assert forall|i: int, j: int| 0 <= i < j < all.len() implies (#[trigger] all[i]).path != (
        #[trigger] all[j]).path by {
            assert(all[i] == before[i]);
            let a = choose|a: int| 0 <= a < rest.len() && #[trigger] rest[a] == before[i];
            assert(rewrites[a] == all[i]);
            if j < before.len() {
                assert(all[j] == before[j]);
            } else {
                assert(rewrites[n] == all[j]);
                assert(rewrites[a].path != rewrites[n].path);
            }
        }
        if !is_planned(plans, q) {
            assert forall|j: int|
                0 <= j < rewrites.len() && (#[trigger] rewrites[j]).path == q implies all.contains(
                rewrites[j],
            ) by {
                if j < n {
                    assert(rest[j] == rewrites[j]);
                    let i = choose|i: int| 0 <= i < before.len() && before[i] == rest[j];
                    assert(all[i] == rewrites[j]);
                } else {
                    assert(all[all.len() - 1] == rewrites[j]);
                }
            }
        }
    }
}

/// A workspace stays whole when prose is written in another grammar: a path reference
/// that reached a file, in a document that a survey of the workspace covers and that is
/// not written itself, reaches that file, or where its document has gone, as the
/// document reads afterwards; and there is a file there. A content file that goes
/// another way is reached by its node, not by links. The document reads as its edits
/// describe.
pub proof fn law_convert_keeps_reading(
    ws: WsView,
    file: Seq<char>,
    format: ContentFormat,
    plans: Seq<TranscodeView>,
    after: WsView,
    inverse: Seq<char>,
    source: Seq<char>,
    i: int,
    k: int,
)
    requires
        plans_carried(ws, file, plans, format) matches Ok((cs, _)) && crate::change::landed(ws, cs)
            matches Ok(w) && w == after,
        crate::follow::distinct_names(ws.relations.relations),
        crate::workspace::spanning_names(ws.relations) matches Ok((_, v)) && v == inverse,
        crate::walk::surveyed(ws, crate::walk::root_of(ws, file, inverse)).contains(source),
        !is_planned(plans, source),
        0 <= i < ws.relations.relations.len(),
        ({
            let moves = MovesView::Files(node_moves(plans));
            let moved = crate::field::moved_paths(ws.files, moves);
            let read = crate::workspace::loaded(ws.files, source)->Ok_0;
            let out = crate::field::followed(ws, source, read, moved, moves)->Ok_0;
            let name = ws.relations.relations[i].name;
            let raws = crate::meta::links_at(read.1.meta, name);
            let place = crate::landing::place_of(source, raws[k]);
            &&& out.1.meta == crate::follow::followed_meta(ws, source, read.1.meta, moved, moves)
            &&& 0 <= k < raws.len()
            &&& crate::landing::can_follow(ws, source, name, raws[k], moved, moves)
            &&& crate::files::lookup(ws.files, place) is Some
            &&& forall|j: int|
                0 <= j < plans.len() && (#[trigger] plans[j]).from == place ==> plans[j].node
                    is None
        }),
    ensures
        ({
            let name = ws.relations.relations[i].name;
            let read = crate::workspace::loaded(ws.files, source)->Ok_0;
            let raws = crate::meta::links_at(read.1.meta, name);
            let gone = crate::maintain::landing_or_same(
                MovesView::Files(node_moves(plans)),
                crate::landing::place_of(source, raws[k]),
            );
            crate::workspace::loaded(after.files, source) matches Ok((_, now)) && k
                < crate::meta::links_at(now.meta, name).len() && crate::follow::reaches(
                crate::meta::links_at(now.meta, name)[k],
                raws[k],
                source,
                gone,
            ) && crate::files::lookup(after.files, gone) is Some
        }),
{
    let pairs = node_moves(plans);
    let moves = MovesView::Files(pairs);
    let moved = crate::field::moved_paths(ws.files, moves);
    let rewrites = crate::field::inbound_rewrites(ws, file, moves, Movers::Rewrite)->Ok_0;
    let first = all_transcoded(ws, rewrites, plans, format)->Ok_0;
    let more = crate::change::rewrite_ops(left_over(rewrites, plans));
    let cs = (plans_carried(ws, file, plans, format)->Ok_0).0;
    assert(cs.ops =~= first.ops + more);
    crate::landing::lemma_changed_add(ws.files, first.ops, more);
    let f = crate::files::changed_all(ws.files, first.ops)->Ok_0;
    crate::landing::law_inbound_rewrites(ws, file, moves, Movers::Rewrite);
    crate::landing::law_survey_follows(ws, file, inverse, moves, Movers::Rewrite, source);
    crate::landing::law_file_is_taken(ws.files, source);
    lemma_destinations(ws, plans);
    lemma_transcoded(ws, rewrites, plans, format, source, 0);
    assert(!is_touched(plans, source)) by {
        if is_touched(plans, source) {
            let j = choose|j: int|
                0 <= j < plans.len() && ((#[trigger] plans[j]).from == source || plans[j].to
                    == source || plans[j].node == Some(source));
            assert(!crate::files::occupied(ws.files, plans[j].to));
        }
    }
    let kept = left_over(rewrites, plans);
    lemma_left_over(rewrites, plans, source);
    crate::landing::law_rewrites_land(f, kept);
    assert forall|r: int| 0 <= r < rewrites.len() && (#[trigger] rewrites[r]).path == source implies
        crate::files::lookup(after.files, source) == Some(
        crate::files::FileView::Text(rewrites[r].text),
    ) by {
        let j = choose|j: int| 0 <= j < kept.len() && kept[j] == rewrites[r];
        assert(crate::files::lookup(after.files, kept[j].path) == Some(
            crate::files::FileView::Text(kept[j].text),
        ));
    }
    if !crate::landing::rewrites_path(rewrites, source) {
        assert(!crate::landing::rewrites_path(kept, source)) by {
            if crate::landing::rewrites_path(kept, source) {
                let a = choose|a: int| 0 <= a < kept.len() && (#[trigger] kept[a]).path == source;
                let j = choose|j: int| 0 <= j < rewrites.len() && #[trigger] rewrites[j] == kept[a];
                assert(rewrites[j].path == source);
            }
        }
    }
    assert(crate::follow::settles(moved, moves)) by {
        assert forall|a: int| 0 <= a < moved.len() implies (crate::maintain::landing(
            moves,
            #[trigger] moved[a],
        ) matches Some(to) ==> !moved.contains(to)) by {
            lemma_paired(pairs, moved[a]);
            match crate::maintain::landing(moves, moved[a]) {
                Some(to) => {
                    let b = choose|b: int|
                        0 <= b < pairs.len() && #[trigger] pairs[b] == (moved[a], to);
                    lemma_node_moves(plans, b);
                    let j = choose|j: int|
                        0 <= j < plans.len() && (#[trigger] plans[j]).node is None && (
                            plans[j].from,
                            plans[j].to,
                        ) == pairs[b];
                    assert(!crate::files::occupied(ws.files, plans[j].to));
                    if moved.contains(to) {
                        let c = choose|c: int| 0 <= c < moved.len() && moved[c] == to;
                        lemma_node_moves(plans, c);
                        let e = choose|e: int|
                            0 <= e < plans.len() && (#[trigger] plans[e]).node is None && (
                                plans[e].from,
                                plans[e].to,
                            ) == pairs[c];
                        assert(crate::files::lookup(ws.files, plans[e].from) is Some);
                        crate::landing::law_file_is_taken(ws.files, to);
                    }
                },
                None => {},
            }
        }
    }
    crate::landing::law_follows_reading(
        ws,
        file,
        inverse,
        moves,
        Movers::Rewrite,
        source,
        after.files,
        i,
        k,
    );
    let name = ws.relations.relations[i].name;
    let read = crate::workspace::loaded(ws.files, source)->Ok_0;
    let raws = crate::meta::links_at(read.1.meta, name);
    let place = crate::landing::place_of(source, raws[k]);
    let gone = crate::maintain::landing_or_same(moves, place);
    lemma_paired(pairs, place);
    match crate::maintain::landing(moves, place) {
        Some(to) => {
            let b = choose|b: int| 0 <= b < pairs.len() && #[trigger] pairs[b] == (place, to);
            lemma_node_moves(plans, b);
            let j = choose|j: int|
                0 <= j < plans.len() && (#[trigger] plans[j]).node is None && (
                    plans[j].from,
                    plans[j].to,
                ) == pairs[b];
            lemma_transcoded(ws, rewrites, plans, format, place, j);
        },
        None => {
            assert forall|j: int| 0 <= j < plans.len() implies (#[trigger] plans[j]).from
                != place by {
                if plans[j].from == place {
                    lemma_node_moved(plans, j);
                    let b = choose|b: int|
                        0 <= b < pairs.len() && #[trigger] pairs[b] == (
                            plans[j].from,
                            plans[j].to,
                        );
                    assert(pairs[b].0 == place);
                }
            }
            lemma_transcoded(ws, rewrites, plans, format, place, 0);
        },
    }
    crate::landing::lemma_rewrites_write(kept);
    crate::landing::law_writes_keep(f, more, gone);
}

/// The prose that is written in another grammar is where it goes, as the grammar has
/// it; and a document keeps its metadata, with its references following what moves with
/// it.
pub proof fn law_converted_lands(
    ws: WsView,
    file: Seq<char>,
    format: ContentFormat,
    plans: Seq<TranscodeView>,
    after: WsView,
    j: int,
)
    requires
        plans_carried(ws, file, plans, format) matches Ok((cs, _)) && crate::change::landed(ws, cs)
            matches Ok(w) && w == after,
        0 <= j < plans.len(),
    ensures
        crate::field::inbound_rewrites(
            ws,
            file,
            MovesView::Files(node_moves(plans)),
            Movers::Rewrite,
        ) matches Ok(rewrites) && transcoded_text(ws, rewrites, plans[j], format) matches Ok(text)
            && crate::files::lookup(after.files, plans[j].to) == Some(
            crate::files::FileView::Text(text),
        ),
{
    let pairs = node_moves(plans);
    let moves = MovesView::Files(pairs);
    let rewrites = crate::field::inbound_rewrites(ws, file, moves, Movers::Rewrite)->Ok_0;
    let first = all_transcoded(ws, rewrites, plans, format)->Ok_0;
    let kept = left_over(rewrites, plans);
    let more = crate::change::rewrite_ops(kept);
    let cs = (plans_carried(ws, file, plans, format)->Ok_0).0;
    assert(cs.ops =~= first.ops + more);
    crate::landing::lemma_changed_add(ws.files, first.ops, more);
    let f = crate::files::changed_all(ws.files, first.ops)->Ok_0;
    crate::landing::law_inbound_rewrites(ws, file, moves, Movers::Rewrite);
    lemma_destinations(ws, plans);
    lemma_transcoded(ws, rewrites, plans, format, plans[j].to, j);
    lemma_left_over(rewrites, plans, plans[j].to);
    crate::landing::law_rewrites_land(f, kept);
    assert(!crate::landing::rewrites_path(kept, plans[j].to)) by {
        if crate::landing::rewrites_path(kept, plans[j].to) {
            let a = choose|a: int|
                0 <= a < kept.len() && (#[trigger] kept[a]).path == plans[j].to;
            let b = choose|b: int| 0 <= b < rewrites.len() && #[trigger] rewrites[b] == kept[a];
            assert(crate::workspace::loaded(ws.files, rewrites[b].path) is Ok);
            crate::landing::law_file_is_taken(ws.files, plans[j].to);
        }
    }
}

/// A document that is written in another grammar keeps its links: a path reference of
/// its own that reached another file reaches that file or where it has gone, as the
/// document reads where it goes. It stays in its directory, and reads as its edits
/// describe.
pub proof fn law_converted_keeps_reading(
    ws: WsView,
    file: Seq<char>,
    format: ContentFormat,
    plans: Seq<TranscodeView>,
    after: WsView,
    j: int,
    i: int,
    k: int,
)
    requires
        plans_carried(ws, file, plans, format) matches Ok((cs, _)) && crate::change::landed(ws, cs)
            matches Ok(w) && w == after,
        crate::follow::distinct_names(ws.relations.relations),
        0 <= i < ws.relations.relations.len(),
        0 <= j < plans.len(),
        plans[j].node is None,
        ({
            let moves = MovesView::Files(node_moves(plans));
            let moved = crate::field::moved_paths(ws.files, moves);
            let rewrites = crate::field::inbound_rewrites(ws, file, moves, Movers::Rewrite)->Ok_0;
            let source = plans[j].from;
            let name = ws.relations.relations[i].name;
            &&& crate::path::parent_of(plans[j].to) == crate::path::parent_of(source)
            &&& !crate::path::escapes(plans[j].to)
            &&& crate::follow::settles(moved, moves)
            &&& crate::workspace::loaded(ws.files, source) matches Ok((_, doc))
                && crate::document::parsed(
                plans[j].to,
                transcoded_text(ws, rewrites, plans[j], format)->Ok_0,
            ) matches Some(now) && ({
                let raws = crate::meta::links_at(doc.meta, name);
                &&& crate::meta::links_at(now.meta, name) == crate::meta::links_at(
                    crate::follow::followed_meta(ws, source, doc.meta, moved, moves),
                    name,
                )
                &&& 0 <= k < raws.len()
                &&& crate::landing::can_follow(ws, source, name, raws[k], moved, moves)
            })
        }),
    ensures
        ({
            let name = ws.relations.relations[i].name;
            let doc = (crate::workspace::loaded(ws.files, plans[j].from)->Ok_0).1;
            let raws = crate::meta::links_at(doc.meta, name);
            crate::workspace::loaded(after.files, plans[j].to) matches Ok((_, now)) && k
                < crate::meta::links_at(now.meta, name).len() && crate::follow::reaches(
                crate::meta::links_at(now.meta, name)[k],
                raws[k],
                plans[j].to,
                crate::maintain::landing_or_same(
                    MovesView::Files(node_moves(plans)),
                    crate::landing::place_of(plans[j].from, raws[k]),
                ),
            )
        }),
{
    let moves = MovesView::Files(node_moves(plans));
    let moved = crate::field::moved_paths(ws.files, moves);
    let source = plans[j].from;
    let doc = (crate::workspace::loaded(ws.files, source)->Ok_0).1;
    law_converted_lands(ws, file, format, plans, after, j);
    crate::follow::law_followed_document(ws, source, doc.meta, moved, moves, i, k);
}

/// The root goes along with a document that is renamed for its grammar, and so do the
/// parked directories.
pub proof fn law_conversion_carries_root(
    ws: WsView,
    file: Seq<char>,
    format: ContentFormat,
    recursive: bool,
    force: bool,
    plans: Seq<TranscodeView>,
    after: WsView,
)
    requires
        content_conversion(ws, file, format, recursive, force) matches Ok((cs, _)) && (
        crate::change::landed(ws, cs) matches Ok(w) && w == after),
        transcode_plans(
            ws,
            crate::convert::covered(ws, crate::path::normalized(file), recursive),
            crate::path::normalized(file),
            format,
            force,
        ) matches Ok(p) && p == plans,
    ensures
        after.root == crate::change::root_along(ws.root, MovesView::Files(node_moves(plans))),
        after.parked == crate::change::all_along(ws.parked, MovesView::Files(node_moves(plans))),
{
    let moves = MovesView::Files(node_moves(plans));
    if plans.len() == 0 {
        assert(node_moves(plans).len() == 0);
        assert(crate::change::all_along(ws.parked, moves) =~= ws.parked);
    } else {
        let f = crate::path::normalized(file);
        let rewrites = crate::field::inbound_rewrites(ws, f, moves, Movers::Rewrite)->Ok_0;
        lemma_ids_kept(ws, rewrites, plans, format);
    }
}

/// The file that holds the prose of a document: its content file, or the document itself.
pub open spec fn prose_of(path: Seq<char>, doc: crate::document::DocView) -> Seq<char> {
    match crate::meta::text_field(doc.meta, "content"@) {
        Some(raw) => crate::path::under(crate::path::parent_of(path), raw),
        None => path,
    }
}

/// Whether the prose of a document is in another grammar.
pub open spec fn is_foreign(ws: WsView, path: Seq<char>, format: ContentFormat) -> bool {
    crate::workspace::loaded(ws.files, path) matches Ok((_, doc)) && !crate::document::is_opaque(
        prose_of(path, doc),
    ) && (crate::document::grammar(prose_of(path, doc)) matches Some(g) && g != format)
}

/// Where the prose of a document goes: beside where it is, under the extension of the
/// grammar.
pub open spec fn goes_to(ws: WsView, path: Seq<char>, format: ContentFormat) -> Seq<char> {
    crate::path::with_ext(
        prose_of(path, (crate::workspace::loaded(ws.files, path)->Ok_0).1),
        crate::document::ext_of_grammar(format),
    )
}

/// The document whose prose a plan writes.
pub open spec fn origin(plan: TranscodeView) -> Seq<char> {
    match plan.node {
        Some(node) => node,
        None => plan.from,
    }
}

proof fn lemma_plans(
    ws: WsView,
    docs: Seq<Seq<char>>,
    file: Seq<char>,
    format: ContentFormat,
    force: bool,
)
    requires
        docs.no_duplicates(),
        transcode_plans(ws, docs, file, format, force) is Ok,
    ensures
        ({
            let plans = transcode_plans(ws, docs, file, format, force)->Ok_0;
            &&& forall|i: int|
                0 <= i < plans.len() ==> docs.contains(origin(#[trigger] plans[i]))
                    && transcode_plan(
                    ws,
                    origin(plans[i]),
                    format,
                    force,
                    origin(plans[i]) == file,
                ) == Ok::<Option<TranscodeView>, Fault<Seq<char>>>(Some(plans[i]))
            &&& forall|i: int, k: int|
                0 <= i < k < plans.len() ==> origin(#[trigger] plans[i]) != origin(
                    #[trigger] plans[k],
                )
            &&& forall|j: int|
                0 <= j < docs.len() && is_foreign(ws, #[trigger] docs[j], format) ==> exists|i: int|
                    0 <= i < plans.len() && origin(#[trigger] plans[i]) == docs[j]
            &&& destinations(plans) == docs.filter(
                |d: Seq<char>| is_foreign(ws, d, format),
            ).map_values(|d: Seq<char>| goes_to(ws, d, format))
        }),
    decreases docs.len(),
{
    reveal(Seq::filter);
    let plans = transcode_plans(ws, docs, file, format, force)->Ok_0;
    let due = |d: Seq<char>| is_foreign(ws, d, format);
    let place = |d: Seq<char>| goes_to(ws, d, format);
    if docs.len() == 0 {
        assert(destinations(plans) =~= docs.filter(due).map_values(place));
    } else {
        let rest = docs.drop_last();
        let last = docs.last();
        let n = docs.len() - 1;
        lemma_plans(ws, rest, file, format, force);
        let few = transcode_plans(ws, rest, file, format, force)->Ok_0;
        let more = transcode_plan(ws, last, format, force, last == file)->Ok_0;
        assert(more is Some <==> is_foreign(ws, last, format));
        assert(docs[n] == last);
        assert forall|i: int| 0 <= i < few.len() implies docs.contains(
            origin(#[trigger] few[i]),
        ) && origin(few[i]) != last by {
            assert(rest.contains(origin(few[i])));
            let k = choose|k: int| 0 <= k < rest.len() && rest[k] == origin(few[i]);
            assert(docs[k] == rest[k]);
            assert(docs[k] != docs[n]);
        }
        assert forall|j: int|
            0 <= j < docs.len() && is_foreign(ws, #[trigger] docs[j], format) implies exists|
            i: int,
        | 0 <= i < plans.len() && origin(#[trigger] plans[i]) == docs[j] by {
            if j < n {
                assert(rest[j] == docs[j]);
                let i = choose|i: int| 0 <= i < few.len() && origin(#[trigger] few[i]) == rest[j];
                assert(plans[i] == few[i]);
            } else {
                assert(plans[few.len() as int] == more->Some_0);
            }
        }
        assert(destinations(plans) =~= docs.filter(due).map_values(place)) by {
            match more {
                Some(plan) => {
                    assert(destinations(plans) =~= destinations(few).push(plan.to));
                    assert(rest.filter(due).push(last).map_values(place) =~= rest.filter(
                        due,
                    ).map_values(place).push(place(last)));
                },
                None => {},
            }
        }
    }
}

proof fn lemma_transcoded_places(
    ws: WsView,
    rewrites: Seq<RewriteView>,
    plans: Seq<TranscodeView>,
    format: ContentFormat,
    k: int,
)
    requires
        destination_fault(ws, plans) is None,
        forall|i: int|
            0 <= i < rewrites.len() ==> crate::workspace::loaded(
                ws.files,
                (#[trigger] rewrites[i]).path,
            ) is Ok,
        all_transcoded(ws, rewrites, plans, format) matches Ok(cs) && crate::files::changed_all(
            ws.files,
            cs.ops,
        ) is Ok,
        0 <= k < plans.len(),
    ensures
        all_transcoded(ws, rewrites, plans, format) matches Ok(cs) && crate::files::changed_all(
            ws.files,
            cs.ops,
        ) matches Ok(f) && ({
            &&& (forall|i: int|
                0 <= i < plans.len() ==> (#[trigger] plans[i]).node != Some(plans[k].from))
                ==> crate::files::lookup(f, plans[k].from) is None
            &&& plans[k].node matches Some(node) ==> repointed(
                ws,
                rewrites,
                node,
                plans[k].to,
            ) is Ok && ((forall|i: int|
                0 <= i < plans.len() ==> (#[trigger] plans[i]).from != node && (i != k
                    ==> plans[i].node != Some(node))) ==> crate::files::lookup(f, node) == (
            match repointed(ws, rewrites, node, plans[k].to)->Ok_0 {
                Some(out) => Some(crate::files::FileView::Text(out)),
                None => crate::files::lookup(ws.files, node),
            }))
        }),
    decreases plans.len(),
{
    let rest = plans.drop_last();
    let n = plans.len() - 1;
    let plan = plans.last();
    assert(plans[n] == plan);
    let before = all_transcoded(ws, rewrites, rest, format)->Ok_0;
    let cs = all_transcoded(ws, rewrites, plans, format)->Ok_0;
    let text = transcoded_text(ws, rewrites, plan, format)->Ok_0;
    let data = crate::files::FileView::Text(text);
    lemma_staged_there(ws, rewrites, plan.from);
    lemma_destinations(ws, plans);
    crate::landing::law_file_is_taken(ws.files, plan.from);
    lemma_transcoded(ws, rewrites, plans, format, plan.from, 0);
    crate::landing::law_file_is_taken(ws.files, plans[k].from);
    let rename = crate::files::OpView::Rename(plan.from, plan.to);
    let write = crate::files::write_text(plan.to, text);
    let a = before.ops.push(rename);
    let b = a.push(write);
    crate::landing::lemma_changed_push(ws.files, before.ops, rename);
    crate::landing::lemma_changed_push(ws.files, a, write);
    let repoint = match plan.node {
        Some(node) => repointed(ws, rewrites, node, plan.to)->Ok_0,
        None => None,
    };
    match repoint {
        Some(out) => {
            let node = plan.node->Some_0;
            lemma_staged_there(ws, rewrites, node);
            crate::landing::law_file_is_taken(ws.files, node);
            crate::landing::lemma_changed_push(ws.files, b, crate::files::write_text(node, out));
        },
        None => {},
    }
    assert(destination_fault(ws, rest) is None);
    let f0 = crate::files::changed_all(ws.files, before.ops)->Ok_0;
    let d = crate::files::lookup(f0, plan.from)->Some_0;
    let g0 = crate::files::without(f0, plan.from);
    let f1 = crate::files::stored(g0, plan.to, d);
    let f2 = crate::files::stored(f1, plan.to, data);
    let f = crate::files::changed_all(ws.files, cs.ops)->Ok_0;
    assert forall|r: Seq<char>| r != plan.from && r != plan.to implies #[trigger] crate::files::lookup(
        f2,
        r,
    ) == crate::files::lookup(f0, r) by {
        crate::files::law_without(f0, plan.from, r);
        crate::files::law_stored(g0, plan.to, d, r);
        crate::files::law_stored(f1, plan.to, data, r);
    }
    assert(crate::files::lookup(f2, plan.from) is None) by {
        assert(plan.from != plan.to);
        crate::files::law_without(f0, plan.from, plan.from);
        crate::files::law_stored(g0, plan.to, d, plan.from);
        crate::files::law_stored(f1, plan.to, data, plan.from);
    }
    match repoint {
        Some(out) => {
            let node = plan.node->Some_0;
            let other = crate::files::FileView::Text(out);
            assert forall|r: Seq<char>| r != node implies #[trigger] crate::files::lookup(f, r)
                == crate::files::lookup(f2, r) by {
                crate::files::law_stored(f2, node, other, r);
            }
            crate::files::law_stored(f2, node, other, node);
        },
        None => {},
    }
    if k < n {
        assert(plans[k] == rest[k]);
        lemma_transcoded_places(ws, rewrites, rest, format, k);
        if forall|i: int| 0 <= i < plans.len() ==> (#[trigger] plans[i]).node != Some(
            plans[k].from,
        ) {
            assert forall|i: int| 0 <= i < rest.len() implies (#[trigger] rest[i]).node != Some(
                rest[k].from,
            ) by {
                assert(plans[i] == rest[i]);
            }
            assert(plans[n].node != Some(plans[k].from));
            assert(plans[n].to != plans[k].from);
            assert(crate::files::lookup(f, plans[k].from) is None);
        }
    }
    match plans[k].node {
        Some(node) => {
            if k < n {
                lemma_repointed_there(ws, rewrites, node, plans[k].to);
            } else {
                lemma_repointed_there(ws, rewrites, node, plan.to);
            }
            crate::landing::law_file_is_taken(ws.files, node);
            if forall|i: int|
                0 <= i < plans.len() ==> (#[trigger] plans[i]).from != node && (i != k
                    ==> plans[i].node != Some(node)) {
                assert(plans[n].from != node);
                assert(plans[n].to != node);
                if k < n {
                    assert(plans[n].node != Some(node));
                    assert forall|i: int| 0 <= i < rest.len() implies (#[trigger] rest[i]).from
                        != node && (i != k ==> rest[i].node != Some(node)) by {
                        assert(plans[i] == rest[i]);
                    }
                } else {
                    if rest.len() > 0 {
                        lemma_transcoded(ws, rewrites, rest, format, node, 0);
                        assert(!is_touched(rest, node)) by {
                            if is_touched(rest, node) {
                                let i = choose|i: int|
                                    0 <= i < rest.len() && ((#[trigger] rest[i]).from == node
                                        || rest[i].to == node || rest[i].node == Some(node));
                                assert(plans[i] == rest[i]);
                                assert(!crate::files::occupied(ws.files, plans[i].to));
                            }
                        }
                    } else {
                        assert(before.ops =~= Seq::empty());
                    }
                }
            }
        },
        None => {},
    }
}

proof fn lemma_repointed_there(
    ws: WsView,
    rewrites: Seq<RewriteView>,
    node: Seq<char>,
    to: Seq<char>,
)
    requires
        forall|i: int|
            0 <= i < rewrites.len() ==> crate::workspace::loaded(
                ws.files,
                (#[trigger] rewrites[i]).path,
            ) is Ok,
        repointed(ws, rewrites, node, to) is Ok,
    ensures
        crate::files::lookup(ws.files, node) is Some,
{
    lemma_staged_there(ws, rewrites, node);
}

proof fn lemma_staged_reads(
    ws: WsView,
    anchor: Seq<char>,
    moves: MovesView,
    path: Seq<char>,
) -> (touches: Seq<crate::reading::Touch>)
    requires
        crate::field::inbound_rewrites(ws, anchor, moves, Movers::Rewrite) matches Ok(rewrites)
            && staged_text(ws, rewrites, path) is Ok,
        crate::follow::distinct_names(ws.relations.relations),
        crate::workspace::loaded(ws.files, path) is Ok,
    ensures
        ({
            let rewrites = crate::field::inbound_rewrites(
                ws,
                anchor,
                moves,
                Movers::Rewrite,
            )->Ok_0;
            let held = staged_text(ws, rewrites, path)->Ok_0;
            let moved = crate::field::moved_paths(ws.files, moves);
            let (text, doc) = crate::workspace::loaded(ws.files, path)->Ok_0;
            let inverse = (crate::workspace::spanning_names(ws.relations)->Ok_0).1;
            let surveyed = crate::walk::surveyed(
                ws,
                crate::walk::root_of(ws, anchor, inverse),
            ).contains(path);
            &&& !surveyed || moved == seq![path] || moved.len() == 0 ==> held == text
            &&& surveyed && crate::reading::reads_through(path, text, touches)
                ==> crate::reading::all_touched(text, doc.carrier, touches) == Some(held)
                && crate::document::parsed(path, held) == Some(
                crate::document::DocView {
                    meta: crate::follow::followed_meta(ws, path, doc.meta, moved, moves),
                    body: crate::following::followed_body(ws, path, doc.body, moved, moves),
                    ..doc
                },
            )
        }),
{
    let rewrites = crate::field::inbound_rewrites(ws, anchor, moves, Movers::Rewrite)->Ok_0;
    let moved = crate::field::moved_paths(ws.files, moves);
    let read = crate::workspace::loaded(ws.files, path)->Ok_0;
    let inverse = (crate::workspace::spanning_names(ws.relations)->Ok_0).1;
    let root = crate::walk::root_of(ws, anchor, inverse);
    let docs = crate::walk::surveyed(ws, root);
    crate::landing::law_inbound_rewrites(ws, anchor, moves, Movers::Rewrite);
    lemma_staged_is(rewrites, path);
    if docs.contains(path) {
        crate::landing::law_survey_follows(ws, anchor, inverse, moves, Movers::Rewrite, path);
        let touches = crate::following::law_followed_touches(ws, path, read, moved, moves);
        let out = crate::field::followed(ws, path, read, moved, moves)->Ok_0;
        crate::landing::law_followed_reads(ws, path, read, moved, moves);
        if out.0 != read.0 {
            let wanted = RewriteView { path, read: read.0, text: out.0 };
            let r = choose|r: int| 0 <= r < rewrites.len() && #[trigger] rewrites[r] == wanted;
            assert(rewrites[r].path == path);
        }
        if moved == seq![path] {
            reveal_with_fuel(crate::field::followed, 2);
            assert(moved.drop_last() =~= Seq::empty());
        }
        touches
    } else {
        crate::landing::law_rewritten_are_surveyed(ws, anchor, inverse, moves, Movers::Rewrite);
        assert(!crate::landing::rewrites_path(rewrites, path)) by {
            if crate::landing::rewrites_path(rewrites, path) {
                let r = choose|r: int|
                    0 <= r < rewrites.len() && (#[trigger] rewrites[r]).path == path;
                assert(docs.contains(rewrites[r].path));
            }
        }
        Seq::empty()
    }
}

proof fn lemma_staged_is(rewrites: Seq<RewriteView>, path: Seq<char>)
    requires
        crate::landing::distinct_paths(rewrites),
    ensures
        forall|r: int|
            0 <= r < rewrites.len() && (#[trigger] rewrites[r]).path == path ==> staged(
                rewrites,
                path,
            ) == Some(rewrites[r].text),
        !crate::landing::rewrites_path(rewrites, path) ==> staged(rewrites, path) is None,
    decreases rewrites.len(),
{
    if rewrites.len() > 0 {
        let rest = rewrites.drop_last();
        let n = rewrites.len() - 1;
        assert(crate::landing::distinct_paths(rest)) by {
            assert forall|i: int, j: int| 0 <= i < j < rest.len() implies (#[trigger] rest[i]).path
                != (#[trigger] rest[j]).path by {
                assert(rewrites[i].path != rewrites[j].path);
            }
        }
        lemma_staged_is(rest, path);
        assert forall|r: int|
            0 <= r < rewrites.len() && (#[trigger] rewrites[r]).path == path implies staged(
            rewrites,
            path,
        ) == Some(rewrites[r].text) by {
            if r < n {
                assert(rest[r] == rewrites[r]);
                assert(rewrites[r].path != rewrites[n].path);
            }
        }
        if !crate::landing::rewrites_path(rewrites, path) {
            assert(rewrites[n].path != path);
            assert(!crate::landing::rewrites_path(rest, path)) by {
                if crate::landing::rewrites_path(rest, path) {
                    let r = choose|r: int| 0 <= r < rest.len() && (#[trigger] rest[r]).path == path;
                    assert(rewrites[r].path == path);
                }
            }
        }
    }
}

/// Whether a document holds its own prose, in another grammar.
pub open spec fn is_own_foreign(ws: WsView, path: Seq<char>, format: ContentFormat) -> bool {
    is_foreign(ws, path, format) && crate::meta::text_field(
        (crate::workspace::loaded(ws.files, path)->Ok_0).1.meta,
        "content"@,
    ) is None
}

/// The documents that move when these are written in a grammar, and where they go: those
/// that hold their own prose.
pub open spec fn moves_with(ws: WsView, docs: Seq<Seq<char>>, format: ContentFormat) -> MovesView {
    MovesView::Files(
        docs.filter(|d: Seq<char>| is_own_foreign(ws, d, format)).map_values(
            |d: Seq<char>| (d, goes_to(ws, d, format)),
        ),
    )
}

proof fn lemma_moves_with(
    ws: WsView,
    docs: Seq<Seq<char>>,
    file: Seq<char>,
    format: ContentFormat,
    force: bool,
)
    requires
        transcode_plans(ws, docs, file, format, force) is Ok,
    ensures
        MovesView::Files(node_moves(transcode_plans(ws, docs, file, format, force)->Ok_0))
            == moves_with(ws, docs, format),
    decreases docs.len(),
{
    reveal(Seq::filter);
    let plans = transcode_plans(ws, docs, file, format, force)->Ok_0;
    let own = |d: Seq<char>| is_own_foreign(ws, d, format);
    let pair = |d: Seq<char>| (d, goes_to(ws, d, format));
    if docs.len() == 0 {
        assert(node_moves(plans) =~= docs.filter(own).map_values(pair));
    } else {
        let rest = docs.drop_last();
        let last = docs.last();
        lemma_moves_with(ws, rest, file, format, force);
        let few = transcode_plans(ws, rest, file, format, force)->Ok_0;
        assert(few.push(transcode_plan(ws, last, format, force, last == file)->Ok_0->Some_0)
            .drop_last() =~= few);
        assert(rest.filter(own).push(last).map_values(pair) =~= rest.filter(own).map_values(
            pair,
        ).push(pair(last)));
    }
}

/// Whether a text is what a document holds when it has followed what moves: where these
/// edits read back, they make it, and it reads with its relations and its body led after
/// what moves.
pub open spec fn follows_by(
    ws: WsView,
    moves: MovesView,
    path: Seq<char>,
    held: Seq<char>,
    touches: Seq<crate::reading::Touch>,
) -> bool {
    crate::workspace::loaded(ws.files, path) matches Ok((text, doc)) && (
    crate::reading::reads_through(path, text, touches) ==> crate::reading::all_touched(
        text,
        doc.carrier,
        touches,
    ) == Some(held) && crate::document::parsed(path, held) == Some(
        crate::document::DocView {
            meta: crate::follow::followed_meta(
                ws,
                path,
                doc.meta,
                crate::field::moved_paths(ws.files, moves),
                moves,
            ),
            body: crate::following::followed_body(
                ws,
                path,
                doc.body,
                crate::field::moved_paths(ws.files, moves),
                moves,
            ),
            ..doc
        },
    ))
}

/// Whether a text is what a file holds when documents move: what it held, where it is no
/// document that a survey covers, or where nothing moves but itself; and else what it holds
/// when it has followed what moves.
pub open spec fn holds_then(
    ws: WsView,
    anchor: Seq<char>,
    inverse: Seq<char>,
    moves: MovesView,
    path: Seq<char>,
    held: Seq<char>,
) -> bool {
    let surveyed = crate::walk::surveyed(ws, crate::walk::root_of(ws, anchor, inverse)).contains(
        path,
    );
    let moved = crate::field::moved_paths(ws.files, moves);
    &&& !surveyed || moved == seq![path] || moved.len() == 0 ==> crate::files::lookup(
        ws.files,
        path,
    ) == Some(crate::files::FileView::Text(held))
    &&& surveyed ==> exists|touches: Seq<crate::reading::Touch>| #[trigger] follows_by(
        ws,
        moves,
        path,
        held,
        touches,
    )
}

proof fn lemma_holds_then(
    ws: WsView,
    anchor: Seq<char>,
    inverse: Seq<char>,
    moves: MovesView,
    path: Seq<char>,
)
    requires
        crate::workspace::spanning_names(ws.relations) matches Ok((_, v)) && v == inverse,
        crate::follow::distinct_names(ws.relations.relations),
        crate::field::inbound_rewrites(ws, anchor, moves, Movers::Rewrite) matches Ok(rewrites)
            && staged_text(ws, rewrites, path) is Ok,
    ensures
        holds_then(
            ws,
            anchor,
            inverse,
            moves,
            path,
            staged_text(
                ws,
                crate::field::inbound_rewrites(ws, anchor, moves, Movers::Rewrite)->Ok_0,
                path,
            )->Ok_0,
        ),
{
    let rewrites = crate::field::inbound_rewrites(ws, anchor, moves, Movers::Rewrite)->Ok_0;
    let held = staged_text(ws, rewrites, path)->Ok_0;
    let root = crate::walk::root_of(ws, anchor, inverse);
    let docs = crate::walk::surveyed(ws, root);
    crate::landing::law_walk(ws, Some(crate::walk::all_named(ws.files)), root);
    if docs.contains(path) {
        let j = choose|j: int| 0 <= j < docs.len() && docs[j] == path;
        assert(crate::workspace::loaded(ws.files, docs[j]) is Ok);
        let touches = lemma_staged_reads(ws, anchor, moves, path);
        assert(follows_by(ws, moves, path, held, touches));
    } else {
        crate::landing::law_inbound_rewrites(ws, anchor, moves, Movers::Rewrite);
        crate::landing::law_rewritten_are_surveyed(ws, anchor, inverse, moves, Movers::Rewrite);
        lemma_staged_is(rewrites, path);
        assert(!crate::landing::rewrites_path(rewrites, path)) by {
            if crate::landing::rewrites_path(rewrites, path) {
                let r = choose|r: int|
                    0 <= r < rewrites.len() && (#[trigger] rewrites[r]).path == path;
                assert(docs.contains(rewrites[r].path));
            }
        }
    }
}

/// The documents that a conversion covers: the one that is named, or its subtree.
pub open spec fn reach_of(ws: WsView, file: Seq<char>, recursive: bool) -> Seq<Seq<char>> {
    if recursive {
        crate::walk::subtree(ws, crate::path::normalized(file))
    } else {
        seq![crate::path::normalized(file)]
    }
}

/// Prose that is written in another grammar is, for every grammar, exactly what the writer
/// of that grammar gives for it, in a file of its name with the extension of the grammar.
/// A content file holds nothing else. A document holds it in place of its prose: what
/// stood before the prose, its metadata block, stands before it still. What would lose
/// something is written only by force.
pub proof fn law_prose_is_converted(
    ws: WsView,
    file: Seq<char>,
    format: ContentFormat,
    recursive: bool,
    force: bool,
    after: WsView,
    inverse: Seq<char>,
    d: Seq<char>,
)
    requires
        content_conversion(ws, file, format, recursive, force) matches Ok((cs, _)) && (
        crate::change::landed(ws, cs) matches Ok(w) && w == after),
        crate::workspace::spanning_names(ws.relations) matches Ok((_, v)) && v == inverse,
        crate::follow::distinct_names(ws.relations.relations),
        reach_of(ws, file, recursive).contains(d),
        is_foreign(ws, d, format),
    ensures
        ({
            let docs = reach_of(ws, file, recursive);
            let (_, doc) = crate::workspace::loaded(ws.files, d)->Ok_0;
            let prose = prose_of(d, doc);
            let g = crate::document::grammar(prose)->Some_0;
            let to = goes_to(ws, d, format);
            &&& crate::document::is_lossy(g, format) ==> force
            &&& crate::files::lookup(ws.files, to) is None
            &&& exists|held: Seq<char>|
                {
                    &&& #[trigger] holds_then(
                        ws,
                        crate::path::normalized(file),
                        inverse,
                        moves_with(ws, docs, format),
                        prose,
                        held,
                    )
                    &&& if crate::meta::text_field(doc.meta, "content"@) is Some {
                        crate::prose::transcoded(held, g, format) matches Some(out)
                            && crate::files::lookup(after.files, to) == Some(
                            crate::files::FileView::Text(out),
                        )
                    } else {
                        crate::document::parsed(d, held) matches Some(mid) && (
                        crate::prose::transcoded(mid.body, g, format) matches Some(out) && ({
                            &&& forall|head: Seq<char>|
                                held == #[trigger] (head + mid.body) ==> crate::files::lookup(
                                    after.files,
                                    to,
                                ) == Some(crate::files::FileView::Text(head + out))
                            &&& crate::reading::touched(
                                held,
                                mid.carrier,
                                crate::reading::Touch::Body(mid.body, out),
                            ) matches Some(text) && crate::files::lookup(after.files, to) == Some(
                                crate::files::FileView::Text(text),
                            )
                        }))
                    }
                }
        }),
{
    let f = crate::path::normalized(file);
    let docs = reach_of(ws, file, recursive);
    let (text, doc) = crate::workspace::loaded(ws.files, d)->Ok_0;
    let prose = prose_of(d, doc);
    let g = crate::document::grammar(prose)->Some_0;
    let to = goes_to(ws, d, format);
    assert(docs == crate::convert::covered(ws, f, recursive));
    crate::landing::law_walk(ws, None, f);
    assert(docs.no_duplicates());
    let plans = transcode_plans(ws, docs, f, format, force)->Ok_0;
    let j = lemma_plan_of(ws, docs, f, format, force, d);
    lemma_moves_with(ws, docs, f, format, force);
    law_converted_lands(ws, f, format, plans, after, j);
    let moves = MovesView::Files(node_moves(plans));
    let rewrites = crate::field::inbound_rewrites(ws, f, moves, Movers::Rewrite)->Ok_0;
    let held = staged_text(ws, rewrites, prose)->Ok_0;
    lemma_holds_then(ws, f, inverse, moves, prose);
    lemma_destinations(ws, plans);
    assert(!crate::files::occupied(ws.files, plans[j].to));
    if crate::files::lookup(ws.files, to) is Some {
        crate::landing::law_file_is_taken(ws.files, to);
    }
    if crate::meta::text_field(doc.meta, "content"@) is None {
        let mid = crate::document::parsed(d, held)->Some_0;
        let out = crate::prose::transcoded(mid.body, g, format)->Some_0;
        assert forall|head: Seq<char>| held == #[trigger] (head + mid.body) implies
            crate::files::lookup(after.files, to) == Some(
            crate::files::FileView::Text(head + out),
        ) by {
            crate::maintain::law_spliced_end(head, mid.body, out);
        }
    }
}

proof fn lemma_left_unplanned(rewrites: Seq<RewriteView>, plans: Seq<TranscodeView>)
    ensures
        forall|i: int|
            0 <= i < left_over(rewrites, plans).len() ==> !is_planned(
                plans,
                (#[trigger] left_over(rewrites, plans)[i]).path,
            ),
    decreases rewrites.len(),
{
    if rewrites.len() > 0 {
        let rest = left_over(rewrites.drop_last(), plans);
        let all = left_over(rewrites, plans);
        lemma_left_unplanned(rewrites.drop_last(), plans);
        assert forall|i: int| 0 <= i < all.len() implies !is_planned(
            plans,
            (#[trigger] all[i]).path,
        ) by {
            if i < rest.len() {
                assert(all[i] == rest[i]);
            }
        }
    }
}

proof fn lemma_plan_of(
    ws: WsView,
    docs: Seq<Seq<char>>,
    file: Seq<char>,
    format: ContentFormat,
    force: bool,
    d: Seq<char>,
) -> (j: int)
    requires
        docs.no_duplicates(),
        transcode_plans(ws, docs, file, format, force) is Ok,
        docs.contains(d),
        is_foreign(ws, d, format),
    ensures
        ({
            let plans = transcode_plans(ws, docs, file, format, force)->Ok_0;
            let (_, doc) = crate::workspace::loaded(ws.files, d)->Ok_0;
            &&& 0 <= j < plans.len()
            &&& plans[j].from == prose_of(d, doc)
            &&& plans[j].to == goes_to(ws, d, format)
            &&& Some(plans[j].grammar) == crate::document::grammar(prose_of(d, doc))
            &&& plans[j].node == (if crate::meta::text_field(doc.meta, "content"@) is Some {
                Some(d)
            } else {
                None
            })
            &&& crate::document::is_lossy(plans[j].grammar, format) ==> force
            &&& forall|i: int|
                0 <= i < plans.len() && i != j ==> origin(#[trigger] plans[i]) != d
            &&& forall|i: int| 0 <= i < plans.len() ==> docs.contains(origin(#[trigger] plans[i]))
            &&& forall|i: int|
                0 <= i < plans.len() ==> transcode_plan(
                    ws,
                    origin(#[trigger] plans[i]),
                    format,
                    force,
                    origin(plans[i]) == file,
                ) == Ok::<Option<TranscodeView>, Fault<Seq<char>>>(Some(plans[i]))
        }),
{
    let plans = transcode_plans(ws, docs, file, format, force)->Ok_0;
    lemma_plans(ws, docs, file, format, force);
    let n = choose|n: int| 0 <= n < docs.len() && docs[n] == d;
    assert(is_foreign(ws, docs[n], format));
    let j = choose|j: int| 0 <= j < plans.len() && origin(#[trigger] plans[j]) == docs[n];
    assert forall|i: int| 0 <= i < plans.len() && i != j implies origin(#[trigger] plans[i])
        != d by {
        if i < j {
            assert(origin(plans[i]) != origin(plans[j]));
        } else {
            assert(origin(plans[j]) != origin(plans[i]));
        }
    }
    j
}

/// What is written in another grammar is not where it was: neither a document, nor a
/// content file that is no document itself.
pub proof fn law_prose_leaves(
    ws: WsView,
    file: Seq<char>,
    format: ContentFormat,
    recursive: bool,
    force: bool,
    after: WsView,
    d: Seq<char>,
)
    requires
        content_conversion(ws, file, format, recursive, force) matches Ok((cs, _)) && (
        crate::change::landed(ws, cs) matches Ok(w) && w == after),
        reach_of(ws, file, recursive).contains(d),
        is_foreign(ws, d, format),
        ({
            let prose = prose_of(d, (crate::workspace::loaded(ws.files, d)->Ok_0).1);
            is_own_foreign(ws, d, format) || !reach_of(ws, file, recursive).contains(prose)
        }),
    ensures
        crate::files::lookup(
            after.files,
            prose_of(d, (crate::workspace::loaded(ws.files, d)->Ok_0).1),
        ) is None,
{
    let f = crate::path::normalized(file);
    let docs = reach_of(ws, file, recursive);
    let prose = prose_of(d, (crate::workspace::loaded(ws.files, d)->Ok_0).1);
    crate::landing::law_walk(ws, None, f);
    assert(docs == crate::convert::covered(ws, f, recursive));
    assert(docs.no_duplicates());
    let plans = transcode_plans(ws, docs, f, format, force)->Ok_0;
    let j = lemma_plan_of(ws, docs, f, format, force, d);
    let moves = MovesView::Files(node_moves(plans));
    let rewrites = crate::field::inbound_rewrites(ws, f, moves, Movers::Rewrite)->Ok_0;
    let first = all_transcoded(ws, rewrites, plans, format)->Ok_0;
    let kept = left_over(rewrites, plans);
    let more = crate::change::rewrite_ops(kept);
    let cs = (plans_carried(ws, f, plans, format)->Ok_0).0;
    assert(cs.ops =~= first.ops + more);
    crate::landing::lemma_changed_add(ws.files, first.ops, more);
    let files = crate::files::changed_all(ws.files, first.ops)->Ok_0;
    crate::landing::law_inbound_rewrites(ws, f, moves, Movers::Rewrite);
    lemma_transcoded_places(ws, rewrites, plans, format, j);
    assert forall|i: int| 0 <= i < plans.len() implies (#[trigger] plans[i]).node != Some(
        plans[j].from,
    ) by {
        assert(docs.contains(origin(plans[i])));
        if plans[i].node == Some(prose) {
            assert(origin(plans[i]) == prose);
        }
    }
    lemma_left_over(rewrites, plans, prose);
    lemma_left_unplanned(rewrites, plans);
    crate::landing::law_rewrites_land(files, kept);
    assert(is_planned(plans, prose)) by {
        assert(plans[j].from == prose);
    }
    assert(!crate::landing::rewrites_path(kept, prose)) by {
        if crate::landing::rewrites_path(kept, prose) {
            let r = choose|r: int| 0 <= r < kept.len() && (#[trigger] kept[r]).path == prose;
            assert(!is_planned(plans, kept[r].path));
        }
    }
}

/// A document whose content file is written in another grammar points at it by its new
/// name: that name replaces its content entry, in what it holds when it has followed what
/// moves. The document is the content of none.
pub proof fn law_node_is_repointed(
    ws: WsView,
    file: Seq<char>,
    format: ContentFormat,
    recursive: bool,
    force: bool,
    after: WsView,
    inverse: Seq<char>,
    d: Seq<char>,
)
    requires
        content_conversion(ws, file, format, recursive, force) matches Ok((cs, _)) && (
        crate::change::landed(ws, cs) matches Ok(w) && w == after),
        crate::workspace::spanning_names(ws.relations) matches Ok((_, v)) && v == inverse,
        crate::follow::distinct_names(ws.relations.relations),
        reach_of(ws, file, recursive).contains(d),
        is_foreign(ws, d, format),
        !is_own_foreign(ws, d, format),
        forall|e: Seq<char>| #[trigger]
            reach_of(ws, file, recursive).contains(e) && crate::workspace::loaded(
                ws.files,
                e,
            ) is Ok ==> prose_of(e, (crate::workspace::loaded(ws.files, e)->Ok_0).1) != d,
    ensures
        exists|held: Seq<char>|
            {
                &&& #[trigger] holds_then(
                    ws,
                    crate::path::normalized(file),
                    inverse,
                    moves_with(ws, reach_of(ws, file, recursive), format),
                    d,
                    held,
                )
                &&& crate::document::parsed(d, held) matches Some(mid) && (mid.carrier is Some ==> (
                crate::reading::touched(
                    held,
                    mid.carrier,
                    crate::reading::Touch::Replace(
                        seq![crate::codec::StepView::Key("content"@)],
                        crate::maintain::name_or_empty(goes_to(ws, d, format)),
                    ),
                ) matches Some(text) && crate::files::lookup(after.files, d) == Some(
                    crate::files::FileView::Text(text),
                )))
            },
{
    let f = crate::path::normalized(file);
    let docs = reach_of(ws, file, recursive);
    let doc = (crate::workspace::loaded(ws.files, d)->Ok_0).1;
    crate::landing::law_walk(ws, None, f);
    assert(docs == crate::convert::covered(ws, f, recursive));
    assert(docs.no_duplicates());
    let plans = transcode_plans(ws, docs, f, format, force)->Ok_0;
    let j = lemma_plan_of(ws, docs, f, format, force, d);
    lemma_moves_with(ws, docs, f, format, force);
    let moves = MovesView::Files(node_moves(plans));
    let rewrites = crate::field::inbound_rewrites(ws, f, moves, Movers::Rewrite)->Ok_0;
    let first = all_transcoded(ws, rewrites, plans, format)->Ok_0;
    let kept = left_over(rewrites, plans);
    let more = crate::change::rewrite_ops(kept);
    let cs = (plans_carried(ws, f, plans, format)->Ok_0).0;
    assert(cs.ops =~= first.ops + more);
    crate::landing::lemma_changed_add(ws.files, first.ops, more);
    let files = crate::files::changed_all(ws.files, first.ops)->Ok_0;
    crate::landing::law_inbound_rewrites(ws, f, moves, Movers::Rewrite);
    lemma_transcoded_places(ws, rewrites, plans, format, j);
    assert(repointed(ws, rewrites, d, plans[j].to) is Ok);
    let held = staged_text(ws, rewrites, d)->Ok_0;
    lemma_holds_then(ws, f, inverse, moves, d);
    assert forall|i: int| 0 <= i < plans.len() implies (#[trigger] plans[i]).from != d && (i != j
        ==> plans[i].node != Some(d)) by {
        let e = origin(plans[i]);
        assert(docs.contains(e));
        assert(plans[i].from == prose_of(e, (crate::workspace::loaded(ws.files, e)->Ok_0).1));
        if plans[i].from == d {
            assert(reach_of(ws, file, recursive).contains(e));
        }
    }
    lemma_left_over(rewrites, plans, d);
    lemma_left_unplanned(rewrites, plans);
    crate::landing::law_rewrites_land(files, kept);
    assert(is_planned(plans, d)) by {
        assert(plans[j].node == Some(d));
    }
    assert(!crate::landing::rewrites_path(kept, d)) by {
        if crate::landing::rewrites_path(kept, d) {
            let r = choose|r: int| 0 <= r < kept.len() && (#[trigger] kept[r]).path == d;
            assert(!is_planned(plans, kept[r].path));
        }
    }
}

/// A conversion of content gives where the prose goes that was in another grammar, and
/// nothing else, in the order of the walk.
pub proof fn law_destinations_are_told(
    ws: WsView,
    file: Seq<char>,
    format: ContentFormat,
    recursive: bool,
    force: bool,
)
    requires
        content_conversion(ws, file, format, recursive, force) is Ok,
    ensures
        (content_conversion(ws, file, format, recursive, force)->Ok_0).1 == reach_of(
            ws,
            file,
            recursive,
        ).filter(|d: Seq<char>| is_foreign(ws, d, format)).map_values(
            |d: Seq<char>| goes_to(ws, d, format),
        ),
{
    let f = crate::path::normalized(file);
    let docs = reach_of(ws, file, recursive);
    crate::landing::law_walk(ws, None, f);
    assert(docs == crate::convert::covered(ws, f, recursive));
    assert(docs.no_duplicates());
    lemma_plans(ws, docs, f, format, force);
    let plans = transcode_plans(ws, docs, f, format, force)->Ok_0;
    if plans.len() == 0 {
        assert(destinations(plans) =~= Seq::empty());
    }
}

/// A path reference to a document that is renamed for its grammar, in a document that a
/// survey covers and that is not written itself, leads to where that has gone, and every other
/// one where it led; and there is a file there. The edits read back.
pub proof fn law_conversion_is_followed(
    ws: WsView,
    file: Seq<char>,
    format: ContentFormat,
    plans: Seq<TranscodeView>,
    after: WsView,
    inverse: Seq<char>,
    source: Seq<char>,
    i: int,
    k: int,
)
    requires
        plans_carried(ws, file, plans, format) matches Ok((cs, _)) && crate::change::landed(ws, cs)
            matches Ok(w) && w == after,
        crate::follow::distinct_names(ws.relations.relations),
        crate::workspace::spanning_names(ws.relations) matches Ok((_, v)) && v == inverse,
        crate::walk::surveyed(ws, crate::walk::root_of(ws, file, inverse)).contains(source),
        !is_planned(plans, source),
        0 <= i < ws.relations.relations.len(),
        ({
            let moves = MovesView::Files(node_moves(plans));
            let moved = crate::field::moved_paths(ws.files, moves);
            let read = crate::workspace::loaded(ws.files, source)->Ok_0;
            let name = ws.relations.relations[i].name;
            let raws = crate::meta::links_at(read.1.meta, name);
            let place = crate::landing::place_of(source, raws[k]);
            &&& 0 <= k < raws.len()
            &&& crate::landing::can_follow(ws, source, name, raws[k], moved, moves)
            &&& crate::files::lookup(ws.files, place) is Some
            &&& forall|j: int|
                0 <= j < plans.len() && (#[trigger] plans[j]).from == place ==> plans[j].node
                    is None
        }),
    ensures
        ({
            let moves = MovesView::Files(node_moves(plans));
            let read = crate::workspace::loaded(ws.files, source)->Ok_0;
            let name = ws.relations.relations[i].name;
            let raws = crate::meta::links_at(read.1.meta, name);
            exists|touches: Seq<crate::reading::Touch>|
                #[trigger] crate::reading::reads_through(source, read.0, touches)
                    ==> crate::following::leads_there(
                    ws,
                    after,
                    source,
                    name,
                    k,
                    crate::maintain::landing_or_same(
                        moves,
                        crate::landing::place_of(source, raws[k]),
                    ),
                )
        }),
{
    let moves = MovesView::Files(node_moves(plans));
    let moved = crate::field::moved_paths(ws.files, moves);
    let read = crate::workspace::loaded(ws.files, source)->Ok_0;
    crate::landing::law_survey_follows(
        ws,
        file,
        inverse,
        moves,
        Movers::Rewrite,
        source,
    );
    let touches = crate::following::law_followed_touches(ws, source, read, moved, moves);
    if crate::reading::reads_through(source, read.0, touches) {
        law_convert_keeps_reading(ws, file, format, plans, after, inverse, source, i, k);
    }
}

} // verus!
