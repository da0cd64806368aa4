//! Another title for a document, and the labels that follow it.

use crate::change::{ChangeSet, ChangeView, Rewrite, RewriteView};
use crate::error::{Error, Fault};
use crate::field::{make_edits, Relabelled};
use crate::meta::{Meta, MetaView};
use crate::text::same_text;
use crate::workspace::{Outcome, Workspace, WsView};
use vstd::prelude::*;

verus! {

/// The edits that give the labels of a document's references to `target` this
/// title.
pub open spec fn relabel_edits(
    ws: WsView,
    source: Seq<char>,
    doc: crate::document::DocView,
    target: Seq<char>,
    title: Seq<char>,
) -> Seq<crate::field::EditView> {
    crate::field::relation_edits(
        ws,
        doc.meta,
        ws.relations.relations,
        crate::field::relabelled_entry(ws, source, target, title),
    )
}

/// What becomes of a document when the labels of its references to `target` get
/// this title, and how many do; none where no label does.
pub open spec fn relabelled(
    ws: WsView,
    source: Seq<char>,
    target: Seq<char>,
    title: Seq<char>,
) -> Outcome<Option<(RewriteView, nat)>> {
    match crate::workspace::loaded(ws.files, source) {
        Err(e) => Err(e),
        Ok((text, doc)) => {
            let edits = relabel_edits(ws, source, doc, target, title);
            match doc.carrier {
                None => Ok(None),
                Some(carrier) => if edits.len() == 0 {
                    Ok(None)
                } else {
                    match crate::field::edited(text, carrier, edits) {
                        None => Err(Fault::Metadata(source)),
                        Some(out) => Ok(
                            Some((RewriteView { path: source, read: text, text: out }, edits.len())),
                        ),
                    }
                },
            }
        },
    }
}

/// What becomes of these documents, and how many labels do.
pub open spec fn relabelled_among(
    ws: WsView,
    docs: Seq<Seq<char>>,
    target: Seq<char>,
    title: Seq<char>,
) -> Outcome<(Seq<RewriteView>, nat)>
    decreases docs.len(),
{
    if docs.len() == 0 {
        Ok((Seq::empty(), 0))
    } else {
        match relabelled_among(ws, docs.drop_last(), target, title) {
            Err(e) => Err(e),
            Ok((rest, n)) => if docs.last() == target {
                Ok((rest, n))
            } else {
                match relabelled(ws, docs.last(), target, title) {
                    Err(e) => Err(e),
                    Ok(None) => Ok((rest, n)),
                    Ok(Some((rewrite, k))) => Ok((rest.push(rewrite), n + k)),
                }
            },
        }
    }
}

/// A number as far as it can be counted.
pub open spec fn counted(n: nat) -> usize {
    if n > usize::MAX {
        usize::MAX
    } else {
        n as usize
    }
}

/// What becomes of every document whose references to `path` are labelled with
/// another title, and how many labels follow.
pub open spec fn inbound_relabels(ws: WsView, path: Seq<char>, title: Seq<char>) -> Outcome<
    (Seq<RewriteView>, nat),
> {
    match crate::workspace::spanning_names(ws.relations) {
        Err(e) => Err(e),
        Ok((_, inverse)) => relabelled_among(
            ws,
            crate::walk::surveyed(ws, crate::walk::root_of(ws, path, inverse)),
            path,
            title,
        ),
    }
}

/// The changes that give a document another title, and the number of labels that
/// follow it; or why there are none.
pub open spec fn retitling(ws: WsView, path: Seq<char>, title: Seq<char>) -> Outcome<
    (ChangeView, usize),
> {
    let path = crate::path::normalized(path);
    if !crate::files::occupied(ws.files, path) {
        Err(Fault::NotFound(path))
    } else {
        match crate::workspace::loaded(ws.files, path) {
            Err(e) => Err(e),
            Ok((text, doc)) => match doc.carrier {
                None => Err(Fault::NoTitleBlock(path)),
                Some(carrier) => match crate::document::set_at(
                    text,
                    carrier,
                    crate::document::key_way("title"@),
                    MetaView::Text(title),
                ) {
                    None => Err(Fault::Metadata(path)),
                    Some(out) => match inbound_relabels(ws, path, title) {
                        Err(e) => Err(e),
                        Ok((rewrites, n)) => Ok(
                            (
                                crate::change::no_change(ws).with(
                                    crate::files::write_text(path, out),
                                ).with_all(crate::change::rewrite_ops(rewrites)),
                                counted(n),
                            ),
                        ),
                    },
                },
            },
        }
    }
}

proof fn lemma_relabelled_fails(
    ws: WsView,
    docs: Seq<Seq<char>>,
    target: Seq<char>,
    title: Seq<char>,
    n: int,
)
    requires
        0 <= n <= docs.len(),
        relabelled_among(ws, docs.take(n), target, title) is Err,
    ensures
        relabelled_among(ws, docs, target, title) == relabelled_among(
            ws,
            docs.take(n),
            target,
            title,
        ),
    decreases docs.len(),
{
    if n == docs.len() {
        assert(docs.take(n) =~= docs);
    } else {
        assert(docs.drop_last().take(n) =~= docs.take(n));
        lemma_relabelled_fails(ws, docs.drop_last(), target, title, n);
    }
}

impl Workspace {
    /// What becomes of the document at `source` when the labels of its references
    /// to `target` get this title, and how many do; none where no label does.
    pub fn relabel_inbound_doc(&self, source: &str, target: &str, title: &str) -> (r: Result<
        Option<(Rewrite, usize)>,
        Error,
    >)
        ensures
            ({
                let out = relabelled(self@, source@, target@, title@);
                match r {
                    Ok(Some((w, n))) => out matches Ok(Some((v, k))) && v == w@ && k == n,
                    Ok(None) => out matches Ok(None),
                    Err(e) => out matches Err(f) && f == crate::error::fault(e),
                }
            }),
    {
        let (text, doc) = match self.load(source) {
            Ok(read) => read,
            Err(e) => {
                return Err(e);
            },
        };
        let carrier = match doc.carrier {
            Some(carrier) => carrier,
            None => {
                return Ok(None);
            },
        };
        let rule = Relabelled { ws: self, source, target, title };
        let edits = self.relation_changes(&doc.meta, &rule);
        proof {
            assert(crate::field::edits_view(edits@).len() == edits@.len());
        }
        if edits.len() == 0 {
            return Ok(None);
        }
        match make_edits(&text, carrier, &edits) {
            None => Err(Fault::Metadata(source.to_owned())),
            Some(out) => {
                let n: usize = edits.len();
                Ok(Some((Rewrite { path: source.to_owned(), read: text, text: out }, n)))
            },
        }
    }

    fn relabel_all(&self, docs: &Vec<String>, target: &str, title: &str) -> (r: Result<
        (Vec<Rewrite>, usize),
        Error,
    >)
        ensures
            ({
                let out = relabelled_among(self@, crate::text::texts(docs@), target@, title@);
                match r {
                    Ok((v, n)) => out matches Ok((w, k)) && w == crate::change::rewrites_view(v@)
                        && n == counted(k),
                    Err(e) => out matches Err(f) && f == crate::error::fault(e),
                }
            }),
    {
        let ghost all = crate::text::texts(docs@);
        let mut out: Vec<Rewrite> = Vec::new();
        let mut n: usize = 0;
        let mut i: usize = 0;
        proof {
            assert(all.take(0) =~= Seq::empty());
            assert(crate::change::rewrites_view(out@) =~= Seq::empty());
        }
        while i < docs.len()
            invariant
                i <= docs@.len(),
                all == crate::text::texts(docs@),
                relabelled_among(self@, all.take(i as int), target@, title@) matches Ok((w, k)) && w
                    == crate::change::rewrites_view(out@) && n == counted(k),
            decreases docs@.len() - i,
        {
            let source = &docs[i];
            proof {
                assert(all.take(i + 1).drop_last() =~= all.take(i as int));
                assert(all.take(i + 1).last() == source@);
            }
            if !same_text(source, target) {
                match self.relabel_inbound_doc(source, target, title) {
                    Err(e) => {
                        proof {
                            lemma_relabelled_fails(self@, all, target@, title@, i + 1);
                        }
                        return Err(e);
                    },
                    Ok(None) => {},
                    Ok(Some((rewrite, k))) => {
                        let ghost before = crate::change::rewrites_view(out@);
                        n = n.saturating_add(k);
                        out.push(rewrite);
                        proof {
                            assert(crate::change::rewrites_view(out@) =~= before.push(rewrite@));
                        }
                    },
                }
            }
            i = i + 1;
        }
        proof {
            assert(all.take(i as int) =~= all);
        }
        Ok((out, n))
    }

    /// What becomes of every document whose references to `path` are labelled
    /// with another title, and how many labels follow.
    pub fn collect_inbound_relabels(&self, path: &str, title: &str) -> (r: Result<
        (Vec<Rewrite>, usize),
        Error,
    >)
        ensures
            ({
                let out = inbound_relabels(self@, path@, title@);
                match r {
                    Ok((v, n)) => out matches Ok((w, k)) && w == crate::change::rewrites_view(v@)
                        && n == counted(k),
                    Err(e) => out matches Err(f) && f == crate::error::fault(e),
                }
            }),
    {
        let (_, inverse) = match self.spanning_pair() {
            Ok(pair) => pair,
            Err(e) => {
                return Err(e);
            },
        };
        let root = self.spanning_root(path, &inverse);
        let named = self.name_files();
        let docs = self.survey(&named, &root);
        self.relabel_all(&docs, path, title)
    }

    /// The changes that give a document another title, and the number of labels
    /// that follow it.
    pub fn plan_retitle(&self, path: &str, new_title: &str) -> (r: Result<
        (ChangeSet, usize),
        Error,
    >)
        ensures
            ({
                let plan = retitling(self@, path@, new_title@);
                match r {
                    Ok((cs, n)) => plan matches Ok((c, k)) && c == cs@ && k == n,
                    Err(e) => plan matches Err(f) && f == crate::error::fault(e),
                }
            }),
    {
        let path = crate::path::normalize(path);
        if !self.is_taken(&path) {
            return Err(Fault::NotFound(path));
        }
        let (text, doc) = match self.load(&path) {
            Ok(read) => read,
            Err(e) => {
                return Err(e);
            },
        };
        let carrier = match doc.carrier {
            Some(carrier) => carrier,
            None => {
                return Err(Fault::NoTitleBlock(path));
            },
        };
        let value = Meta::Text(new_title.to_owned());
        let out = match crate::document::set_value(
            &text,
            carrier,
            &crate::document::key_path("title"),
            &value,
        ) {
            Some(out) => out,
            None => {
                return Err(Fault::Metadata(path));
            },
        };
        match self.collect_inbound_relabels(&path, new_title) {
            Err(e) => Err(e),
            Ok((rewrites, n)) => {
                let mut cs = self.change();
                cs.write(&path, &out);
                cs.rewrite(&rewrites);
                Ok((cs, n))
            },
        }
    }

    /// Gives a document another title. The label of every reference to it, by
    /// path or by identifier, follows; a reference without a label gets none.
    /// Gives the number of labels that follow. A refusal changes nothing.
    pub fn retitle(&mut self, path: &str, new_title: &str) -> (r: Result<usize, Error>)
        ensures
            ({
                let done = crate::change::carried_out(
                    old(self)@,
                    retitling(old(self)@, path@, new_title@),
                );
                match r {
                    Ok(n) => done matches Ok((after, k)) && after == final(self)@ && k == n,
                    Err(e) => done matches Err(f) && f == crate::error::fault(e) && *final(self)
                        == *old(self),
                }
            }),
    {
        match self.plan_retitle(path, new_title) {
            Ok((cs, n)) => match self.commit(cs) {
                Ok(_) => Ok(n),
                Err(e) => Err(e),
            },
            Err(e) => Err(e),
        }
    }
}

/// A reference that is labelled with the title, or not labelled, is left as it is:
/// giving a document the title it has makes no label follow.
pub proof fn law_label_settles(
    ws: WsView,
    source: Seq<char>,
    target: Seq<char>,
    title: Seq<char>,
    style: crate::link::LinkStyle,
    raw: Seq<char>,
)
    requires
        crate::link::parse_link(raw).label is None || crate::link::parse_link(raw).label == Some(
            title,
        ),
    ensures
        crate::follow::ruled(
            style,
            crate::field::relabelled_entry(ws, source, target, title),
            raw,
        ) == raw,
{
}

proof fn lemma_relabelled_among(
    ws: WsView,
    docs: Seq<Seq<char>>,
    target: Seq<char>,
    title: Seq<char>,
    j: int,
)
    requires
        docs.no_duplicates(),
        0 <= j < docs.len(),
    ensures
        relabelled_among(ws, docs, target, title) matches Ok((rewrites, _)) ==> {
            &&& crate::landing::distinct_paths(rewrites)
            &&& forall|i: int|
                0 <= i < rewrites.len() ==> docs.contains((#[trigger] rewrites[i]).path)
                    && rewrites[i].path != target
            &&& docs[j] == target ==> !crate::landing::rewrites_path(rewrites, docs[j])
            &&& docs[j] != target ==> (relabelled(ws, docs[j], target, title) matches Ok(out)
                && match out {
                Some((rewrite, _)) => exists|r: int|
                    0 <= r < rewrites.len() && #[trigger] rewrites[r] == rewrite,
                None => !crate::landing::rewrites_path(rewrites, docs[j]),
            })
        },
    decreases docs.len(),
{
    let rest = docs.drop_last();
    let n = docs.len() - 1;
    assert(rest.no_duplicates());
    match (
        relabelled_among(ws, rest, target, title),
        relabelled_among(ws, docs, target, title),
    ) {
        (Ok((before, _)), Ok((after, _))) => {
            if rest.len() > 0 {
                lemma_relabelled_among(
                    ws,
                    rest,
                    target,
                    title,
                    if j < n {
                        j
                    } else {
                        0
                    },
                );
            } else {
                assert(before =~= Seq::empty());
            }
            assert forall|i: int| 0 <= i < before.len() implies docs.contains(
                (#[trigger] before[i]).path,
            ) && before[i].path != docs[n] && before[i].path != target by {
                assert(rest.contains(before[i].path));
                let k = choose|k: int| 0 <= k < rest.len() && rest[k] == before[i].path;
                assert(docs[k] == before[i].path);
            }
            assert(docs.contains(docs[n]));
            if after.len() > before.len() {
                assert(after.drop_last() =~= before);
                assert(after.last().path == docs[n]);
                assert forall|i: int, k: int| 0 <= i < k < after.len() implies (
                #[trigger] after[i]).path != (#[trigger] after[k]).path by {
                    assert(after[i] == before[i]);
                    if k < before.len() {
                        assert(after[k] == before[k]);
                    }
                }
                assert forall|i: int| 0 <= i < after.len() implies docs.contains(
                    (#[trigger] after[i]).path,
                ) && after[i].path != target by {
                    if i < before.len() {
                        assert(after[i] == before[i]);
                    }
                }
                if j < n {
                    if crate::landing::rewrites_path(after, docs[j]) {
                        let i = choose|i: int|
                            0 <= i < after.len() && (#[trigger] after[i]).path == docs[j];
                        assert(i < before.len());
                        assert(before[i].path == docs[j]);
                    }
                    match relabelled(ws, docs[j], target, title) {
                        Ok(Some((rewrite, _))) => {
                            if docs[j] != target {
                                let r = choose|r: int|
                                    0 <= r < before.len() && #[trigger] before[r] == rewrite;
                                assert(after[r] == rewrite);
                            }
                        },
                        _ => {},
                    }
                } else {
                    assert(after[after.len() - 1].path == docs[n]);
                }
            } else {
                assert(after =~= before);
            }
        },
        _ => {},
    }
}

/// A new title leaves a workspace whole but for the document and those whose labels
/// follow; and in each of those, the references that follow and those that do not lead
/// where they led, as the document reads afterwards. The document reads as its edits
/// describe, and the label can be written.
pub proof fn law_retitle_keeps_reading(
    ws: WsView,
    path: Seq<char>,
    title: Seq<char>,
    after: WsView,
    inverse: Seq<char>,
    source: Seq<char>,
    i: int,
    k: int,
)
    requires
        retitling(ws, path, title) matches Ok((cs, _)) && crate::change::landed(ws, cs) matches Ok(
            w,
        ) && w == after,
        crate::follow::distinct_names(ws.relations.relations),
        crate::workspace::spanning_names(ws.relations) matches Ok((_, v)) && v == inverse,
        0 <= i < ws.relations.relations.len(),
        ({
            let p = crate::path::normalized(path);
            let name = ws.relations.relations[i].name;
            let (text, doc) = crate::workspace::loaded(ws.files, source)->Ok_0;
            let raws = crate::meta::links_at(doc.meta, name);
            &&& crate::walk::surveyed(ws, crate::walk::root_of(ws, p, inverse)).contains(source)
            &&& source != p
            &&& 0 <= k < raws.len()
            &&& crate::link::is_spelled(
                crate::link::with_label(crate::link::parse_link(raws[k]), title),
            )
            &&& relabelled(ws, source, p, title) matches Ok(Some((rewrite, _))) ==> (
            crate::document::parsed(source, rewrite.text) matches Some(now) && now.meta
                == crate::follow::edits_made(doc.meta, relabel_edits(ws, source, doc, p, title)))
        }),
    ensures
        ({
            let name = ws.relations.relations[i].name;
            let (_, doc) = crate::workspace::loaded(ws.files, source)->Ok_0;
            let raws = crate::meta::links_at(doc.meta, name);
            crate::workspace::loaded(after.files, source) matches Ok((_, now)) && ({
                let news = crate::meta::links_at(now.meta, name);
                &&& news.len() == raws.len()
                &&& crate::link::parse_link(news[k]).target == crate::link::parse_link(
                    raws[k],
                ).target
                &&& crate::workspace::reference_path(after.ids, after.name, source, news[k])
                    == crate::workspace::reference_path(ws.ids, ws.name, source, raws[k])
            })
        }),
        forall|q: Seq<char>|
            crate::files::lookup(ws.files, q) is Some ==> #[trigger] crate::files::lookup(
                after.files,
                q,
            ) is Some,
        inbound_relabels(ws, crate::path::normalized(path), title) matches Ok((rewrites, _))
            && forall|q: Seq<char>|
            q != crate::path::normalized(path) && !crate::landing::rewrites_path(rewrites, q)
                ==> #[trigger] crate::files::lookup(after.files, q) == crate::files::lookup(
                ws.files,
                q,
            ),
{
    let p = crate::path::normalized(path);
    let root = crate::walk::root_of(ws, p, inverse);
    let docs = crate::walk::surveyed(ws, root);
    let (own, own_doc) = crate::workspace::loaded(ws.files, p)->Ok_0;
    let out = crate::document::set_at(
        own,
        own_doc.carrier->Some_0,
        crate::document::key_way("title"@),
        MetaView::Text(title),
    )->Some_0;
    let rewrites = (inbound_relabels(ws, p, title)->Ok_0).0;
    crate::landing::law_walk(ws, Some(crate::walk::all_named(ws.files)), root);
    let j = choose|j: int| 0 <= j < docs.len() && docs[j] == source;
    lemma_relabelled_among(ws, docs, p, title, j);
    let none = Seq::<crate::files::OpView>::empty();
    let a = none.push(crate::files::write_text(p, out));
    let cs = (retitling(ws, path, title)->Ok_0).0;
    assert(cs.ops =~= a + crate::change::rewrite_ops(rewrites));
    crate::landing::lemma_changed_push(ws.files, none, crate::files::write_text(p, out));
    crate::landing::lemma_changed_add(ws.files, a, crate::change::rewrite_ops(rewrites));
    let data = crate::files::FileView::Text(out);
    let f1 = crate::files::stored(ws.files, p, data);
    crate::landing::law_rewrites_land(f1, rewrites);
    assert forall|q: Seq<char>| q != p implies #[trigger] crate::files::lookup(f1, q)
        == crate::files::lookup(ws.files, q) by {
        crate::files::law_stored(ws.files, p, data, q);
    }
    crate::files::law_stored(ws.files, p, data, p);
    assert forall|q: Seq<char>|
        crate::files::lookup(ws.files, q) is Some implies #[trigger] crate::files::lookup(
        after.files,
        q,
    ) is Some by {
        if crate::landing::rewrites_path(rewrites, q) {
            let r = choose|r: int| 0 <= r < rewrites.len() && (#[trigger] rewrites[r]).path == q;
            assert(crate::files::lookup(after.files, rewrites[r].path) is Some);
        } else {
            assert(crate::files::lookup(after.files, q) == crate::files::lookup(f1, q));
        }
    }
    let name = ws.relations.relations[i].name;
    let (text, doc) = crate::workspace::loaded(ws.files, source)->Ok_0;
    let raws = crate::meta::links_at(doc.meta, name);
    let rule = crate::field::relabelled_entry(ws, source, p, title);
    crate::follow::law_references_respelled(ws, doc.meta, rule, i);
    crate::link::law_relabelled_reads_back(raws[k], title);
    match relabelled(ws, source, p, title)->Ok_0 {
        Some((rewrite, _)) => {
            let r = choose|r: int| 0 <= r < rewrites.len() && #[trigger] rewrites[r] == rewrite;
            assert(crate::files::lookup(after.files, rewrites[r].path) == Some(
                crate::files::FileView::Text(rewrite.text),
            ));
        },
        None => {
            assert(crate::files::lookup(after.files, source) == crate::files::lookup(f1, source));
        },
    }
}

proof fn lemma_retitle_files(ws: WsView, path: Seq<char>, title: Seq<char>, after: WsView)
    requires
        retitling(ws, path, title) matches Ok((cs, _)) && crate::change::landed(ws, cs) matches Ok(
            w,
        ) && w == after,
    ensures
        ({
            let p = crate::path::normalized(path);
            crate::workspace::loaded(ws.files, p) matches Ok((text, doc)) && doc.carrier matches Some(
                carrier,
            ) && inbound_relabels(ws, p, title) matches Ok((rewrites, _)) && ({
                &&& crate::files::lookup(after.files, p) == (match crate::document::set_at(
                    text,
                    carrier,
                    crate::document::key_way("title"@),
                    MetaView::Text(title),
                ) {
                    Some(out) => Some(crate::files::FileView::Text(out)),
                    None => None,
                })
                &&& forall|r: int|
                    0 <= r < rewrites.len() ==> crate::files::lookup(
                        after.files,
                        (#[trigger] rewrites[r]).path,
                    ) == Some(crate::files::FileView::Text(rewrites[r].text))
                &&& forall|q: Seq<char>|
                    q != p && !crate::landing::rewrites_path(rewrites, q)
                        ==> #[trigger] crate::files::lookup(after.files, q) == crate::files::lookup(
                        ws.files,
                        q,
                    )
            })
        }),
{
    let p = crate::path::normalized(path);
    let (_, inverse) = crate::workspace::spanning_names(ws.relations)->Ok_0;
    let root = crate::walk::root_of(ws, p, inverse);
    let docs = crate::walk::surveyed(ws, root);
    let (own, own_doc) = crate::workspace::loaded(ws.files, p)->Ok_0;
    let out = crate::document::set_at(
        own,
        own_doc.carrier->Some_0,
        crate::document::key_way("title"@),
        MetaView::Text(title),
    )->Some_0;
    let rewrites = inbound_relabels(ws, p, title)->Ok_0.0;
    crate::landing::law_walk(ws, Some(crate::walk::all_named(ws.files)), root);
    if docs.len() > 0 {
        lemma_relabelled_among(ws, docs, p, title, 0);
    }
    let none = Seq::<crate::files::OpView>::empty();
    let a = none.push(crate::files::write_text(p, out));
    let cs = (retitling(ws, path, title)->Ok_0).0;
    assert(cs.ops =~= a + crate::change::rewrite_ops(rewrites));
    crate::landing::lemma_changed_push(ws.files, none, crate::files::write_text(p, out));
    crate::landing::lemma_changed_add(ws.files, a, crate::change::rewrite_ops(rewrites));
    let data = crate::files::FileView::Text(out);
    let f1 = crate::files::stored(ws.files, p, data);
    crate::landing::law_rewrites_land(f1, rewrites);
    assert forall|q: Seq<char>| q != p implies #[trigger] crate::files::lookup(f1, q)
        == crate::files::lookup(ws.files, q) by {
        crate::files::law_stored(ws.files, p, data, q);
    }
    crate::files::law_stored(ws.files, p, data, p);
    assert(!crate::landing::rewrites_path(rewrites, p)) by {
        if crate::landing::rewrites_path(rewrites, p) {
            let r = choose|r: int| 0 <= r < rewrites.len() && (#[trigger] rewrites[r]).path == p;
            assert(rewrites[r].path != p);
        }
    }
}

/// A document that gets a title has it, whether a label follows or not: it reads with that
/// title, with every other entry as it was, and with its body. Its edit reads back.
pub proof fn law_retitled_reads(ws: WsView, path: Seq<char>, title: Seq<char>, after: WsView)
    requires
        retitling(ws, path, title) matches Ok((cs, _)) && crate::change::landed(ws, cs) matches Ok(
            w,
        ) && w == after,
        crate::workspace::loaded(ws.files, crate::path::normalized(path)) matches Ok((text, doc))
            && (doc.meta is Mapping || doc.meta is Null) && crate::reading::reads_through(
            crate::path::normalized(path),
            text,
            seq![crate::reading::Touch::Value("title"@, MetaView::Text(title))],
        ),
    ensures
        ({
            let p = crate::path::normalized(path);
            crate::workspace::loaded(ws.files, p) matches Ok((_, doc)) && (
            crate::workspace::loaded(after.files, p) matches Ok((_, now)) && ({
                &&& crate::meta::field(now.meta, "title"@) == Some(MetaView::Text(title))
                &&& forall|key: Seq<char>|
                    key != "title"@ ==> #[trigger] crate::meta::field(now.meta, key)
                        == crate::meta::field(doc.meta, key)
                &&& now.body == doc.body
                &&& now.carrier == doc.carrier
            }))
        }),
{
    let p = crate::path::normalized(path);
    let (text, doc) = crate::workspace::loaded(ws.files, p)->Ok_0;
    let touch = crate::reading::Touch::Value("title"@, MetaView::Text(title));
    lemma_retitle_files(ws, path, title, after);
    crate::reading::law_touched_reads(p, text, seq![touch]);
    crate::reading::lemma_touch_one(text, doc.carrier, doc, touch);
    assert forall|key: Seq<char>| key != "title"@ implies #[trigger] crate::meta::field(
        crate::reading::with_value(doc.meta, "title"@, MetaView::Text(title)),
        key,
    ) == crate::meta::field(doc.meta, key) by {
        crate::reading::law_value_reads(doc.meta, "title"@, MetaView::Text(title), key);
    }
    crate::reading::law_value_reads(doc.meta, "title"@, MetaView::Text(title), "title"@);
}

/// Whether a reference in `source` leads to `path` under a label that is not its title.
pub open spec fn is_stale(
    ws: WsView,
    source: Seq<char>,
    path: Seq<char>,
    title: Seq<char>,
    raw: Seq<char>,
) -> bool {
    &&& crate::link::parse_link(raw).label matches Some(label) && label != title
    &&& crate::workspace::reference_path(ws.ids, ws.name, source, raw) == Some(path)
}

/// The label of every reference that leads to a document follows its title: it reads with
/// the title for its label, and what it said else; and a reference without a label, under
/// the title already, or to another document, is as it was. So is the body of the document
/// that refers, and every entry that is no relation. Its edits read back.
pub proof fn law_labels_follow(
    ws: WsView,
    path: Seq<char>,
    title: Seq<char>,
    after: WsView,
    inverse: Seq<char>,
    source: Seq<char>,
    i: int,
    k: int,
)
    requires
        retitling(ws, path, title) matches Ok((cs, _)) && crate::change::landed(ws, cs) matches Ok(
            w,
        ) && w == after,
        crate::follow::distinct_names(ws.relations.relations),
        crate::workspace::spanning_names(ws.relations) matches Ok((_, v)) && v == inverse,
        crate::walk::surveyed(
            ws,
            crate::walk::root_of(ws, crate::path::normalized(path), inverse),
        ).contains(source),
        source != crate::path::normalized(path),
        0 <= i < ws.relations.relations.len(),
        crate::workspace::loaded(ws.files, source) matches Ok((_, doc)) && ({
            let raws = crate::meta::links_at(doc.meta, ws.relations.relations[i].name);
            0 <= k < raws.len() && crate::link::is_spelled(
                crate::link::with_label(crate::link::parse_link(raws[k]), title),
            )
        }),
    ensures
        ({
            let p = crate::path::normalized(path);
            let name = ws.relations.relations[i].name;
            let (text, doc) = crate::workspace::loaded(ws.files, source)->Ok_0;
            let raws = crate::meta::links_at(doc.meta, name);
            exists|touches: Seq<crate::reading::Touch>|
                {
                    &&& #[trigger] crate::reading::all_touched(text, doc.carrier, touches) matches Some(
                        out,
                    ) && crate::files::lookup(after.files, source) == Some(
                        crate::files::FileView::Text(out),
                    )
                    &&& crate::reading::reads_through(source, text, touches) ==> (
                    crate::workspace::loaded(after.files, source) matches Ok((_, now)) && ({
                        let news = crate::meta::links_at(now.meta, name);
                        &&& news.len() == raws.len()
                        &&& if is_stale(ws, source, p, title, raws[k]) {
                            crate::link::parse_link(news[k]) == crate::link::with_label(
                                crate::link::parse_link(raws[k]),
                                title,
                            )
                        } else {
                            news[k] == raws[k]
                        }
                        &&& now.body == doc.body
                    }))
                }
        }),
{
    let p = crate::path::normalized(path);
    let root = crate::walk::root_of(ws, p, inverse);
    let docs = crate::walk::surveyed(ws, root);
    let name = ws.relations.relations[i].name;
    let (text, doc) = crate::workspace::loaded(ws.files, source)->Ok_0;
    let raws = crate::meta::links_at(doc.meta, name);
    let rewrites = inbound_relabels(ws, p, title)->Ok_0.0;
    lemma_retitle_files(ws, path, title, after);
    crate::landing::law_walk(ws, Some(crate::walk::all_named(ws.files)), root);
    let j = choose|j: int| 0 <= j < docs.len() && docs[j] == source;
    lemma_relabelled_among(ws, docs, p, title, j);
    let edits = relabel_edits(ws, source, doc, p, title);
    let rule = crate::field::relabelled_entry(ws, source, p, title);
    crate::follow::law_references_respelled(ws, doc.meta, rule, i);
    crate::link::law_relabelled_reads_back(raws[k], title);
    let touches = if doc.carrier is Some {
        crate::reading::replacements(edits)
    } else {
        Seq::empty()
    };
    if doc.carrier is Some {
        crate::reading::lemma_replacements(text, doc.carrier->Some_0, doc, edits);
    }
    match relabelled(ws, source, p, title)->Ok_0 {
        Some((rewrite, _)) => {
            let r = choose|r: int| 0 <= r < rewrites.len() && #[trigger] rewrites[r] == rewrite;
            assert(crate::files::lookup(after.files, rewrites[r].path) == Some(
                crate::files::FileView::Text(rewrite.text),
            ));
        },
        None => {
            assert(edits.len() == 0 || doc.carrier is None);
            assert(touches =~= Seq::empty());
            assert(crate::files::lookup(after.files, source) == crate::files::lookup(
                ws.files,
                source,
            ));
        },
    }
    assert(crate::reading::all_touched(text, doc.carrier, touches) matches Some(out)
        && crate::files::lookup(after.files, source) == Some(crate::files::FileView::Text(out)));
    if crate::reading::reads_through(source, text, touches) {
        crate::reading::law_touched_reads(source, text, touches);
    }
}

/// How many of these references are stale.
pub open spec fn stale_among(
    ws: WsView,
    source: Seq<char>,
    path: Seq<char>,
    title: Seq<char>,
    raws: Seq<Seq<char>>,
) -> nat
    decreases raws.len(),
{
    if raws.len() == 0 {
        0
    } else {
        stale_among(ws, source, path, title, raws.drop_last()) + (if is_stale(
            ws,
            source,
            path,
            title,
            raws.last(),
        ) {
            1nat
        } else {
            0nat
        })
    }
}

/// How many references of a document are stale, in these relations.
pub open spec fn stale_in(
    ws: WsView,
    source: Seq<char>,
    path: Seq<char>,
    title: Seq<char>,
    meta: MetaView,
    relations: Seq<crate::relation::RelationView>,
) -> nat
    decreases relations.len(),
{
    if relations.len() == 0 {
        0
    } else {
        stale_in(ws, source, path, title, meta, relations.drop_last()) + stale_among(
            ws,
            source,
            path,
            title,
            crate::meta::links_at(meta, relations.last().name),
        )
    }
}

/// How many references of these documents, but for the one at `path`, are stale.
pub open spec fn stale_across(
    ws: WsView,
    docs: Seq<Seq<char>>,
    path: Seq<char>,
    title: Seq<char>,
) -> nat
    decreases docs.len(),
{
    if docs.len() == 0 {
        0
    } else {
        stale_across(ws, docs.drop_last(), path, title) + (match crate::workspace::loaded(
            ws.files,
            docs.last(),
        ) {
            Ok((_, doc)) => if docs.last() == path {
                0nat
            } else {
                stale_in(ws, docs.last(), path, title, doc.meta, ws.relations.relations)
            },
            Err(_) => 0nat,
        })
    }
}

proof fn lemma_stale_items(
    ws: WsView,
    source: Seq<char>,
    path: Seq<char>,
    title: Seq<char>,
    name: Seq<char>,
    style: crate::link::LinkStyle,
    items: Seq<MetaView>,
)
    ensures
        crate::field::item_edits(
            name,
            items,
            style,
            crate::field::relabelled_entry(ws, source, path, title),
        ).len() == stale_among(ws, source, path, title, crate::meta::texts_in(items)),
    decreases items.len(),
{
    if items.len() > 0 {
        lemma_stale_items(ws, source, path, title, name, style, items.drop_last());
        if items.last() is Text {
            assert(crate::meta::texts_in(items).drop_last() =~= crate::meta::texts_in(
                items.drop_last(),
            ));
        }
    }
}

proof fn lemma_stale_relations(
    ws: WsView,
    source: Seq<char>,
    path: Seq<char>,
    title: Seq<char>,
    meta: MetaView,
    relations: Seq<crate::relation::RelationView>,
)
    ensures
        crate::field::relation_edits(
            ws,
            meta,
            relations,
            crate::field::relabelled_entry(ws, source, path, title),
        ).len() == stale_in(ws, source, path, title, meta, relations),
    decreases relations.len(),
{
    if relations.len() > 0 {
        lemma_stale_relations(ws, source, path, title, meta, relations.drop_last());
        let name = relations.last().name;
        let style = crate::workspace::reference_style(ws, name).path_style;
        match crate::meta::field(meta, name) {
            Some(MetaView::List(items)) => {
                lemma_stale_items(ws, source, path, title, name, style, items);
            },
            Some(MetaView::Text(raw)) => {
                reveal_with_fuel(stale_among, 2);
                assert(crate::meta::links_at(meta, name) =~= seq![raw]);
                assert(seq![raw].drop_last() =~= Seq::empty());
            },
            _ => {},
        }
    }
}

proof fn lemma_stale_across(
    ws: WsView,
    docs: Seq<Seq<char>>,
    path: Seq<char>,
    title: Seq<char>,
)
    ensures
        relabelled_among(ws, docs, path, title) matches Ok((_, n)) ==> n == stale_across(
            ws,
            docs,
            path,
            title,
        ),
    decreases docs.len(),
{
    if docs.len() > 0 {
        lemma_stale_across(ws, docs.drop_last(), path, title);
        match crate::workspace::loaded(ws.files, docs.last()) {
            Ok((_, doc)) => {
                lemma_stale_relations(
                    ws,
                    docs.last(),
                    path,
                    title,
                    doc.meta,
                    ws.relations.relations,
                );
                if doc.carrier is None {
                    lemma_null_stale(ws, docs.last(), path, title, ws.relations.relations);
                }
            },
            Err(_) => {},
        }
    }
}

proof fn lemma_null_stale(
    ws: WsView,
    source: Seq<char>,
    path: Seq<char>,
    title: Seq<char>,
    relations: Seq<crate::relation::RelationView>,
)
    ensures
        stale_in(ws, source, path, title, MetaView::Null, relations) == 0,
    decreases relations.len(),
{
    if relations.len() > 0 {
        lemma_null_stale(ws, source, path, title, relations.drop_last());
    }
}

/// A new title tells how many labels follow: the references in the documents that a
/// survey covers that led to the document under another label.
pub proof fn law_labels_are_counted(
    ws: WsView,
    path: Seq<char>,
    title: Seq<char>,
    inverse: Seq<char>,
    n: usize,
)
    requires
        retitling(ws, path, title) matches Ok((_, m)) && m == n,
        crate::workspace::spanning_names(ws.relations) matches Ok((_, v)) && v == inverse,
    ensures
        ({
            let p = crate::path::normalized(path);
            let count = stale_across(
                ws,
                crate::walk::surveyed(ws, crate::walk::root_of(ws, p, inverse)),
                p,
                title,
            );
            n == count || (count > usize::MAX && n == usize::MAX)
        }),
{
    let p = crate::path::normalized(path);
    lemma_stale_across(
        ws,
        crate::walk::surveyed(ws, crate::walk::root_of(ws, p, inverse)),
        p,
        title,
    );
}

} // verus!
