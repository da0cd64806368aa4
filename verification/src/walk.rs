//! Walks over a workspace: up to its root, down the spanning relation, and over
//! every link that stands in the documents so reached.

use crate::document::Document;
use crate::files::FileSeq;
use crate::link::{IdRef, Link};
use crate::meta::Meta;
use crate::path::opt_text;
use crate::prose::scan_body_links;
use crate::text::same_text;
use crate::workspace::{Workspace, WsView};
use vstd::prelude::*;

verus! {

/// Whether `s` is among the texts.
pub fn among(v: &Vec<String>, s: &str) -> (r: bool)
    ensures
        r == crate::text::texts(v@).contains(s@),
{
    let mut i: usize = 0;
    while i < v.len()
        invariant
            i <= v@.len(),
            forall|j: int| 0 <= j < i ==> crate::text::texts(v@)[j] != s@,
        decreases v@.len() - i,
    {
        if same_text(&v[i], s) {
            proof {
                assert(crate::text::texts(v@)[i as int] == s@);
            }
            return true;
        }
        i = i + 1;
    }
    false
}

/// Adds a text.
pub fn push_text(v: &mut Vec<String>, s: String)
    ensures
        crate::text::texts(final(v)@) == crate::text::texts(old(v)@).push(s@),
{
    let ghost before = crate::text::texts(v@);
    v.push(s);
    proof {
        assert(crate::text::texts(v@) =~= before.push(s@));
    }
}

/// No texts.
pub fn no_texts() -> (r: Vec<String>)
    ensures
        crate::text::texts(r@) == Seq::<Seq<char>>::empty(),
{
    let v: Vec<String> = Vec::new();
    proof {
        assert(crate::text::texts(v@) =~= Seq::empty());
    }
    v
}

/// The same texts.
pub fn copy_texts(texts: &Vec<String>) -> (r: Vec<String>)
    ensures
        crate::text::texts(r@) == crate::text::texts(texts@),
{
    let mut out = no_texts();
    let ghost all = crate::text::texts(texts@);
    let mut i: usize = 0;
    proof {
        assert(all.take(0) =~= Seq::empty());
    }
    while i < texts.len()
        invariant
            i <= texts@.len(),
            all == crate::text::texts(texts@),
            crate::text::texts(out@) == all.take(i as int),
        decreases texts@.len() - i,
    {
        proof {
            assert(all.take(i + 1) =~= all.take(i as int).push(texts@[i as int]@));
        }
        push_text(&mut out, texts[i].clone());
        i = i + 1;
    }
    proof {
        assert(all.take(i as int) =~= all);
    }
    out
}

/// The number of files whose paths are not among `seen`.
pub open spec fn unseen(files: FileSeq, seen: Seq<Seq<char>>) -> nat
    decreases files.len(),
{
    if files.len() == 0 {
        0
    } else {
        unseen(files.drop_last(), seen) + if seen.contains(files.last().0) {
            0nat
        } else {
            1nat
        }
    }
}

pub proof fn lemma_unseen(files: FileSeq, seen: Seq<Seq<char>>, path: Seq<char>)
    ensures
        unseen(files, seen.push(path)) <= unseen(files, seen),
        crate::files::lookup(files, path) is Some && !seen.contains(path) ==> unseen(
            files,
            seen.push(path),
        ) < unseen(files, seen),
    decreases files.len(),
{
    if files.len() > 0 {
        lemma_unseen(files.drop_last(), seen, path);
        let more = seen.push(path);
        let last = files.last().0;
        assert(more.contains(path)) by {
            assert(more[seen.len() as int] == path);
        }
        if seen.contains(last) {
            let i = choose|i: int| 0 <= i < seen.len() && seen[i] == last;
            assert(more[i] == last);
        }
        if more.contains(last) && last != path {
            let i = choose|i: int| 0 <= i < more.len() && more[i] == last;
            assert(seen[i] == last);
        }
    }
}

/// The parent that the document at `path` names.
pub open spec fn up_from(ws: WsView, inverse: Seq<char>, path: Seq<char>) -> Option<Seq<char>> {
    match crate::workspace::loaded(ws.files, path) {
        Ok((_, doc)) => crate::workspace::single_path(ws, doc, inverse, path),
        Err(_) => None,
    }
}

/// The climb from parent to parent: the documents that were met, after `seen`,
/// and where it ended. It ends where no parent is named, or where it comes back
/// to a document.
pub open spec fn ascent(
    ws: WsView,
    inverse: Seq<char>,
    current: Seq<char>,
    seen: Seq<Seq<char>>,
) -> (Seq<Seq<char>>, Seq<char>)
    decreases unseen(ws.files, seen),
    via ascent_ends
{
    if seen.contains(current) {
        (seen, current)
    } else {
        match up_from(ws, inverse, current) {
            None => (seen.push(current), current),
            Some(parent) => ascent(ws, inverse, parent, seen.push(current)),
        }
    }
}

#[via_fn]
proof fn ascent_ends(
    ws: WsView,
    inverse: Seq<char>,
    current: Seq<char>,
    seen: Seq<Seq<char>>,
) {
    lemma_unseen(ws.files, seen, current);
}

/// The document that the workspace starts at, where it can be read.
pub open spec fn root_doc(ws: WsView) -> Option<Seq<char>> {
    match ws.root {
        Some(root) => if crate::workspace::loaded(ws.files, root) is Ok {
            Some(root)
        } else {
            None
        },
        None => None,
    }
}

/// The last document of the climb from `from` that can be read: a parent that cannot be
/// is not climbed to.
pub open spec fn top_of(ws: WsView, from: Seq<char>, inverse: Seq<char>) -> Seq<char> {
    let (rungs, end) = ascent(ws, inverse, from, Seq::empty());
    if rungs.len() >= 2 && crate::workspace::loaded(ws.files, end) is Err {
        rungs[rungs.len() - 2]
    } else {
        end
    }
}

/// The document that the workspace of `from` starts at: where the climb ends,
/// or the root where the climb goes nowhere and there is one to be read.
pub open spec fn root_of(ws: WsView, from: Seq<char>, inverse: Seq<char>) -> Seq<char> {
    let top = top_of(ws, from, inverse);
    match root_doc(ws) {
        Some(root) => if top == from {
            root
        } else {
            top
        },
        None => top,
    }
}

/// Where a survey on behalf of a directory is anchored: at the root, or at the
/// directory where there is none to be read.
pub open spec fn anchor_of(ws: WsView, dir: Seq<char>) -> Seq<char> {
    match root_doc(ws) {
        Some(root) => root,
        None => dir,
    }
}

/// A file by the names it goes by.
#[derive(Debug, PartialEq, Eq)]
pub struct Named {
    /// The file.
    pub path: String,
    /// Its name without its extension.
    pub stem: Option<String>,
    /// The title it declares.
    pub title: Option<String>,
}

/// What a [`Named`] holds.
pub struct NamedView {
    pub path: Seq<char>,
    pub stem: Option<Seq<char>>,
    pub title: Option<Seq<char>>,
}

impl View for Named {
    type V = NamedView;

    open spec fn view(&self) -> NamedView {
        NamedView { path: self.path@, stem: opt_text(self.stem), title: opt_text(self.title) }
    }
}

/// What named files hold.
pub open spec fn named_view(v: Seq<Named>) -> Seq<NamedView> {
    v.map_values(|n: Named| n@)
}

/// Whether a part of the path starts with a dot.
pub open spec fn is_hidden(path: Seq<char>) -> bool {
    exists|i: int|
        0 <= i < crate::path::parts(path).len() && crate::text::begins(
            #[trigger] crate::path::parts(path)[i],
            "."@,
        )
}

/// A title as text.
pub open spec fn title_text(value: crate::meta::MetaView) -> Option<Seq<char>> {
    match value {
        crate::meta::MetaView::Text(s) => Some(s),
        crate::meta::MetaView::Real(s) => Some(s),
        crate::meta::MetaView::Int(n) => Some(
            if n < 0 {
                "-"@ + crate::text::decimal(-n as nat)
            } else {
                crate::text::decimal(n as nat)
            },
        ),
        crate::meta::MetaView::Bool(b) => Some(
            if b {
                "true"@
            } else {
                "false"@
            },
        ),
        _ => None,
    }
}

/// The title that the file at `path` declares.
pub open spec fn declared_title(files: FileSeq, path: Seq<char>) -> Option<Seq<char>> {
    match crate::workspace::loaded(files, path) {
        Ok((_, doc)) => match crate::meta::field(doc.meta, "title"@) {
            Some(value) => title_text(value),
            None => None,
        },
        Err(_) => None,
    }
}

/// Whether links may name the file by a name: it is a document, and not hidden.
pub open spec fn is_nameable(path: Seq<char>) -> bool {
    !is_hidden(path) && !crate::document::is_opaque(path)
}

/// The first `n` files that links may name, with their names.
pub open spec fn named_files(files: FileSeq, n: int) -> Seq<NamedView>
    decreases n,
{
    if n <= 0 {
        Seq::empty()
    } else {
        let path = files[n - 1].0;
        let rest = named_files(files, n - 1);
        if is_nameable(path) {
            rest.push(
                NamedView {
                    path,
                    stem: crate::path::stem_of(path),
                    title: declared_title(files, path),
                },
            )
        } else {
            rest
        }
    }
}

/// The files that go by this name.
pub open spec fn going_by(named: Seq<NamedView>, name: Seq<char>) -> Seq<Seq<char>>
    decreases named.len(),
{
    if named.len() == 0 {
        Seq::empty()
    } else {
        let rest = going_by(named.drop_last(), name);
        if named.last().stem == Some(name) || named.last().title == Some(name) {
            rest.push(named.last().path)
        } else {
            rest
        }
    }
}

/// What a link reaches: a path, and the identifier it went by.
#[derive(Debug, PartialEq, Eq)]
pub struct Reach {
    /// The path.
    pub path: String,
    /// The identifier.
    pub id: Option<String>,
}

/// What a [`Reach`] holds.
pub struct ReachView {
    pub path: Seq<char>,
    pub id: Option<Seq<char>>,
}

impl View for Reach {
    type V = ReachView;

    open spec fn view(&self) -> ReachView {
        ReachView { path: self.path@, id: opt_text(self.id) }
    }
}

/// What an optional reach holds.
pub open spec fn reach_opt(r: Option<Reach>) -> Option<ReachView> {
    match r {
        Some(r) => Some(r@),
        None => None,
    }
}

/// Whether there is something at `path`.
pub open spec fn stands(files: FileSeq, path: Seq<char>) -> bool {
    crate::path::name_of(path) is Some && crate::files::occupied(files, path)
}

/// What an identifier of this workspace reaches.
pub open spec fn id_reach(ws: WsView, id: Seq<char>) -> Option<ReachView> {
    match crate::registry::path_of(ws.ids, id) {
        Some(path) => if crate::registry::is_identifier(id) {
            Some(ReachView { path: crate::path::normalized(path), id: Some(id) })
        } else {
            None
        },
        None => None,
    }
}

/// What a path reaches.
pub open spec fn path_reach(ws: WsView, path: Seq<char>) -> Option<ReachView> {
    if stands(ws.files, path) {
        Some(ReachView { path, id: None })
    } else {
        None
    }
}

/// What a link that stands in `source` reaches. A bare name is looked up among
/// the named files, where there are any, before it is read as a path.
pub open spec fn reached(
    ws: WsView,
    named: Option<Seq<NamedView>>,
    source: Seq<char>,
    target: Seq<char>,
) -> Option<ReachView> {
    if crate::link::is_external(target) || crate::link::is_same_document(target) {
        None
    } else {
        match crate::link::id_ref(target) {
            Some(crate::link::IdRefView::Local(id)) => id_reach(ws, id),
            Some(crate::link::IdRefView::Foreign(name, id)) => if ws.name.len() > 0 && name
                == ws.name {
                id_reach(ws, id)
            } else {
                None
            },
            Some(crate::link::IdRefView::Malformed) => None,
            None => {
                let name = crate::link::addressed(target);
                let found = match named {
                    Some(named) => if crate::link::is_alias_shaped(name) && crate::text::trimmed(
                        name,
                    ).len() > 0 {
                        going_by(named, name)
                    } else {
                        Seq::empty()
                    },
                    None => Seq::empty(),
                };
                if found.len() == 1 {
                    path_reach(ws, found[0])
                } else if found.len() > 1 {
                    None
                } else {
                    path_reach(ws, crate::link::resolve_path(source, target))
                }
            },
        }
    }
}

/// What a reference as it is written reaches.
pub open spec fn raw_reach(
    ws: WsView,
    named: Option<Seq<NamedView>>,
    source: Seq<char>,
    raw: Seq<char>,
) -> Option<Seq<char>> {
    match named {
        None => crate::workspace::reference_path(ws.ids, ws.name, source, raw),
        Some(_) => match reached(ws, named, source, crate::link::parse_link(raw).target) {
            Some(r) => Some(r.path),
            None => None,
        },
    }
}

/// The paths that references reach, leaving out those that reach none.
pub open spec fn raws_reach(
    ws: WsView,
    named: Option<Seq<NamedView>>,
    source: Seq<char>,
    raws: Seq<Seq<char>>,
) -> Seq<Seq<char>>
    decreases raws.len(),
{
    if raws.len() == 0 {
        Seq::empty()
    } else {
        let rest = raws_reach(ws, named, source, raws.drop_last());
        match raw_reach(ws, named, source, raws.last()) {
            Some(p) => rest.push(p),
            None => rest,
        }
    }
}

/// The children of the document at `path`; none where it cannot be read.
pub open spec fn children_of(ws: WsView, named: Option<Seq<NamedView>>, path: Seq<char>) -> Option<
    Seq<Seq<char>>,
> {
    match crate::workspace::loaded(ws.files, path) {
        Ok((_, doc)) => Some(
            raws_reach(
                ws,
                named,
                path,
                crate::workspace::child_references(ws.relations, doc.meta),
            ),
        ),
        Err(_) => None,
    }
}

/// The documents that are reached from those on the stack down the spanning
/// relation, after those in `out`. Each comes once, and what cannot be read is
/// left out.
pub open spec fn descent(
    ws: WsView,
    named: Option<Seq<NamedView>>,
    stack: Seq<Seq<char>>,
    seen: Seq<Seq<char>>,
    out: Seq<Seq<char>>,
) -> Seq<Seq<char>>
    decreases unseen(ws.files, seen), stack.len(),
    via descent_ends
{
    if stack.len() == 0 {
        out
    } else {
        let path = stack.last();
        let rest = stack.drop_last();
        if seen.contains(path) {
            descent(ws, named, rest, seen, out)
        } else {
            match children_of(ws, named, path) {
                None => descent(ws, named, rest, seen.push(path), out),
                Some(children) => descent(
                    ws,
                    named,
                    rest + children,
                    seen.push(path),
                    out.push(path),
                ),
            }
        }
    }
}

#[via_fn]
proof fn descent_ends(
    ws: WsView,
    named: Option<Seq<NamedView>>,
    stack: Seq<Seq<char>>,
    seen: Seq<Seq<char>>,
    out: Seq<Seq<char>>,
) {
    if stack.len() > 0 {
        lemma_unseen(ws.files, seen, stack.last());
    }
}

/// The documents under `root`, `root` among them.
pub open spec fn subtree(ws: WsView, root: Seq<char>) -> Seq<Seq<char>> {
    descent(ws, None, seq![root], Seq::empty(), Seq::empty())
}

/// Every file that links may name, with its names.
pub open spec fn all_named(files: FileSeq) -> Seq<NamedView> {
    named_files(files, files.len() as int)
}

/// The documents that a survey from `root` covers.
pub open spec fn surveyed(ws: WsView, root: Seq<char>) -> Seq<Seq<char>> {
    descent(ws, Some(all_named(ws.files)), seq![root], Seq::empty(), Seq::empty())
}

/// Where a link stands.
#[derive(Debug, PartialEq, Eq)]
pub enum LinkSite {
    /// In a field of the metadata, at a place of the list it holds.
    Relation(String, Option<usize>),
    /// In the body, from one byte to another.
    Body(usize, usize),
}

/// What a [`LinkSite`] holds.
pub enum SiteView {
    Relation(Seq<char>, Option<usize>),
    Body(int, int),
}

impl View for LinkSite {
    type V = SiteView;

    open spec fn view(&self) -> SiteView {
        match self {
            LinkSite::Relation(field, i) => SiteView::Relation(field@, *i),
            LinkSite::Body(a, b) => SiteView::Body(*a as int, *b as int),
        }
    }
}

/// A link that a survey found.
#[derive(Debug, PartialEq, Eq)]
pub struct Entry {
    /// Where it stands.
    pub site: LinkSite,
    /// Its target as it is written.
    pub target: String,
    /// What it reaches.
    pub reach: Option<Reach>,
}

/// What an [`Entry`] holds.
pub struct EntryView {
    pub site: SiteView,
    pub target: Seq<char>,
    pub reach: Option<ReachView>,
}

impl View for Entry {
    type V = EntryView;

    open spec fn view(&self) -> EntryView {
        EntryView { site: self.site@, target: self.target@, reach: reach_opt(self.reach) }
    }
}

/// What entries hold.
pub open spec fn entries_view(v: Seq<Entry>) -> Seq<EntryView> {
    v.map_values(|e: Entry| e@)
}

/// The entry of a reference in a field.
pub open spec fn field_entry(
    ws: WsView,
    named: Seq<NamedView>,
    path: Seq<char>,
    field: Seq<char>,
    index: Option<usize>,
    raw: Seq<char>,
) -> EntryView {
    let target = crate::link::parse_link(raw).target;
    EntryView {
        site: SiteView::Relation(field, index),
        target,
        reach: reached(ws, Some(named), path, target),
    }
}

/// The entries of the items of a list in a field.
pub open spec fn item_entries(
    ws: WsView,
    named: Seq<NamedView>,
    path: Seq<char>,
    field: Seq<char>,
    items: Seq<crate::meta::MetaView>,
) -> Seq<EntryView>
    decreases items.len(),
{
    if items.len() == 0 {
        Seq::empty()
    } else {
        let rest = item_entries(ws, named, path, field, items.drop_last());
        match items.last() {
            crate::meta::MetaView::Text(raw) => rest.push(
                field_entry(ws, named, path, field, Some((items.len() - 1) as usize), raw),
            ),
            _ => rest,
        }
    }
}

/// The entries of a field.
pub open spec fn value_entries(
    ws: WsView,
    named: Seq<NamedView>,
    path: Seq<char>,
    field: Seq<char>,
    value: Option<crate::meta::MetaView>,
) -> Seq<EntryView> {
    match value {
        Some(crate::meta::MetaView::Text(raw)) => seq![
            field_entry(ws, named, path, field, None, raw),
        ],
        Some(crate::meta::MetaView::List(items)) => item_entries(ws, named, path, field, items),
        _ => Seq::empty(),
    }
}

/// The entries of the fields that are relations.
pub open spec fn relation_entries(
    ws: WsView,
    named: Seq<NamedView>,
    path: Seq<char>,
    meta: crate::meta::MetaView,
    relations: Seq<crate::relation::RelationView>,
) -> Seq<EntryView>
    decreases relations.len(),
{
    if relations.len() == 0 {
        Seq::empty()
    } else {
        relation_entries(ws, named, path, meta, relations.drop_last()) + value_entries(
            ws,
            named,
            path,
            relations.last().name,
            crate::meta::field(meta, relations.last().name),
        )
    }
}

/// The entry of a link in the body. An image is no bare name.
pub open spec fn body_entry(
    ws: WsView,
    named: Seq<NamedView>,
    path: Seq<char>,
    body: Seq<char>,
    l: crate::prose::BodyLinkView,
) -> EntryView {
    EntryView {
        site: SiteView::Body(
            crate::text::byte_at(body, l.start),
            crate::text::byte_at(body, l.end),
        ),
        target: l.link.target,
        reach: reached(
            ws,
            if l.image {
                None
            } else {
                Some(named)
            },
            path,
            l.link.target,
        ),
    }
}

/// Every link of a document.
pub open spec fn entries_of(
    ws: WsView,
    named: Seq<NamedView>,
    path: Seq<char>,
    doc: crate::document::DocView,
) -> Seq<EntryView> {
    relation_entries(ws, named, path, doc.meta, ws.relations.relations)
        + crate::prose::body_links(path, doc.body).map_values(
        |l: crate::prose::BodyLinkView| body_entry(ws, named, path, doc.body, l),
    )
}

/// Whether a part of the path starts with a dot.
pub fn hidden(path: &str) -> (r: bool)
    ensures
        r == is_hidden(path@),
{
    let ps = crate::path::path_parts(path);
    let mut i: usize = 0;
    while i < ps.len()
        invariant
            i <= ps@.len(),
            crate::text::texts(ps@) == crate::path::parts(path@),
            forall|j: int|
                0 <= j < i ==> !crate::text::begins(
                    #[trigger] crate::path::parts(path@)[j],
                    "."@,
                ),
        decreases ps@.len() - i,
    {
        proof {
            assert(crate::text::texts(ps@)[i as int] == ps@[i as int]@);
        }
        if crate::link::starts_with(&ps[i], ".") {
            return true;
        }
        i = i + 1;
    }
    false
}

/// A title as text.
fn read_title(value: &Meta) -> (r: Option<String>)
    ensures
        opt_text(r) == title_text(value@),
{
    match value {
        Meta::Text(s) => Some(s.clone()),
        Meta::Real(s) => Some(s.clone()),
        Meta::Int(n) => {
            let n: i64 = *n;
            if n < 0 {
                let size: u64 = (-(n + 1)) as u64 + 1;
                Some("-".to_owned().concat(&crate::text::number_text(size)))
            } else {
                Some(crate::text::number_text(n as u64))
            }
        },
        Meta::Bool(b) => if *b {
            Some("true".to_owned())
        } else {
            Some("false".to_owned())
        },
        _ => None,
    }
}

/// The files that go by this name.
fn find_named(named: &Vec<Named>, name: &str) -> (r: Vec<String>)
    ensures
        crate::text::texts(r@) == going_by(named_view(named@), name@),
{
    let ghost all = named_view(named@);
    let mut out = no_texts();
    let mut i: usize = 0;
    proof {
        assert(all.take(0) =~= Seq::empty());
    }
    while i < named.len()
        invariant
            i <= named@.len(),
            all == named_view(named@),
            crate::text::texts(out@) == going_by(all.take(i as int), name@),
        decreases named@.len() - i,
    {
        let n = &named[i];
        proof {
            assert(all.take(i + 1).drop_last() =~= all.take(i as int));
            assert(all.take(i + 1).last() == n@);
        }
        let by_stem = match &n.stem {
            Some(s) => same_text(s, name),
            None => false,
        };
        let by_title = match &n.title {
            Some(s) => same_text(s, name),
            None => false,
        };
        if by_stem || by_title {
            push_text(&mut out, n.path.clone());
        }
        i = i + 1;
    }
    proof {
        assert(all.take(i as int) =~= all);
    }
    out
}

/// What optional named files hold.
pub open spec fn named_opt(named: Option<&Vec<Named>>) -> Option<Seq<NamedView>> {
    match named {
        Some(v) => Some(named_view(v@)),
        None => None,
    }
}

impl Workspace {
    /// The climb from parent to parent from `from`: the documents that were met,
    /// and where it ended.
    pub fn climb(&self, from: &str, inverse: &str) -> (r: (Vec<String>, String))
        ensures
            (crate::text::texts(r.0@), r.1@) == ascent(self@, inverse@, from@, Seq::empty()),
    {
        let mut current = from.to_owned();
        let mut seen = no_texts();
        let ghost goal = ascent(self@, inverse@, from@, Seq::empty());
        loop
            invariant
                ascent(self@, inverse@, current@, crate::text::texts(seen@)) == goal,
                goal == ascent(self@, inverse@, from@, Seq::empty()),
            decreases unseen(self@.files, crate::text::texts(seen@)),
        {
            if among(&seen, &current) {
                return (seen, current);
            }
            let up = match self.load(&current) {
                Ok((_, doc)) => self.single_target(&doc, inverse, &current),
                Err(_) => None,
            };
            proof {
                lemma_unseen(self@.files, crate::text::texts(seen@), current@);
            }
            match up {
                None => {
                    push_text(&mut seen, current.clone());
                    return (seen, current);
                },
                Some(parent) => {
                    push_text(&mut seen, current);
                    current = parent;
                },
            }
        }
    }

    /// The document that the workspace starts at; none where it names none that can
    /// be read.
    pub fn root_document(&self) -> (r: Option<String>)
        ensures
            opt_text(r) == root_doc(self@),
    {
        match &self.root {
            Some(root) => match self.load(root) {
                Ok(_) => Some(root.clone()),
                Err(_) => None,
            },
            None => None,
        }
    }

    /// Where a survey on behalf of the directory `dir` is anchored.
    pub(crate) fn anchor(&self, dir: &str) -> (r: String)
        ensures
            r@ == anchor_of(self@, dir@),
    {
        match self.root_document() {
            Some(root) => root,
            None => dir.to_owned(),
        }
    }

    /// The last document of the climb from `from` that can be read.
    fn climb_to_top(&self, from: &str, inverse: &str) -> (r: String)
        ensures
            r@ == top_of(self@, from@, inverse@),
    {
        let (rungs, end) = self.climb(from, inverse);
        proof {
            assert(crate::text::texts(rungs@).len() == rungs@.len());
        }
        match self.load(&end) {
            Ok(_) => end,
            Err(_) => if rungs.len() >= 2 {
                proof {
                    assert(crate::text::texts(rungs@)[rungs@.len() - 2] == rungs@[rungs@.len()
                        - 2]@);
                }
                rungs[rungs.len() - 2].clone()
            } else {
                end
            },
        }
    }

    /// The document that the workspace of `from` starts at: the end of the climb
    /// from parent to parent, or the root where the climb goes nowhere and there is
    /// one to be read.
    pub fn spanning_root(&self, from: &str, inverse: &str) -> (r: String)
        ensures
            r@ == root_of(self@, from@, inverse@),
    {
        let top = self.climb_to_top(from, inverse);
        if same_text(&top, from) {
            match self.root_document() {
                Some(root) => root,
                None => top,
            }
        } else {
            top
        }
    }

    fn reach_id(&self, id: &str) -> (r: Option<Reach>)
        ensures
            reach_opt(r) == id_reach(self@, id@),
    {
        match self.registry.resolve(id) {
            Some(path) => if crate::registry::verify(id) {
                Some(Reach { path: crate::path::normalize(&path), id: Some(id.to_owned()) })
            } else {
                None
            },
            None => None,
        }
    }

    fn reach_path(&self, path: &str) -> (r: Option<Reach>)
        ensures
            reach_opt(r) == path_reach(self@, path@),
    {
        if crate::path::file_name(path).is_some() && self.is_taken(path) {
            Some(Reach { path: path.to_owned(), id: None })
        } else {
            None
        }
    }

    /// What a link that stands in `source` reaches. A bare name is looked up
    /// among the named files, where there are any, before it is read as a path.
    pub fn reach(&self, named: Option<&Vec<Named>>, source: &str, link: &Link) -> (r: Option<Reach>)
        ensures
            reach_opt(r) == reached(self@, named_opt(named), source@, link@.target),
    {
        proof {
            reveal_strlit("");
            assert(self.name@.len() == 0 ==> self.name@ =~= ""@);
        }
        if link.is_external() || link.is_same_document() {
            return None;
        }
        match link.id_ref() {
            Some(IdRef::Local(id)) => self.reach_id(&id),
            Some(IdRef::Foreign(name, id)) => if !same_text(&self.name, "") && same_text(
                &name,
                &self.name,
            ) {
                self.reach_id(&id)
            } else {
                None
            },
            Some(IdRef::Malformed) => None,
            None => {
                let name = link.addressed_target();
                let blank = crate::link::trim(&name);
                proof {
                    assert(blank@.len() == 0 ==> blank@ =~= ""@);
                }
                let found = match named {
                    Some(named) => if crate::link::alias_shaped(&name) && !same_text(&blank, "") {
                        find_named(named, &name)
                    } else {
                        no_texts()
                    },
                    None => no_texts(),
                };
                proof {
                    assert(crate::text::texts(found@).len() == found@.len());
                }
                if found.len() == 1 {
                    proof {
                        assert(crate::text::texts(found@)[0] == found@[0]@);
                    }
                    self.reach_path(&found[0])
                } else if found.len() > 1 {
                    None
                } else {
                    self.reach_path(&crate::link::resolve(source, &link.target))
                }
            },
        }
    }

    fn reach_raw(&self, named: Option<&Vec<Named>>, source: &str, raw: &str) -> (r: Option<String>)
        ensures
            opt_text(r) == raw_reach(self@, named_opt(named), source@, raw@),
    {
        match named {
            None => self.resolve_path(source, raw),
            Some(_) => match self.reach(named, source, &Link::parse(raw)) {
                Some(r) => Some(r.path),
                None => None,
            },
        }
    }

    /// The documents that are reached from `root` down the spanning relation.
    fn descend(&self, named: Option<&Vec<Named>>, root: &str) -> (r: Vec<String>)
        ensures
            crate::text::texts(r@) == descent(
                self@,
                named_opt(named),
                seq![root@],
                Seq::empty(),
                Seq::empty(),
            ),
    {
        let mut stack = no_texts();
        let mut seen = no_texts();
        let mut out = no_texts();
        push_text(&mut stack, root.to_owned());
        let ghost rows = named_opt(named);
        let ghost goal = descent(self@, rows, seq![root@], Seq::empty(), Seq::empty());
        proof {
            assert(crate::text::texts(stack@) =~= seq![root@]);
        }
        while stack.len() > 0
            invariant
                rows == named_opt(named),
                descent(
                    self@,
                    rows,
                    crate::text::texts(stack@),
                    crate::text::texts(seen@),
                    crate::text::texts(out@),
                ) == goal,
            decreases unseen(self@.files, crate::text::texts(seen@)), stack@.len(),
        {
            let ghost stack0 = crate::text::texts(stack@);
            let ghost seen0 = crate::text::texts(seen@);
            let path = stack.pop().unwrap();
            proof {
                assert(stack0.last() == path@);
                assert(crate::text::texts(stack@) =~= stack0.drop_last());
                lemma_unseen(self@.files, seen0, path@);
            }
            if !among(&seen, &path) {
                push_text(&mut seen, path.clone());
                match self.load(&path) {
                    Err(_) => {},
                    Ok((_, doc)) => {
                        let raws = self.child_links(&doc);
                        let ghost all = crate::text::texts(raws@);
                        let ghost below = crate::text::texts(stack@);
                        let mut i: usize = 0;
                        proof {
                            assert(all.take(0) =~= Seq::empty());
                            assert(below + raws_reach(self@, rows, path@, all.take(0)) =~= below);
                        }
                        while i < raws.len()
                            invariant
                                i <= raws@.len(),
                                rows == named_opt(named),
                                all == crate::text::texts(raws@),
                                crate::text::texts(stack@) == below + raws_reach(
                                    self@,
                                    rows,
                                    path@,
                                    all.take(i as int),
                                ),
                            decreases raws@.len() - i,
                        {
                            proof {
                                assert(all.take(i + 1).drop_last() =~= all.take(i as int));
                                assert(all.take(i + 1).last() == raws@[i as int]@);
                            }
                            match self.reach_raw(named, &path, &raws[i]) {
                                Some(child) => {
                                    push_text(&mut stack, child);
                                    proof {
                                        assert(crate::text::texts(stack@) =~= below + raws_reach(
                                            self@,
                                            rows,
                                            path@,
                                            all.take(i + 1),
                                        ));
                                    }
                                },
                                None => {},
                            }
                            i = i + 1;
                        }
                        proof {
                            assert(all.take(i as int) =~= all);
                        }
                        push_text(&mut out, path);
                    },
                }
            }
        }
        out
    }

    /// The documents under `root`, `root` among them.
    pub fn spanning_subtree(&self, root: &str) -> (r: Vec<String>)
        ensures
            crate::text::texts(r@) == subtree(self@, root@),
    {
        self.descend(None, root)
    }

    /// Every file that links may name, with its names.
    pub fn name_files(&self) -> (r: Vec<Named>)
        ensures
            named_view(r@) == all_named(self@.files),
    {
        let ghost files = self@.files;
        let mut out: Vec<Named> = Vec::new();
        let mut i: usize = 0;
        proof {
            assert(named_view(out@) =~= Seq::empty());
        }
        while i < self.files.entries.len()
            invariant
                i <= self.files.entries@.len(),
                files == self@.files,
                files.len() == self.files.entries@.len(),
                named_view(out@) == named_files(files, i as int),
            decreases self.files.entries@.len() - i,
        {
            let path = &self.files.entries[i].0;
            proof {
                assert(files[i as int].0 == path@);
            }
            if !hidden(path) && !crate::document::is_opaque_payload(path) {
                let title = match self.load(path) {
                    Ok((_, doc)) => match doc.meta.get("title") {
                        Some(value) => read_title(value),
                        None => None,
                    },
                    Err(_) => None,
                };
                let row = Named {
                    path: path.clone(),
                    stem: crate::path::file_stem(path),
                    title,
                };
                let ghost before = named_view(out@);
                out.push(row);
                proof {
                    assert(named_view(out@) =~= before.push(row@));
                }
            }
            i = i + 1;
        }
        out
    }

    /// The documents that a survey from `root` covers.
    pub fn survey(&self, named: &Vec<Named>, root: &str) -> (r: Vec<String>)
        requires
            named_view(named@) == all_named(self@.files),
        ensures
            crate::text::texts(r@) == surveyed(self@, root@),
    {
        self.descend(Some(named), root)
    }

    fn enter_field(
        &self,
        named: &Vec<Named>,
        path: &str,
        field: &str,
        value: Option<&Meta>,
        out: &mut Vec<Entry>,
    )
        ensures
            entries_view(final(out)@) == entries_view(old(out)@) + value_entries(
                self@,
                named_view(named@),
                path@,
                field@,
                match value {
                    Some(v) => Some(v@),
                    None => None,
                },
            ),
    {
        broadcast use crate::meta::lemma_list_view;

        let ghost rows = named_view(named@);
        let ghost before = entries_view(out@);
        match value {
            Some(Meta::Text(raw)) => {
                let link = Link::parse(raw);
                let reach = self.reach(Some(named), path, &link);
                let entry = Entry {
                    site: LinkSite::Relation(field.to_owned(), None),
                    target: link.target,
                    reach,
                };
                out.push(entry);
                proof {
                    assert(entries_view(out@) =~= before + seq![
                        field_entry(self@, rows, path@, field@, None, raw@),
                    ]);
                }
            },
            Some(Meta::List(items)) => {
                let ghost all = crate::meta::items_view(items@);
                let mut i: usize = 0;
                proof {
                    assert(all.take(0) =~= Seq::empty());
                    assert(before + item_entries(self@, rows, path@, field@, all.take(0))
                        =~= before);
                }
                while i < items.len()
                    invariant
                        i <= items@.len(),
                        rows == named_view(named@),
                        all == crate::meta::items_view(items@),
                        entries_view(out@) == before + item_entries(
                            self@,
                            rows,
                            path@,
                            field@,
                            all.take(i as int),
                        ),
                    decreases items@.len() - i,
                {
                    proof {
                        assert(all.take(i + 1).drop_last() =~= all.take(i as int));
                        assert(all.take(i + 1).last() == items@[i as int]@);
                    }
                    match &items[i] {
                        Meta::Text(raw) => {
                            let link = Link::parse(raw);
                            let reach = self.reach(Some(named), path, &link);
                            let entry = Entry {
                                site: LinkSite::Relation(field.to_owned(), Some(i)),
                                target: link.target,
                                reach,
                            };
                            let ghost so_far = entries_view(out@);
                            out.push(entry);
                            proof {
                                assert(entries_view(out@) =~= so_far.push(entry@));
                                assert(entries_view(out@) =~= before + item_entries(
                                    self@,
                                    rows,
                                    path@,
                                    field@,
                                    all.take(i + 1),
                                ));
                            }
                        },
                        _ => {},
                    }
                    i = i + 1;
                }
                proof {
                    assert(all.take(i as int) =~= all);
                }
            },
            _ => {
                proof {
                    assert(before + Seq::<EntryView>::empty() =~= before);
                }
            },
        }
    }

    /// Every link of the document at `path`, with what it reaches.
    pub fn entries(&self, named: &Vec<Named>, path: &str, doc: &Document) -> (r: Vec<Entry>)
        ensures
            entries_view(r@) == entries_of(self@, named_view(named@), path@, doc@),
    {
        let ghost rows = named_view(named@);
        let ghost relations = self@.relations.relations;
        let mut out: Vec<Entry> = Vec::new();
        let mut i: usize = 0;
        proof {
            assert(relations.take(0) =~= Seq::empty());
            assert(entries_view(out@) =~= Seq::empty());
        }
        while i < self.relations.relations.len()
            invariant
                i <= self.relations.relations@.len(),
                rows == named_view(named@),
                relations == self@.relations.relations,
                entries_view(out@) == relation_entries(
                    self@,
                    rows,
                    path@,
                    doc@.meta,
                    relations.take(i as int),
                ),
            decreases self.relations.relations@.len() - i,
        {
            let field = &self.relations.relations[i].name;
            proof {
                assert(relations.take(i + 1).drop_last() =~= relations.take(i as int));
                assert(relations.take(i + 1).last() == self.relations.relations@[i as int]@);
            }
            self.enter_field(named, path, field, doc.meta.get(field), &mut out);
            i = i + 1;
        }
        proof {
            assert(relations.take(i as int) =~= relations);
        }
        let cs = crate::text::chars_of(&doc.body);
        let links = scan_body_links(path, &doc.body);
        let ghost all = crate::prose::links_view(links@);
        let ghost front = entries_view(out@);
        let ghost rule = |l: crate::prose::BodyLinkView|
            body_entry(self@, rows, path@, doc.body@, l);
        let mut k: usize = 0;
        proof {
            assert(front + all.take(0).map_values(rule) =~= front);
        }
        while k < links.len()
            invariant
                k <= links@.len(),
                rows == named_view(named@),
                cs@ == doc.body@,
                all == crate::prose::links_view(links@),
                crate::prose::is_spaced(all, cs@.len() as int),
                rule == (|l: crate::prose::BodyLinkView|
                    body_entry(self@, rows, path@, doc.body@, l)),
                entries_view(out@) == front + all.take(k as int).map_values(rule),
            decreases links@.len() - k,
        {
            let l = &links[k];
            proof {
                assert(all[k as int] == l@);
                assert(l.start <= l.end <= cs@.len());
            }
            let reach = self.reach(
                if l.image {
                    None
                } else {
                    Some(named)
                },
                path,
                &l.link,
            );
            let entry = Entry {
                site: LinkSite::Body(
                    crate::text::bytes_before(&cs, l.start),
                    crate::text::bytes_before(&cs, l.end),
                ),
                target: l.link.target.clone(),
                reach,
            };
            let ghost so_far = entries_view(out@);
            out.push(entry);
            proof {
                assert(entries_view(out@) =~= so_far.push(entry@));
                assert(entries_view(out@) =~= front + all.take(k + 1).map_values(rule));
            }
            k = k + 1;
        }
        proof {
            assert(all.take(k as int) =~= all);
        }
        out
    }
}

/// One link as it is in two workspaces: it stands at the same place, with the same
/// target, and reaches in each what its target reaches there, by a bare name too unless
/// it is an image.
pub open spec fn same_link(
    ws: WsView,
    named: Seq<NamedView>,
    after: WsView,
    named_after: Seq<NamedView>,
    path: Seq<char>,
    entry: EntryView,
    now: EntryView,
) -> bool {
    &&& entry.site == now.site
    &&& entry.target == now.target
    &&& (entry.reach == reached(ws, Some(named), path, entry.target) && now.reach == reached(
        after,
        Some(named_after),
        path,
        entry.target,
    )) || (entry.reach == reached(ws, None, path, entry.target) && now.reach == reached(
        after,
        None,
        path,
        entry.target,
    ))
}

/// Whether these are the same links in two workspaces.
pub open spec fn same_links(
    ws: WsView,
    named: Seq<NamedView>,
    after: WsView,
    named_after: Seq<NamedView>,
    path: Seq<char>,
    entries: Seq<EntryView>,
    now: Seq<EntryView>,
) -> bool {
    &&& entries.len() == now.len()
    &&& forall|e: int|
        0 <= e < entries.len() ==> same_link(
            ws,
            named,
            after,
            named_after,
            path,
            #[trigger] entries[e],
            now[e],
        )
}

proof fn lemma_same_items(
    ws: WsView,
    named: Seq<NamedView>,
    after: WsView,
    named_after: Seq<NamedView>,
    path: Seq<char>,
    field: Seq<char>,
    items: Seq<crate::meta::MetaView>,
)
    ensures
        same_links(
            ws,
            named,
            after,
            named_after,
            path,
            item_entries(ws, named, path, field, items),
            item_entries(after, named_after, path, field, items),
        ),
    decreases items.len(),
{
    if items.len() > 0 {
        lemma_same_items(ws, named, after, named_after, path, field, items.drop_last());
    }
}

proof fn lemma_same_relations(
    ws: WsView,
    named: Seq<NamedView>,
    after: WsView,
    named_after: Seq<NamedView>,
    path: Seq<char>,
    meta: crate::meta::MetaView,
    relations: Seq<crate::relation::RelationView>,
)
    ensures
        same_links(
            ws,
            named,
            after,
            named_after,
            path,
            relation_entries(ws, named, path, meta, relations),
            relation_entries(after, named_after, path, meta, relations),
        ),
    decreases relations.len(),
{
    if relations.len() > 0 {
        let rest = relations.drop_last();
        lemma_same_relations(ws, named, after, named_after, path, meta, rest);
        let name = relations.last().name;
        let value = crate::meta::field(meta, name);
        match value {
            Some(crate::meta::MetaView::List(items)) => {
                lemma_same_items(ws, named, after, named_after, path, name, items);
            },
            _ => {},
        }
        let before = relation_entries(ws, named, path, meta, rest);
        let more = value_entries(ws, named, path, name, value);
        let more_now = value_entries(after, named_after, path, name, value);
        assert(same_links(ws, named, after, named_after, path, more, more_now));
        let all = relation_entries(ws, named, path, meta, relations);
        let now = relation_entries(after, named_after, path, meta, relations);
        assert forall|e: int| 0 <= e < all.len() implies same_link(
            ws,
            named,
            after,
            named_after,
            path,
            #[trigger] all[e],
            now[e],
        ) by {
            if e >= before.len() {
                assert(all[e] == more[e - before.len()]);
                assert(now[e] == more_now[e - before.len()]);
            } else {
                assert(all[e] == before[e]);
            }
        }
    }
}

/// A document that reads the same in two workspaces has the same links in both.
pub proof fn law_same_links(
    ws: WsView,
    named: Seq<NamedView>,
    after: WsView,
    named_after: Seq<NamedView>,
    path: Seq<char>,
    doc: crate::document::DocView,
)
    requires
        ws.relations.relations == after.relations.relations,
    ensures
        same_links(
            ws,
            named,
            after,
            named_after,
            path,
            entries_of(ws, named, path, doc),
            entries_of(after, named_after, path, doc),
        ),
{
    let front = relation_entries(ws, named, path, doc.meta, ws.relations.relations);
    let front_now = relation_entries(after, named_after, path, doc.meta, ws.relations.relations);
    lemma_same_relations(
        ws,
        named,
        after,
        named_after,
        path,
        doc.meta,
        ws.relations.relations,
    );
    let all = entries_of(ws, named, path, doc);
    let now = entries_of(after, named_after, path, doc);
    assert forall|e: int| 0 <= e < all.len() implies same_link(
        ws,
        named,
        after,
        named_after,
        path,
        #[trigger] all[e],
        now[e],
    ) by {
        if e < front.len() {
            assert(all[e] == front[e]);
            assert(now[e] == front_now[e]);
        }
    }
}

proof fn lemma_ascent_reads(
    ws: WsView,
    inverse: Seq<char>,
    current: Seq<char>,
    seen: Seq<Seq<char>>,
)
    requires
        forall|j: int|
            0 <= j < seen.len() ==> crate::workspace::loaded(ws.files, #[trigger] seen[j]) is Ok,
    ensures
        ({
            let (rungs, end) = ascent(ws, inverse, current, seen);
            crate::workspace::loaded(ws.files, end) is Err ==> rungs.len() > 0 && rungs.last()
                == end && (forall|j: int|
                0 <= j < rungs.len() - 1 ==> crate::workspace::loaded(
                    ws.files,
                    #[trigger] rungs[j],
                ) is Ok)
        }),
    decreases unseen(ws.files, seen),
{
    lemma_unseen(ws.files, seen, current);
    if seen.contains(current) {
        let j = choose|j: int| 0 <= j < seen.len() && seen[j] == current;
        assert(crate::workspace::loaded(ws.files, seen[j]) is Ok);
    } else {
        match up_from(ws, inverse, current) {
            None => {
                assert forall|j: int| 0 <= j < seen.push(current).len() - 1 implies
                    crate::workspace::loaded(ws.files, #[trigger] seen.push(current)[j]) is Ok by {
                    assert(crate::workspace::loaded(ws.files, seen[j]) is Ok);
                }
            },
            Some(parent) => {
                assert forall|j: int| 0 <= j < seen.push(current).len() implies
                    crate::workspace::loaded(ws.files, #[trigger] seen.push(current)[j]) is Ok by {
                    if j < seen.len() {
                        assert(crate::workspace::loaded(ws.files, seen[j]) is Ok);
                    }
                }
                lemma_ascent_reads(ws, inverse, parent, seen.push(current));
            },
        }
    }
}

/// The workspace of a document that can be read starts at one that can be read.
pub proof fn law_start_reads(ws: WsView, from: Seq<char>, inverse: Seq<char>)
    requires
        crate::workspace::loaded(ws.files, from) is Ok,
    ensures
        crate::workspace::loaded(ws.files, root_of(ws, from, inverse)) is Ok,
{
    lemma_ascent_reads(ws, inverse, from, Seq::empty());
    let (rungs, end) = ascent(ws, inverse, from, Seq::empty());
    if crate::workspace::loaded(ws.files, end) is Err {
        if rungs.len() == 1 {
            lemma_ascent_starts(ws, inverse, from, Seq::empty());
            assert(rungs[0] == from);
        } else {
            assert(crate::workspace::loaded(ws.files, rungs[rungs.len() - 2]) is Ok);
        }
    }
}

proof fn lemma_ascent_starts(
    ws: WsView,
    inverse: Seq<char>,
    current: Seq<char>,
    seen: Seq<Seq<char>>,
)
    ensures
        ({
            let rungs = ascent(ws, inverse, current, seen).0;
            &&& rungs.len() >= seen.len()
            &&& forall|j: int| 0 <= j < seen.len() ==> #[trigger] rungs[j] == seen[j]
            &&& !seen.contains(current) ==> rungs.len() > seen.len() && rungs[seen.len() as int]
                == current
        }),
    decreases unseen(ws.files, seen),
{
    lemma_unseen(ws.files, seen, current);
    if !seen.contains(current) {
        match up_from(ws, inverse, current) {
            None => {},
            Some(parent) => {
                let more = seen.push(current);
                lemma_ascent_starts(ws, inverse, parent, more);
                let rungs = ascent(ws, inverse, parent, more).0;
                assert(rungs[seen.len() as int] == more[seen.len() as int]);
                assert forall|j: int| 0 <= j < seen.len() implies #[trigger] rungs[j]
                    == seen[j] by {
                    assert(rungs[j] == more[j]);
                }
            },
        }
    }
}

} // verus!
