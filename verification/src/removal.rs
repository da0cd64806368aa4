//! What a removal would leave behind: the node of a body, and the links that
//! would lead nowhere.

use crate::error::Error;
use crate::files::FileSeq;
use crate::path::opt_text;
use crate::text::same_text;
use crate::walk::{Entry, EntryView, LinkSite, Named, NamedView, SiteView};
use crate::workspace::{Outcome, Workspace, WsView};
use vstd::prelude::*;

verus! {

/// Whether a removal says what it breaks.
#[derive(Debug, Clone, Copy, PartialEq, Eq, Structural)]
pub enum Diagnosis {
    /// It does.
    Report,
    /// It does not look.
    Skip,
}

impl Default for Diagnosis {
    fn default() -> (r: Diagnosis)
        ensures
            r == Diagnosis::Report,
    {
        Diagnosis::Report
    }
}

/// A link that a removal breaks.
#[derive(Debug, PartialEq, Eq)]
pub enum Finding {
    /// In this document, at this place, to this identifier.
    DanglingId(String, LinkSite, String),
    /// In this document, at this place, to this target.
    BrokenLink(String, LinkSite, String),
}

/// What a [`Finding`] holds.
pub enum FindingView {
    DanglingId(Seq<char>, SiteView, Seq<char>),
    BrokenLink(Seq<char>, SiteView, Seq<char>),
}

impl View for Finding {
    type V = FindingView;

    open spec fn view(&self) -> FindingView {
        match self {
            Finding::DanglingId(doc, site, id) => FindingView::DanglingId(doc@, site@, id@),
            Finding::BrokenLink(doc, site, target) => FindingView::BrokenLink(
                doc@,
                site@,
                target@,
            ),
        }
    }
}

/// What findings hold.
pub open spec fn findings_view(v: Seq<Finding>) -> Seq<FindingView> {
    v.map_values(|f: Finding| f@)
}

/// Whether the file at `node` is a node whose content file is `body`.
pub open spec fn owns(files: FileSeq, node: Seq<char>, body: Seq<char>) -> bool {
    &&& node != body
    &&& crate::path::parent_of(node) == crate::path::parent_of(body)
    &&& !crate::text::begins(crate::maintain::name_or_empty(node), "."@)
    &&& crate::document::file_format(node) is Some
    &&& match crate::workspace::loaded(files, node) {
        Ok((_, doc)) => crate::maintain::content_file(doc, node) == Some(body),
        Err(_) => false,
    }
}

/// The first node, from a place on, whose content file is `body`.
pub open spec fn owner_from(files: FileSeq, body: Seq<char>, i: int) -> Option<Seq<char>>
    decreases files.len() - i,
{
    if i >= files.len() {
        None
    } else if owns(files, files[i].0, body) {
        Some(files[i].0)
    } else {
        owner_from(files, body, i + 1)
    }
}

/// The node whose content file is `body`: a metadata file beside it that names
/// it.
pub open spec fn owner_of(files: FileSeq, body: Seq<char>) -> Option<Seq<char>> {
    owner_from(files, body, 0)
}

/// The node beside a file that it owns is found, and only such a node.
pub proof fn law_owner(files: FileSeq, body: Seq<char>)
    ensures
        match owner_of(files, body) {
            Some(node) => owns(files, node, body),
            None => forall|i: int|
                0 <= i < files.len() ==> !owns(files, (#[trigger] files[i]).0, body),
        },
{
    lemma_owner(files, body, 0);
}

proof fn lemma_owner(files: FileSeq, body: Seq<char>, i: int)
    requires
        0 <= i,
    ensures
        match owner_from(files, body, i) {
            Some(node) => owns(files, node, body),
            None => forall|j: int|
                i <= j < files.len() ==> !owns(files, (#[trigger] files[j]).0, body),
        },
    decreases files.len() - i,
{
    if i < files.len() && !owns(files, files[i].0, body) {
        lemma_owner(files, body, i + 1);
    }
}

/// What the removal of `path` makes of a link in the document at `source`. The
/// entry that its parent holds for it goes with it, and so do its own links.
pub open spec fn finding_of(
    entry: EntryView,
    source: Seq<char>,
    path: Seq<char>,
    parent: Option<Seq<char>>,
    spanning: Seq<char>,
) -> Option<FindingView> {
    match entry.reach {
        Some(reach) => {
            let spans = match entry.site {
                SiteView::Relation(field, _) => field == spanning,
                SiteView::Body(_, _) => false,
            };
            if reach.path != path || source == path || (parent == Some(source) && spans) {
                None
            } else {
                match reach.id {
                    Some(id) => Some(FindingView::DanglingId(source, entry.site, id)),
                    None => Some(FindingView::BrokenLink(source, entry.site, entry.target)),
                }
            }
        },
        None => None,
    }
}

/// What a removal breaks among the links of one document.
pub open spec fn broken_in(
    entries: Seq<EntryView>,
    source: Seq<char>,
    path: Seq<char>,
    parent: Option<Seq<char>>,
    spanning: Seq<char>,
) -> Seq<FindingView>
    decreases entries.len(),
{
    if entries.len() == 0 {
        Seq::empty()
    } else {
        let rest = broken_in(entries.drop_last(), source, path, parent, spanning);
        match finding_of(entries.last(), source, path, parent, spanning) {
            Some(f) => rest.push(f),
            None => rest,
        }
    }
}

/// What a removal breaks among the links of these documents.
pub open spec fn broken_among(
    ws: WsView,
    named: Seq<NamedView>,
    docs: Seq<Seq<char>>,
    path: Seq<char>,
    parent: Option<Seq<char>>,
    spanning: Seq<char>,
) -> Seq<FindingView>
    decreases docs.len(),
{
    if docs.len() == 0 {
        Seq::empty()
    } else {
        let rest = broken_among(ws, named, docs.drop_last(), path, parent, spanning);
        match crate::workspace::loaded(ws.files, docs.last()) {
            Ok((_, doc)) => rest + broken_in(
                crate::walk::entries_of(ws, named, docs.last(), doc),
                docs.last(),
                path,
                parent,
                spanning,
            ),
            Err(_) => rest,
        }
    }
}

/// What the node of a removed body says of it.
pub open spec fn stranded_content(files: FileSeq, owner: Seq<char>, path: Seq<char>) -> FindingView {
    let target = match crate::workspace::loaded(files, owner) {
        Ok((_, doc)) => match crate::document::content_of(doc) {
            Some(raw) => raw,
            None => path,
        },
        Err(_) => path,
    };
    FindingView::BrokenLink(owner, SiteView::Relation("content"@, None), target)
}

/// The links that the removal of `path` breaks.
pub open spec fn danglers(
    ws: WsView,
    diagnosis: Diagnosis,
    path: Seq<char>,
    parent: Option<Seq<char>>,
    owner: Option<Seq<char>>,
) -> Outcome<Seq<FindingView>> {
    if diagnosis is Skip {
        Ok(Seq::empty())
    } else {
        match crate::workspace::spanning_names(ws.relations) {
            Err(e) => Err(e),
            Ok((spanning, inverse)) => {
                let found = broken_among(
                    ws,
                    crate::walk::all_named(ws.files),
                    crate::walk::surveyed(ws, crate::walk::root_of(ws, path, inverse)),
                    path,
                    parent,
                    spanning,
                );
                match owner {
                    Some(owner) => Ok(found.push(stranded_content(ws.files, owner, path))),
                    None => Ok(found),
                }
            },
        }
    }
}

/// What findings hold, where they could be made.
pub open spec fn told_findings(r: Result<Vec<Finding>, Error>) -> Outcome<Seq<FindingView>> {
    match r {
        Ok(v) => Ok(findings_view(v@)),
        Err(e) => Err(crate::error::fault(e)),
    }
}

fn copy_site(site: &LinkSite) -> (r: LinkSite)
    ensures
        r@ == site@,
{
    match site {
        LinkSite::Relation(field, i) => LinkSite::Relation(field.clone(), *i),
        LinkSite::Body(a, b) => LinkSite::Body(*a, *b),
    }
}

/// What an optional finding holds.
pub open spec fn finding_opt(f: Option<Finding>) -> Option<FindingView> {
    match f {
        Some(f) => Some(f@),
        None => None,
    }
}

fn judge(
    entry: &Entry,
    source: &str,
    path: &str,
    parent: &Option<String>,
    spanning: &str,
) -> (r: Option<Finding>)
    ensures
        finding_opt(r) == finding_of(entry@, source@, path@, opt_text(*parent), spanning@),
{
    match &entry.reach {
        Some(reach) => {
            let spans = match &entry.site {
                LinkSite::Relation(field, _) => same_text(field, spanning),
                LinkSite::Body(_, _) => false,
            };
            let by_parent = match parent {
                Some(parent) => same_text(parent, source),
                None => false,
            };
            if !same_text(&reach.path, path) || same_text(source, path) || (by_parent && spans) {
                return None;
            }
            match &reach.id {
                Some(id) => Some(
                    Finding::DanglingId(source.to_owned(), copy_site(&entry.site), id.clone()),
                ),
                None => Some(
                    Finding::BrokenLink(
                        source.to_owned(),
                        copy_site(&entry.site),
                        entry.target.clone(),
                    ),
                ),
            }
        },
        None => None,
    }
}

impl Workspace {
    /// The node whose content file is `body`: a metadata file beside it that
    /// names it.
    pub fn content_owner(&self, body: &str) -> (r: Option<String>)
        ensures
            opt_text(r) == owner_of(self@.files, body@),
    {
        let ghost files = self@.files;
        let mut i: usize = 0;
        while i < self.files.entries.len()
            invariant
                i <= self.files.entries@.len(),
                files == self@.files,
                files.len() == self.files.entries@.len(),
                owner_from(files, body@, 0) == owner_from(files, body@, i as int),
            decreases self.files.entries@.len() - i,
        {
            let node = &self.files.entries[i].0;
            proof {
                assert(files[i as int].0 == node@);
            }
            if !same_text(node, body) && same_text(
                &crate::path::parent(node),
                &crate::path::parent(body),
            ) && !crate::link::starts_with(&crate::maintain::base_name(node), ".")
                && crate::document::whole_file_format(node).is_some() {
                match self.load(node) {
                    Ok((_, doc)) => match crate::maintain::content_target(&doc, node) {
                        Some(content) => if same_text(&content, body) {
                            return Some(node.clone());
                        },
                        None => {},
                    },
                    Err(_) => {},
                }
            }
            i = i + 1;
        }
        None
    }

    fn collect_broken(
        &self,
        entries: &Vec<Entry>,
        source: &str,
        path: &str,
        parent: &Option<String>,
        spanning: &str,
        out: &mut Vec<Finding>,
    )
        ensures
            findings_view(final(out)@) == findings_view(old(out)@) + broken_in(
                crate::walk::entries_view(entries@),
                source@,
                path@,
                opt_text(*parent),
                spanning@,
            ),
    {
        let ghost all = crate::walk::entries_view(entries@);
        let ghost before = findings_view(out@);
        let mut i: usize = 0;
        proof {
            assert(all.take(0) =~= Seq::empty());
            assert(before + Seq::<FindingView>::empty() =~= before);
        }
        while i < entries.len()
            invariant
                i <= entries@.len(),
                all == crate::walk::entries_view(entries@),
                findings_view(out@) == before + broken_in(
                    all.take(i as int),
                    source@,
                    path@,
                    opt_text(*parent),
                    spanning@,
                ),
            decreases entries@.len() - i,
        {
            proof {
                assert(all.take(i + 1).drop_last() =~= all.take(i as int));
                assert(all.take(i + 1).last() == entries@[i as int]@);
            }
            match judge(&entries[i], source, path, parent, spanning) {
                Some(f) => {
                    let ghost so_far = findings_view(out@);
                    out.push(f);
                    proof {
                        assert(findings_view(out@) =~= so_far.push(f@));
                        assert(findings_view(out@) =~= before + broken_in(
                            all.take(i + 1),
                            source@,
                            path@,
                            opt_text(*parent),
                            spanning@,
                        ));
                    }
                },
                None => {},
            }
            i = i + 1;
        }
        proof {
            assert(all.take(i as int) =~= all);
        }
    }

    fn survey_broken(
        &self,
        named: &Vec<Named>,
        docs: &Vec<String>,
        path: &str,
        parent: &Option<String>,
        spanning: &str,
    ) -> (r: Vec<Finding>)
        ensures
            findings_view(r@) == broken_among(
                self@,
                crate::walk::named_view(named@),
                crate::text::texts(docs@),
                path@,
                opt_text(*parent),
                spanning@,
            ),
    {
        let ghost rows = crate::walk::named_view(named@);
        let ghost all = crate::text::texts(docs@);
        let mut out: Vec<Finding> = Vec::new();
        let mut i: usize = 0;
        proof {
            assert(all.take(0) =~= Seq::empty());
            assert(findings_view(out@) =~= Seq::empty());
        }
        while i < docs.len()
            invariant
                i <= docs@.len(),
                rows == crate::walk::named_view(named@),
                all == crate::text::texts(docs@),
                findings_view(out@) == broken_among(
                    self@,
                    rows,
                    all.take(i as int),
                    path@,
                    opt_text(*parent),
                    spanning@,
                ),
            decreases docs@.len() - i,
        {
            let source = &docs[i];
            proof {
                assert(all.take(i + 1).drop_last() =~= all.take(i as int));
                assert(all.take(i + 1).last() == source@);
            }
            match self.load(source) {
                Ok((_, doc)) => {
                    let entries = self.entries(named, source, &doc);
                    self.collect_broken(&entries, source, path, parent, spanning, &mut out);
                },
                Err(_) => {},
            }
            i = i + 1;
        }
        proof {
            assert(all.take(i as int) =~= all);
        }
        out
    }

    /// The links that the removal of `path` breaks: every one that reaches it,
    /// but for its own and for the entry that its parent holds for it; and, where
    /// it is the body of `owner`, what that node says of it.
    pub fn removal_danglers(
        &self,
        diagnosis: Diagnosis,
        path: &str,
        parent: &Option<String>,
        owner: &Option<String>,
    ) -> (r: Result<Vec<Finding>, Error>)
        ensures
            told_findings(r) == danglers(
                self@,
                diagnosis,
                path@,
                opt_text(*parent),
                opt_text(*owner),
            ),
    {
        match diagnosis {
            Diagnosis::Skip => {
                let out: Vec<Finding> = Vec::new();
                proof {
                    assert(findings_view(out@) =~= Seq::empty());
                }
                return Ok(out);
            },
            Diagnosis::Report => {},
        }
        let (spanning, inverse) = match self.spanning_pair() {
            Ok(pair) => pair,
            Err(e) => {
                return Err(e);
            },
        };
        let root = self.spanning_root(path, &inverse);
        let named = self.name_files();
        let docs = self.survey(&named, &root);
        let mut out = self.survey_broken(&named, &docs, path, parent, &spanning);
        match owner {
            Some(owner) => {
                let target = match self.load(owner) {
                    Ok((_, doc)) => match doc.content_attr() {
                        Some(raw) => raw,
                        None => path.to_owned(),
                    },
                    Err(_) => path.to_owned(),
                };
                let finding = Finding::BrokenLink(
                    owner.clone(),
                    LinkSite::Relation("content".to_owned(), None),
                    target,
                );
                let ghost before = findings_view(out@);
                out.push(finding);
                proof {
                    assert(findings_view(out@) =~= before.push(finding@));
                }
            },
            None => {},
        }
        Ok(out)
    }
}

proof fn lemma_broken_in(
    entries: Seq<EntryView>,
    source: Seq<char>,
    path: Seq<char>,
    parent: Option<Seq<char>>,
    spanning: Seq<char>,
    e: int,
)
    requires
        0 <= e < entries.len(),
    ensures
        finding_of(entries[e], source, path, parent, spanning) matches Some(f) ==> broken_in(
            entries,
            source,
            path,
            parent,
            spanning,
        ).contains(f),
    decreases entries.len(),
{
    let rest = entries.drop_last();
    let before = broken_in(rest, source, path, parent, spanning);
    let all = broken_in(entries, source, path, parent, spanning);
    if e < rest.len() {
        lemma_broken_in(rest, source, path, parent, spanning, e);
        match finding_of(entries[e], source, path, parent, spanning) {
            Some(f) => {
                let k = choose|k: int| 0 <= k < before.len() && before[k] == f;
                assert(all[k] == f);
            },
            None => {},
        }
    } else {
        match finding_of(entries[e], source, path, parent, spanning) {
            Some(f) => {
                assert(all[all.len() - 1] == f);
            },
            None => {},
        }
    }
}

proof fn lemma_broken_in_only(
    entries: Seq<EntryView>,
    source: Seq<char>,
    path: Seq<char>,
    parent: Option<Seq<char>>,
    spanning: Seq<char>,
    k: int,
) -> (e: int)
    requires
        0 <= k < broken_in(entries, source, path, parent, spanning).len(),
    ensures
        0 <= e < entries.len(),
        finding_of(entries[e], source, path, parent, spanning) == Some(
            broken_in(entries, source, path, parent, spanning)[k],
        ),
    decreases entries.len(),
{
    let rest = entries.drop_last();
    let before = broken_in(rest, source, path, parent, spanning);
    if k < before.len() {
        lemma_broken_in_only(rest, source, path, parent, spanning, k)
    } else {
        entries.len() - 1
    }
}

proof fn lemma_broken_among(
    ws: WsView,
    named: Seq<NamedView>,
    docs: Seq<Seq<char>>,
    path: Seq<char>,
    parent: Option<Seq<char>>,
    spanning: Seq<char>,
    d: int,
    f: FindingView,
)
    requires
        0 <= d < docs.len(),
        crate::workspace::loaded(ws.files, docs[d]) matches Ok((_, doc)) && broken_in(
            crate::walk::entries_of(ws, named, docs[d], doc),
            docs[d],
            path,
            parent,
            spanning,
        ).contains(f),
    ensures
        broken_among(ws, named, docs, path, parent, spanning).contains(f),
    decreases docs.len(),
{
    let rest = docs.drop_last();
    let before = broken_among(ws, named, rest, path, parent, spanning);
    let all = broken_among(ws, named, docs, path, parent, spanning);
    if d < rest.len() {
        lemma_broken_among(ws, named, rest, path, parent, spanning, d, f);
        let k = choose|k: int| 0 <= k < before.len() && before[k] == f;
        assert(all[k] == f);
    } else {
        let doc = (crate::workspace::loaded(ws.files, docs[d])->Ok_0).1;
        let own = broken_in(
            crate::walk::entries_of(ws, named, docs[d], doc),
            docs[d],
            path,
            parent,
            spanning,
        );
        let k = choose|k: int| 0 <= k < own.len() && own[k] == f;
        assert(all[before.len() + k] == f);
    }
}

/// Whether a finding is of a link of one of the documents.
pub open spec fn is_found_in(
    ws: WsView,
    named: Seq<NamedView>,
    docs: Seq<Seq<char>>,
    path: Seq<char>,
    parent: Option<Seq<char>>,
    spanning: Seq<char>,
    f: FindingView,
) -> bool {
    exists|d: int, e: int|
        0 <= d < docs.len() && #[trigger] finds_at(ws, named, docs[d], path, parent, spanning, e, f)
}

/// Whether a finding is of one link of a document.
pub open spec fn finds_at(
    ws: WsView,
    named: Seq<NamedView>,
    source: Seq<char>,
    path: Seq<char>,
    parent: Option<Seq<char>>,
    spanning: Seq<char>,
    e: int,
    f: FindingView,
) -> bool {
    crate::workspace::loaded(ws.files, source) matches Ok((_, doc)) && ({
        let entries = crate::walk::entries_of(ws, named, source, doc);
        0 <= e < entries.len() && finding_of(entries[e], source, path, parent, spanning) == Some(f)
    })
}

proof fn lemma_broken_among_only(
    ws: WsView,
    named: Seq<NamedView>,
    docs: Seq<Seq<char>>,
    path: Seq<char>,
    parent: Option<Seq<char>>,
    spanning: Seq<char>,
    k: int,
)
    requires
        0 <= k < broken_among(ws, named, docs, path, parent, spanning).len(),
    ensures
        is_found_in(
            ws,
            named,
            docs,
            path,
            parent,
            spanning,
            broken_among(ws, named, docs, path, parent, spanning)[k],
        ),
    decreases docs.len(),
{
    let rest = docs.drop_last();
    let before = broken_among(ws, named, rest, path, parent, spanning);
    let f = broken_among(ws, named, docs, path, parent, spanning)[k];
    if k < before.len() {
        lemma_broken_among_only(ws, named, rest, path, parent, spanning, k);
        let (d, e) = choose|d: int, e: int|
            0 <= d < rest.len() && #[trigger] finds_at(
                ws,
                named,
                rest[d],
                path,
                parent,
                spanning,
                e,
                f,
            );
        assert(finds_at(ws, named, docs[d], path, parent, spanning, e, f));
    } else {
        let n = docs.len() - 1;
        let doc = (crate::workspace::loaded(ws.files, docs[n])->Ok_0).1;
        let entries = crate::walk::entries_of(ws, named, docs[n], doc);
        let e = lemma_broken_in_only(
            entries,
            docs[n],
            path,
            parent,
            spanning,
            k - before.len(),
        );
        assert(finds_at(ws, named, docs[n], path, parent, spanning, e, f));
    }
}

/// A removal reports what it breaks, and nothing else: every link to the document in a
/// document that a survey covers, but for its own links and the entry that its parent
/// loses; and what the node of a removed body says of it.
pub proof fn law_danglers(
    ws: WsView,
    path: Seq<char>,
    parent: Option<Seq<char>>,
    owner: Option<Seq<char>>,
    spanning: Seq<char>,
    inverse: Seq<char>,
    f: FindingView,
)
    requires
        crate::workspace::spanning_names(ws.relations) == Ok::<
            _,
            crate::error::Fault<Seq<char>>,
        >((spanning, inverse)),
    ensures
        danglers(ws, Diagnosis::Report, path, parent, owner) matches Ok(found) && (found.contains(f)
            <==> is_found_in(
            ws,
            crate::walk::all_named(ws.files),
            crate::walk::surveyed(ws, crate::walk::root_of(ws, path, inverse)),
            path,
            parent,
            spanning,
            f,
        ) || (owner matches Some(node) && f == stranded_content(ws.files, node, path))),
{
    let named = crate::walk::all_named(ws.files);
    let docs = crate::walk::surveyed(ws, crate::walk::root_of(ws, path, inverse));
    let links = broken_among(ws, named, docs, path, parent, spanning);
    let found = danglers(ws, Diagnosis::Report, path, parent, owner)->Ok_0;
    if found.contains(f) {
        let k = choose|k: int| 0 <= k < found.len() && found[k] == f;
        if k < links.len() {
            lemma_broken_among_only(ws, named, docs, path, parent, spanning, k);
        }
    }
    if is_found_in(ws, named, docs, path, parent, spanning, f) {
        let (d, e) = choose|d: int, e: int|
            0 <= d < docs.len() && #[trigger] finds_at(
                ws,
                named,
                docs[d],
                path,
                parent,
                spanning,
                e,
                f,
            );
        let doc = (crate::workspace::loaded(ws.files, docs[d])->Ok_0).1;
        lemma_broken_in(
            crate::walk::entries_of(ws, named, docs[d], doc),
            docs[d],
            path,
            parent,
            spanning,
            e,
        );
        lemma_broken_among(ws, named, docs, path, parent, spanning, d, f);
        let k = choose|k: int| 0 <= k < links.len() && links[k] == f;
        assert(found[k] == f);
    }
    match owner {
        Some(node) => {
            if f == stranded_content(ws.files, node, path) {
                assert(found[found.len() - 1] == f);
            }
        },
        None => {},
    }
}

/// Whether a file is a metadata file beside `path`.
pub open spec fn is_neighbour(path: Seq<char>, file: Seq<char>) -> bool {
    &&& file != path
    &&& crate::path::parent_of(file) == crate::path::parent_of(path)
    &&& crate::document::file_format(file) is Some
}

/// The metadata files beside `path`, in order.
pub open spec fn neighbours(files: FileSeq, path: Seq<char>) -> Seq<Seq<char>> {
    crate::naming::those(files, |file: Seq<char>| is_neighbour(path, file))
}

proof fn lemma_owner_is_first(files: FileSeq, body: Seq<char>, k: int, i: int)
    requires
        0 <= k <= i <= files.len(),
        forall|j: int| k <= j < i ==> !owns(files, (#[trigger] files[j]).0, body),
        i < files.len() ==> owns(files, files[i].0, body),
    ensures
        owner_from(files, body, k) == (if i < files.len() {
            Some(files[i].0)
        } else {
            None
        }),
    decreases i - k,
{
    if k < i {
        assert(!owns(files, files[k].0, body));
        lemma_owner_is_first(files, body, k + 1, i);
    }
}

proof fn lemma_owner_among(files: FileSeq, body: Seq<char>)
    ensures
        ({
            let owners = crate::naming::picked(
                neighbours(files, body),
                |file: Seq<char>| owns(files, file, body),
            );
            owner_of(files, body) == (if owners.len() > 0 {
                Some(owners[0])
            } else {
                None
            })
        }),
{
    let holds = |file: Seq<char>| owns(files, file, body);
    crate::naming::lemma_those_picked(
        files,
        |file: Seq<char>| is_neighbour(body, file),
        holds,
    );
    let n = files.len() as int;
    assert(files.take(n) =~= files);
    let i = crate::naming::lemma_those_first(files, holds, n);
    if crate::naming::those(files, holds).len() > 0 {
        assert forall|j: int| 0 <= j < i implies !owns(files, (#[trigger] files[j]).0, body) by {
            assert(!holds(files[j].0));
        }
        lemma_owner_is_first(files, body, 0, i);
    } else {
        assert forall|j: int| 0 <= j < n implies !owns(files, (#[trigger] files[j]).0, body) by {
            assert(!holds(files[j].0));
        }
        lemma_owner_is_first(files, body, 0, n);
    }
}

/// The node of a body depends on the metadata files beside it alone.
pub proof fn law_owner_depends(files: FileSeq, other: FileSeq, body: Seq<char>)
    requires
        neighbours(files, body) == neighbours(other, body),
        forall|file: Seq<char>| #[trigger]
            is_neighbour(body, file) ==> crate::files::lookup(files, file)
                == crate::files::lookup(other, file),
    ensures
        owner_of(files, body) == owner_of(other, body),
{
    lemma_owner_among(files, body);
    lemma_owner_among(other, body);
    let paths = neighbours(files, body);
    let holds = |file: Seq<char>| owns(files, file, body);
    let holds_too = |file: Seq<char>| owns(other, file, body);
    assert forall|i: int| 0 <= i < paths.len() implies holds_too(#[trigger] paths[i]) == holds(
        paths[i],
    ) by {
        if is_neighbour(body, paths[i]) {
            assert(crate::files::lookup(files, paths[i]) == crate::files::lookup(
                other,
                paths[i],
            ));
        }
    }
    crate::naming::lemma_picked_same(paths, holds, holds_too);
}

} // verus!
