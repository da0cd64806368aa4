//! New documents.

use crate::change::{ChangeSet, ChangeView};
use crate::codec::MetaFormat;
use crate::document::{Document, MetaCarrier};
use crate::error::{Error, Fault};
use crate::meta::{put_pair, Meta, MetaView};
use crate::path::opt_text;
use crate::title::document_title;
use crate::workspace::{Outcome, Workspace, WsView};
use vstd::prelude::*;

verus! {

/// What a creation made.
#[derive(Debug, PartialEq, Eq)]
pub struct Created {
    /// The document.
    pub node: String,
    /// The file that holds its prose, where that is another one.
    pub body: Option<String>,
}

/// What a [`Created`] holds.
pub struct CreatedView {
    pub node: Seq<char>,
    pub body: Option<Seq<char>>,
}

impl View for Created {
    type V = CreatedView;

    open spec fn view(&self) -> CreatedView {
        CreatedView { node: self.node@, body: opt_text(self.body) }
    }
}

/// Where a new document goes, and in what shape.
pub struct Placement {
    pub node: String,
    pub carrier: MetaCarrier,
    pub body: Option<String>,
}

/// What a [`Placement`] holds.
pub struct PlacementView {
    pub node: Seq<char>,
    pub carrier: MetaCarrier,
    pub body: Option<Seq<char>>,
}

impl View for Placement {
    type V = PlacementView;

    open spec fn view(&self) -> PlacementView {
        PlacementView { node: self.node@, carrier: self.carrier, body: opt_text(self.body) }
    }
}

/// Where a new document goes under a parent, and in what shape. A metadata file
/// is one by its extension. Any other document takes the shape of its parent:
/// two files, or one with the same kind of block; else a block in the language
/// of the workspace.
pub open spec fn placement(
    ws: WsView,
    path: Seq<char>,
    parent: crate::document::DocView,
) -> PlacementView {
    match crate::document::file_format(path) {
        Some(format) => PlacementView {
            node: path,
            carrier: MetaCarrier::WholeFile(format),
            body: None,
        },
        None => match parent.carrier {
            Some(MetaCarrier::WholeFile(format)) if crate::document::content_of(
                parent,
            ) is Some => PlacementView {
                node: crate::path::with_ext(path, crate::document::ext_of_format(format)),
                carrier: MetaCarrier::WholeFile(format),
                body: Some(path),
            },
            Some(MetaCarrier::Fenced(kind)) => PlacementView {
                node: path,
                carrier: MetaCarrier::Fenced(kind),
                body: None,
            },
            _ => PlacementView {
                node: path,
                carrier: MetaCarrier::Fenced(crate::document::front_of(ws.settings.metadata)),
                body: None,
            },
        },
    }
}

/// The metadata of a new document that keeps its prose in another file.
pub open spec fn separate_meta(
    title: Seq<char>,
    id: Option<Seq<char>>,
    inverse: Seq<char>,
    up: Seq<char>,
    content: Seq<char>,
) -> Seq<(Seq<char>, MetaView)> {
    let titled = seq![("title"@, MetaView::Text(title))];
    let stamped = match id {
        Some(id) => crate::meta::put(titled, "id"@, MetaView::Text(id)),
        None => titled,
    };
    crate::meta::put(
        crate::meta::put(stamped, inverse, MetaView::Text(up)),
        "content"@,
        MetaView::Text(content),
    )
}

/// A text with a value set at a key, or nothing.
pub open spec fn then_set(
    text: Option<Seq<char>>,
    carrier: MetaCarrier,
    key: Seq<char>,
    value: Seq<char>,
) -> Option<Seq<char>> {
    match text {
        Some(text) => crate::document::set_at(
            text,
            carrier,
            crate::document::key_way(key),
            MetaView::Text(value),
        ),
        None => None,
    }
}

/// The text of a new document.
pub open spec fn new_text(
    place: PlacementView,
    title: Seq<char>,
    id: Option<Seq<char>>,
    inverse: Seq<char>,
    up: Seq<char>,
) -> Option<Seq<char>> {
    match (place.carrier, place.body) {
        (MetaCarrier::WholeFile(format), Some(body)) => crate::codec::value_text(
            MetaView::Mapping(
                separate_meta(title, id, inverse, up, crate::maintain::name_or_empty(body)),
            ),
            format,
        ),
        _ => {
            let titled = then_set(
                crate::document::opened(""@, Some(place.carrier)),
                place.carrier,
                "title"@,
                title,
            );
            let stamped = match id {
                Some(id) => then_set(titled, place.carrier, "id"@, id),
                None => titled,
            };
            then_set(stamped, place.carrier, inverse, up)
        },
    }
}

/// The title of a new document: the one it is given, or its file name.
pub open spec fn given_title(title: Option<Seq<char>>, node: Seq<char>) -> Seq<char> {
    match title {
        Some(title) => title,
        None => match crate::path::stem_of(node) {
            Some(stem) => stem,
            None => Seq::empty(),
        },
    }
}

/// The identifier that a new document carries itself.
pub open spec fn own_id(ws: WsView, ids: crate::registry::IdSeq, node: Seq<char>) -> Option<
    Seq<char>,
> {
    if ws.settings.id_storage.stamps() {
        crate::registry::id_at(ids, node)
    } else {
        None
    }
}

/// The links up and down between a new document and its parent, and the changes
/// with the identifiers that they take.
pub open spec fn tied(
    ws: WsView,
    node: Seq<char>,
    title: Seq<char>,
    parent: Seq<char>,
    parent_title: Seq<char>,
) -> Outcome<(Seq<char>, Seq<char>, ChangeView)> {
    match crate::workspace::spanning_names(ws.relations) {
        Err(e) => Err(e),
        Ok((spanning, inverse)) => match crate::change::authored(
            ws,
            crate::change::no_change(ws),
            inverse,
            node,
            parent,
            parent_title,
        ) {
            Err(e) => Err(e),
            Ok((up, cs)) => match crate::change::authored(ws, cs, spanning, parent, node, title) {
                Err(e) => Err(e),
                Ok((down, cs)) => match crate::change::registered_on_create(ws, cs, node) {
                    Err(e) => Err(e),
                    Ok(cs) => Ok((up, down, cs)),
                },
            },
        },
    }
}

/// The changes that make a document at `path` under `parent`, or why there are
/// none.
pub open spec fn drafted_creation(
    ws: WsView,
    path: Seq<char>,
    parent: Seq<char>,
    title: Option<Seq<char>>,
) -> Outcome<(ChangeView, CreatedView)> {
    let path = crate::path::normalized(path);
    let parent = crate::path::normalized(parent);
    match crate::workspace::spanning_names(ws.relations) {
        Err(e) => Err(e),
        Ok((spanning, inverse)) => match crate::workspace::loaded(ws.files, parent) {
            Err(e) => Err(e),
            Ok((parent_text, parent_doc)) => {
                let place = placement(ws, path, parent_doc);
                let node = place.node;
                if crate::files::occupied(ws.files, node) {
                    Err(Fault::AlreadyExists(node))
                } else if place.body is Some && crate::files::occupied(ws.files, path) {
                    Err(Fault::AlreadyExists(path))
                } else {
                    let title = given_title(title, node);
                    match tied(
                        ws,
                        node,
                        title,
                        parent,
                        crate::title::title_of(parent_doc, parent),
                    ) {
                        Err(e) => Err(e),
                        Ok((up, down, cs)) => match (
                            new_text(place, title, own_id(ws, cs.ids, node), inverse, up),
                            crate::document::appended_in(
                                parent_text,
                                parent_doc.carrier,
                                spanning,
                                down,
                            ),
                        ) {
                            (None, _) => Err(Fault::Metadata(node)),
                            (_, None) => Err(Fault::Metadata(parent)),
                            (Some(text), Some(parent_out)) => {
                                let made = cs.with(crate::files::write_text(node, text));
                                let filled = match place.body {
                                    Some(body) => made.with(
                                        crate::files::write_text(body, Seq::empty()),
                                    ),
                                    None => made,
                                };
                                Ok(
                                    (
                                        filled.with(crate::files::write_text(parent, parent_out)),
                                        CreatedView { node, body: place.body },
                                    ),
                                )
                            },
                        },
                    }
                }
            },
        },
    }
}

/// The changes that make a document at `path` under `parent`, with what carries its
/// identifier itself; or why there are none.
pub open spec fn creation(ws: WsView,
    path: Seq<char>,
    parent: Seq<char>,
    title: Option<Seq<char>>,
) -> Outcome<(ChangeView, CreatedView)> {
    crate::change::with_stamps(ws, drafted_creation(ws, path, parent, title))
}

/// A text with a value set at a key, or nothing.
fn set_next(text: Option<String>, carrier: MetaCarrier, key: &str, value: &str) -> (r: Option<
    String,
>)
    ensures
        opt_text(r) == then_set(opt_text(text), carrier, key@, value@),
{
    match text {
        Some(text) => crate::document::set_value(
            &text,
            carrier,
            &crate::document::key_path(key),
            &Meta::Text(value.to_owned()),
        ),
        None => None,
    }
}

fn write_separate(
    format: MetaFormat,
    title: &str,
    id: &Option<String>,
    inverse: &str,
    up: &str,
    content: &str,
) -> (r: Option<String>)
    ensures
        opt_text(r) == crate::codec::value_text(
            MetaView::Mapping(separate_meta(title@, opt_text(*id), inverse@, up@, content@)),
            format,
        ),
{
    broadcast use crate::meta::lemma_map_view;

    let mut pairs: Vec<(String, Meta)> = Vec::new();
    pairs.push(("title".to_owned(), Meta::Text(title.to_owned())));
    proof {
        assert(crate::meta::pairs_view(pairs@) =~= seq![("title"@, MetaView::Text(title@))]);
    }
    match id {
        Some(id) => {
            put_pair(&mut pairs, "id", Meta::Text(id.clone()));
        },
        None => {},
    }
    put_pair(&mut pairs, inverse, Meta::Text(up.to_owned()));
    put_pair(&mut pairs, "content", Meta::Text(content.to_owned()));
    crate::codec::serialize(&Meta::Mapping(pairs), format)
}

fn write_new(place: &Placement, title: &str, id: &Option<String>, inverse: &str, up: &str) -> (r:
    Option<String>)
    ensures
        opt_text(r) == new_text(place@, title@, opt_text(*id), inverse@, up@),
{
    match (place.carrier, &place.body) {
        (MetaCarrier::WholeFile(format), Some(body)) => write_separate(
            format,
            title,
            id,
            inverse,
            up,
            &crate::maintain::base_name(body),
        ),
        _ => {
            let opened = match crate::document::open_or_init("", Some(place.carrier)) {
                Some((text, _)) => Some(text),
                None => None,
            };
            let titled = set_next(opened, place.carrier, "title", title);
            let stamped = match id {
                Some(id) => set_next(titled, place.carrier, "id", id),
                None => titled,
            };
            set_next(stamped, place.carrier, inverse, up)
        },
    }
}

impl Workspace {
    fn place(&self, path: &str, parent: &Document) -> (r: Placement)
        ensures
            r@ == placement(self@, path@, parent@),
    {
        match crate::document::whole_file_format(path) {
            Some(format) => Placement {
                node: path.to_owned(),
                carrier: MetaCarrier::WholeFile(format),
                body: None,
            },
            None => match parent.carrier {
                Some(MetaCarrier::WholeFile(format)) => if parent.content_attr().is_some() {
                    Placement {
                        node: crate::path::with_extension(
                            path,
                            crate::document::whole_file_extension(format),
                        ),
                        carrier: MetaCarrier::WholeFile(format),
                        body: Some(path.to_owned()),
                    }
                } else {
                    self.place_default(path)
                },
                Some(MetaCarrier::Fenced(kind)) => Placement {
                    node: path.to_owned(),
                    carrier: MetaCarrier::Fenced(kind),
                    body: None,
                },
                None => self.place_default(path),
            },
        }
    }

    fn place_default(&self, path: &str) -> (r: Placement)
        ensures
            r@ == (PlacementView {
                node: path@,
                carrier: MetaCarrier::Fenced(
                    crate::document::front_of(self@.settings.metadata),
                ),
                body: None,
            }),
    {
        Placement {
            node: path.to_owned(),
            carrier: MetaCarrier::Fenced(
                crate::document::frontmatter_kind(self.settings.metadata),
            ),
            body: None,
        }
    }

    /// The identifier that a new document carries itself.
    pub fn stamp_for(&self, cs: &ChangeSet, node: &str) -> (r: Option<String>)
        ensures
            opt_text(r) == own_id(self@, cs@.ids, node@),
    {
        if self.settings.id_storage.writes_frontmatter() {
            cs.registry.id_for_path(node)
        } else {
            None
        }
    }

    fn tie(&self, node: &str, title: &str, parent: &str, parent_title: &str) -> (r: Result<
        (String, String, ChangeSet),
        Error,
    >)
        ensures
            match r {
                Ok((up, down, cs)) => tied(self@, node@, title@, parent@, parent_title@) matches Ok(
                    (u, d, c),
                ) && u == up@ && d == down@ && c == cs@,
                Err(e) => tied(self@, node@, title@, parent@, parent_title@) matches Err(f) && f
                    == crate::error::fault(e),
            },
    {
        let (spanning, inverse) = match self.spanning_pair() {
            Ok(pair) => pair,
            Err(e) => {
                return Err(e);
            },
        };
        let mut cs = self.change();
        let up = match self.authored_target(&mut cs, &inverse, node, parent, parent_title) {
            Ok(up) => up,
            Err(e) => {
                return Err(e);
            },
        };
        let down = match self.authored_target(&mut cs, &spanning, parent, node, title) {
            Ok(down) => down,
            Err(e) => {
                return Err(e);
            },
        };
        match self.register_on_create(&mut cs, node) {
            Ok(_) => Ok((up, down, cs)),
            Err(e) => Err(e),
        }
    }

    fn draft_create(&self, path: &str, parent: &str, title: Option<&str>) -> (r: Result<
        (ChangeSet, Created),
        Error,
    >)
        ensures
            ({
                let plan = drafted_creation(
                    self@,
                    path@,
                    parent@,
                    match title {
                        Some(t) => Some(t@),
                        None => None,
                    },
                );
                match r {
                    Ok((cs, made)) => plan matches Ok((c, m)) && c == cs@ && m == made@,
                    Err(e) => plan matches Err(f) && f == crate::error::fault(e),
                }
            }),
    {
        let path = crate::path::normalize(path);
        let parent = crate::path::normalize(parent);
        let (spanning, inverse) = match self.spanning_pair() {
            Ok(pair) => pair,
            Err(e) => {
                return Err(e);
            },
        };
        let (parent_text, parent_doc) = match self.load(&parent) {
            Ok(read) => read,
            Err(e) => {
                return Err(e);
            },
        };
        let place = self.place(&path, &parent_doc);
        if self.is_taken(&place.node) {
            return Err(Fault::AlreadyExists(place.node));
        }
        if place.body.is_some() && self.is_taken(&path) {
            return Err(Fault::AlreadyExists(path));
        }
        let title = match title {
            Some(title) => title.to_owned(),
            None => match crate::path::file_stem(&place.node) {
                Some(stem) => stem,
                None => String::new(),
            },
        };
        let parent_title = document_title(&parent_doc, &parent);
        let (up, down, mut cs) = match self.tie(&place.node, &title, &parent, &parent_title) {
            Ok(tied) => tied,
            Err(e) => {
                return Err(e);
            },
        };
        let stamp = self.stamp_for(&cs, &place.node);
        let text = match write_new(&place, &title, &stamp, &inverse, &up) {
            Some(text) => text,
            None => {
                return Err(Fault::Metadata(place.node));
            },
        };
        let parent_out = match crate::document::append_in_text(
            &parent_text,
            parent_doc.carrier,
            &spanning,
            &down,
        ) {
            Some(out) => out,
            None => {
                return Err(Fault::Metadata(parent));
            },
        };
        cs.write(&place.node, &text);
        match &place.body {
            Some(body) => {
                let empty = String::new();
                cs.write(body, &empty);
            },
            None => {},
        }
        cs.write(&parent, &parent_out);
        Ok((cs, Created { node: place.node, body: place.body }))
    }

    /// The changes that make a document at `path` under `parent`.
    pub fn plan_create(&self, path: &str, parent: &str, title: Option<&str>) -> (r: Result<
        (ChangeSet, Created),
        Error,
    >)
        ensures
            ({
                let plan = creation(
                    self@,
                    path@,
                    parent@,
                    match title {
                        Some(t) => Some(t@),
                        None => None,
                    },
                );
                match r {
                    Ok((cs, made)) => plan matches Ok((c, m)) && c == cs@ && m == made@,
                    Err(e) => plan matches Err(f) && f == crate::error::fault(e),
                }
            }),
    {
        match self.draft_create(path, parent, title) {
            Ok((cs, made)) => match self.stamp_ids(cs) {
                Ok(cs) => Ok((cs, made)),
                Err(e) => Err(e),
            },
            Err(e) => Err(e),
        }
    }

    /// Makes a document at `path` under `parent`, with a title where one is
    /// given. A refusal changes nothing.
    pub fn create_titled(&mut self, path: &str, parent: &str, title: Option<&str>) -> (r: Result<
        Created,
        Error,
    >)
        ensures
            ({
                let done = crate::change::carried_out(
                    old(self)@,
                    creation(
                        old(self)@,
                        path@,
                        parent@,
                        match title {
                            Some(t) => Some(t@),
                            None => None,
                        },
                    ),
                );
                match r {
                    Ok(made) => done matches Ok((after, m)) && after == final(self)@ && m == made@,
                    Err(e) => done matches Err(f) && f == crate::error::fault(e) && *final(self)
                        == *old(self),
                }
            }),
    {
        match self.plan_create(path, parent, title) {
            Ok((cs, made)) => match self.commit(cs) {
                Ok(_) => Ok(made),
                Err(e) => Err(e),
            },
            Err(e) => Err(e),
        }
    }

    /// Makes a document at `path` under `parent`, titled by its file name.
    pub fn create(&mut self, path: &str, parent: &str) -> (r: Result<Created, Error>)
        ensures
            ({
                let done = crate::change::carried_out(
                    old(self)@,
                    creation(old(self)@, path@, parent@, None),
                );
                match r {
                    Ok(made) => done matches Ok((after, m)) && after == final(self)@ && m == made@,
                    Err(e) => done matches Err(f) && f == crate::error::fault(e) && *final(self)
                        == *old(self),
                }
            }),
    {
        self.create_titled(path, parent, None)
    }

    /// Makes a document at `path` under `parent`, with a title.
    pub fn create_with_title(&mut self, path: &str, parent: &str, title: &str) -> (r: Result<
        Created,
        Error,
    >)
        ensures
            ({
                let done = crate::change::carried_out(
                    old(self)@,
                    creation(old(self)@, path@, parent@, Some(title@)),
                );
                match r {
                    Ok(made) => done matches Ok((after, m)) && after == final(self)@ && m == made@,
                    Err(e) => done matches Err(f) && f == crate::error::fault(e) && *final(self)
                        == *old(self),
                }
            }),
    {
        self.create_titled(path, parent, Some(title))
    }
}

proof fn lemma_tied(
    ws: WsView,
    node: Seq<char>,
    title: Seq<char>,
    parent: Seq<char>,
    parent_title: Seq<char>,
    q: Seq<char>,
)
    requires
        q != node,
        q != parent,
    ensures
        tied(ws, node, title, parent, parent_title) matches Ok((_, _, cs)) ==> cs.ops.len() == 0
            && !cs.fresh.contains(q),
{
    let none = Seq::<Seq<char>>::empty();
    assert(!none.contains(q));
    assert forall|fresh: Seq<Seq<char>>, p: Seq<char>|
        !fresh.contains(q) && p != q implies !(#[trigger] fresh.push(p)).contains(q) by {
        let more = fresh.push(p);
        if more.contains(q) {
            let i = choose|i: int| 0 <= i < more.len() && more[i] == q;
            if i < fresh.len() {
                assert(fresh[i] == q);
            }
        }
    }
}

/// A creation goes where there was nothing, and changes nothing but its own files
/// and its parent.
pub proof fn law_create_lands(
    ws: WsView,
    path: Seq<char>,
    parent: Seq<char>,
    title: Option<Seq<char>>,
    after: WsView,
    q: Seq<char>,
)
    requires
        creation(ws, path, parent, title) matches Ok((cs, _)) && crate::change::landed(ws, cs)
            matches Ok(w) && w == after,
    ensures
        creation(ws, path, parent, title) matches Ok((_, made)) && !crate::files::occupied(
            ws.files,
            made.node,
        ) && (made.body matches Some(b) ==> !crate::files::occupied(ws.files, b)) && (q
            != made.node && made.body != Some(q) && q != crate::path::normalized(parent)
            ==> crate::files::lookup(after.files, q) == crate::files::lookup(ws.files, q)),
{
    let up = crate::path::normalized(parent);
    let (cs, made) = creation(ws, path, parent, title)->Ok_0;
    let (drafted, _) = drafted_creation(ws, path, parent, title)->Ok_0;
    let parent_doc = (crate::workspace::loaded(ws.files, up)->Ok_0).1;
    if q != made.node && made.body != Some(q) && q != up {
        lemma_tied(
            ws,
            made.node,
            given_title(title, made.node),
            up,
            crate::title::title_of(parent_doc, up),
            q,
        );
        if ws.settings.id_storage.stamps() {
            crate::change::lemma_stamped_ops(ws, drafted, drafted.fresh, q);
        } else {
            assert(drafted.ops.take(drafted.ops.len() as int) =~= drafted.ops);
        }
        let n = drafted.ops.len() as int;
        assert(!crate::landing::any_touches(cs.ops, q)) by {
            if crate::landing::any_touches(cs.ops, q) {
                let i = choose|i: int|
                    0 <= i < cs.ops.len() && crate::landing::touches(#[trigger] cs.ops[i], q);
                if i < n {
                    assert(cs.ops.take(n)[i] == drafted.ops[i]);
                    assert(cs.ops[i] == drafted.ops[i]);
                }
            }
        }
        crate::landing::law_untouched(ws.files, cs.ops, q);
    }
}

/// A created document and its parent lead to each other, by the identifiers that the
/// creation leaves; the one is linked up, and the other down.
pub proof fn law_create_links_both_ways(
    ws: WsView,
    node: Seq<char>,
    title: Seq<char>,
    parent: Seq<char>,
    parent_title: Seq<char>,
    spanning: Seq<char>,
    inverse: Seq<char>,
)
    requires
        crate::registry::is_sound(ws.ids),
        crate::workspace::spanning_names(ws.relations) matches Ok((s, v)) && s == spanning && v
            == inverse,
        node != parent,
        tied(ws, node, title, parent, parent_title) matches Ok((_, _, cs)) && ({
            &&& crate::change::can_author(
                crate::workspace::reference_style(ws, inverse),
                node,
                parent,
                up_id(ws, node, parent, parent_title, inverse),
                parent_title,
            )
            &&& crate::change::can_author(
                crate::workspace::reference_style(ws, spanning),
                parent,
                node,
                down_id(ws, node, title, parent, parent_title, spanning, inverse),
                title,
            )
        }),
    ensures
        tied(ws, node, title, parent, parent_title) matches Ok((up, down, out)) && ({
            &&& crate::workspace::reference_path(out.ids, ws.name, node, up) == Some(parent)
            &&& crate::workspace::reference_path(out.ids, ws.name, parent, down) == Some(node)
        }),
{
    let none = crate::change::no_change(ws);
    let (up, down, out) = tied(ws, node, title, parent, parent_title)->Ok_0;
    let first = (crate::change::authored(ws, none, inverse, node, parent, parent_title)->Ok_0).1;
    let second = (crate::change::authored(ws, first, spanning, parent, node, title)->Ok_0).1;
    crate::change::law_authored_leads(ws, none, inverse, node, parent, parent_title);
    crate::change::law_authored_leads(ws, first, spanning, parent, node, title);
    crate::change::law_identified_keeps(ws, first, node);
    crate::change::law_identified_keeps(ws, second, node);
    assert(crate::registry::keeps_paths(first.ids, second.ids));
    assert(crate::registry::keeps_paths(second.ids, out.ids));
}

/// What a creation leaves: a document that is linked up, its content where it has a file
/// of its own for that, and a parent that is linked down; and both links lead where they
/// should. The texts are those that were drafted where no document is to carry an
/// identifier that it got by the creation.
pub proof fn law_create_links(
    ws: WsView,
    path: Seq<char>,
    parent: Seq<char>,
    title: Option<Seq<char>>,
    after: WsView,
)
    requires
        crate::registry::is_sound(ws.ids),
        creation(ws, path, parent, title) matches Ok((cs, made)) && (crate::change::landed(ws, cs)
            matches Ok(w) && w == after) && made.body != Some(made.node) && (
        crate::workspace::loaded(ws.files, crate::path::normalized(parent)) matches Ok((_, doc))
            && crate::workspace::spanning_names(ws.relations) matches Ok((spanning, inverse)) && ({
            let up = crate::path::normalized(parent);
            let up_title = crate::title::title_of(doc, up);
            let own_title = given_title(title, made.node);
            &&& crate::change::can_author(
                crate::workspace::reference_style(ws, inverse),
                made.node,
                up,
                up_id(ws, made.node, up, up_title, inverse),
                up_title,
            )
            &&& crate::change::can_author(
                crate::workspace::reference_style(ws, spanning),
                up,
                made.node,
                down_id(ws, made.node, own_title, up, up_title, spanning, inverse),
                own_title,
            )
        })),
    ensures
        creation(ws, path, parent, title) matches Ok((cs, made)) && (crate::workspace::loaded(
            ws.files,
            crate::path::normalized(parent),
        ) matches Ok((parent_text, doc)) && crate::workspace::spanning_names(ws.relations)
            matches Ok((spanning, inverse)) && ({
            let over = crate::path::normalized(parent);
            let own_title = given_title(title, made.node);
            let place = placement(ws, crate::path::normalized(path), doc);
            tied(
                ws,
                made.node,
                own_title,
                over,
                crate::title::title_of(doc, over),
            ) matches Ok((up, down, _)) && ({
                &&& crate::workspace::reference_path(after.ids, after.name, made.node, up) == Some(
                    over,
                )
                &&& crate::workspace::reference_path(after.ids, after.name, over, down) == Some(
                    made.node,
                )
                &&& made.node == place.node && made.body == place.body
                &&& !ws.settings.id_storage.stamps() || cs.fresh.len() == 0 ==> {
                    &&& new_text(
                        place,
                        own_title,
                        own_id(ws, after.ids, made.node),
                        inverse,
                        up,
                    ) matches Some(text) && crate::files::lookup(after.files, made.node) == Some(
                        crate::files::FileView::Text(text),
                    )
                    &&& crate::document::appended_in(parent_text, doc.carrier, spanning, down)
                        matches Some(text) && crate::files::lookup(after.files, over) == Some(
                        crate::files::FileView::Text(text),
                    )
                    &&& made.body matches Some(body) ==> crate::files::lookup(after.files, body)
                        == Some(crate::files::FileView::Text(Seq::empty()))
                }
            })
        })),
{
    let over = crate::path::normalized(parent);
    let (parent_text, doc) = crate::workspace::loaded(ws.files, over)->Ok_0;
    let (spanning, inverse) = crate::workspace::spanning_names(ws.relations)->Ok_0;
    let (cs, made) = creation(ws, path, parent, title)->Ok_0;
    let (drafted, _) = drafted_creation(ws, path, parent, title)->Ok_0;
    let own_title = given_title(title, made.node);
    let over_title = crate::title::title_of(doc, over);
    let place = placement(ws, crate::path::normalized(path), doc);
    let (up, down, out) = tied(ws, made.node, own_title, over, over_title)->Ok_0;
    crate::landing::law_file_is_taken(ws.files, over);
    law_create_links_both_ways(
        ws,
        made.node,
        own_title,
        over,
        over_title,
        spanning,
        inverse,
    );
    crate::change::lemma_stamps_keep(ws, drafted, drafted.fresh);
    assert(after.ids == out.ids);
    if !ws.settings.id_storage.stamps() || cs.fresh.len() == 0 {
        assert(drafted.fresh.len() == 0 ==> drafted.fresh =~= Seq::empty());
        assert(cs == drafted);
        let text = new_text(place, own_title, own_id(ws, out.ids, made.node), inverse, up)->Some_0;
        let listed = crate::document::appended_in(
            parent_text,
            doc.carrier,
            spanning,
            down,
        )->Some_0;
        let none = Seq::<crate::files::OpView>::empty();
        assert(out.ops =~= none);
        let w1 = crate::files::write_text(made.node, text);
        let a = none.push(w1);
        crate::landing::lemma_changed_push(ws.files, none, w1);
        let d1 = crate::files::FileView::Text(text);
        let f1 = crate::files::stored(ws.files, made.node, d1);
        assert forall|q: Seq<char>| true implies #[trigger] crate::files::lookup(f1, q) == (if q
            == made.node {
            Some(d1)
        } else {
            crate::files::lookup(ws.files, q)
        }) by {
            crate::files::law_stored(ws.files, made.node, d1, q);
        }
        let (b, f2) = match place.body {
            Some(body) => {
                let d2 = crate::files::FileView::Text(Seq::empty());
                let w2 = crate::files::write_text(body, Seq::empty());
                crate::landing::lemma_changed_push(ws.files, a, w2);
                assert forall|q: Seq<char>| true implies #[trigger] crate::files::lookup(
                    crate::files::stored(f1, body, d2),
                    q,
                ) == (if q == body {
                    Some(d2)
                } else {
                    crate::files::lookup(f1, q)
                }) by {
                    crate::files::law_stored(f1, body, d2, q);
                }
                (a.push(w2), crate::files::stored(f1, body, d2))
            },
            None => (a, f1),
        };
        let w3 = crate::files::write_text(over, listed);
        crate::landing::lemma_changed_push(ws.files, b, w3);
        let d3 = crate::files::FileView::Text(listed);
        assert forall|q: Seq<char>| true implies #[trigger] crate::files::lookup(
            crate::files::stored(f2, over, d3),
            q,
        ) == (if q == over {
            Some(d3)
        } else {
            crate::files::lookup(f2, q)
        }) by {
            crate::files::law_stored(f2, over, d3, q);
        }
        assert(drafted.ops =~= b.push(w3));
    }
}

/// The identifier that the parent of a created document has when it is linked up to.
pub open spec fn up_id(
    ws: WsView,
    node: Seq<char>,
    parent: Seq<char>,
    parent_title: Seq<char>,
    inverse: Seq<char>,
) -> Option<Seq<char>> {
    match crate::change::authored(
        ws,
        crate::change::no_change(ws),
        inverse,
        node,
        parent,
        parent_title,
    ) {
        Ok((_, cs)) => crate::registry::id_at(cs.ids, parent),
        Err(_) => None,
    }
}

/// The identifier that a created document has when it is linked down to.
pub open spec fn down_id(
    ws: WsView,
    node: Seq<char>,
    title: Seq<char>,
    parent: Seq<char>,
    parent_title: Seq<char>,
    spanning: Seq<char>,
    inverse: Seq<char>,
) -> Option<Seq<char>> {
    match crate::change::authored(
        ws,
        crate::change::no_change(ws),
        inverse,
        node,
        parent,
        parent_title,
    ) {
        Ok((_, cs)) => match crate::change::authored(ws, cs, spanning, parent, node, title) {
            Ok((_, cs)) => crate::registry::id_at(cs.ids, node),
            Err(_) => None,
        },
        Err(_) => None,
    }
}

/// A creation leaves a workspace whole but for what is new and the parent: every other
/// file is as it was, none is gone, and every identifier leads where it led.
pub proof fn law_create_stays_whole(
    ws: WsView,
    path: Seq<char>,
    parent: Seq<char>,
    title: Option<Seq<char>>,
    after: WsView,
)
    requires
        crate::registry::is_sound(ws.ids),
        creation(ws, path, parent, title) matches Ok((cs, _)) && crate::change::landed(ws, cs)
            matches Ok(w) && w == after,
    ensures
        creation(ws, path, parent, title) matches Ok((_, made)) && crate::landing::stays_whole(
            ws,
            after,
            seq![made.node, crate::path::normalized(parent)] + (match made.body {
                Some(body) => seq![body],
                None => Seq::empty(),
            }),
        ),
        crate::registry::is_sound(after.ids),
{
    let up = crate::path::normalized(parent);
    let (_, made) = creation(ws, path, parent, title)->Ok_0;
    let node = made.node;
    let paths = seq![node, up] + (match made.body {
        Some(body) => seq![body],
        None => Seq::empty(),
    });
    assert(paths[0] == node && paths[1] == up);
    assert(paths.contains(node) && paths.contains(up));
    match made.body {
        Some(body) => {
            assert(paths[2] == body);
            assert(paths.contains(body));
        },
        None => {},
    }
    let (spanning, inverse) = crate::workspace::spanning_names(ws.relations)->Ok_0;
    let parent_doc = (crate::workspace::loaded(ws.files, up)->Ok_0).1;
    let none = crate::change::no_change(ws);
    let parent_title = crate::title::title_of(parent_doc, up);
    let first = (crate::change::authored(ws, none, inverse, node, up, parent_title)->Ok_0).1;
    let second = (crate::change::authored(
        ws,
        first,
        spanning,
        up,
        node,
        given_title(title, node),
    )->Ok_0).1;
    crate::change::law_identified_keeps(ws, none, up);
    crate::change::law_identified_keeps(ws, first, node);
    crate::change::law_identified_keeps(ws, second, node);
    crate::change::lemma_written_stays_whole(
        ws,
        drafted_creation(ws, path, parent, title),
        paths,
        after,
    );
}

/// A creation leaves a parent that gets a reference to what is new at the end of its list of
/// children, and reads with it, and else as it did. The links can be authored so that they
/// lead, and no document is to carry an identifier that it got by the creation.
pub proof fn law_created_parent_reads(
    ws: WsView,
    path: Seq<char>,
    parent: Seq<char>,
    title: Option<Seq<char>>,
    after: WsView,
)
    requires
        crate::registry::is_sound(ws.ids),
        creation(ws, path, parent, title) matches Ok((cs, made)) && (crate::change::landed(ws, cs)
            matches Ok(w) && w == after) && made.body != Some(made.node) && (
        !ws.settings.id_storage.stamps() || cs.fresh.len() == 0) && (crate::workspace::loaded(
            ws.files,
            crate::path::normalized(parent),
        ) matches Ok((_, doc)) && crate::workspace::spanning_names(ws.relations) matches Ok(
            (spanning, inverse),
        ) && ({
            let up = crate::path::normalized(parent);
            let up_title = crate::title::title_of(doc, up);
            let own_title = given_title(title, made.node);
            &&& crate::change::can_author(
                crate::workspace::reference_style(ws, inverse),
                made.node,
                up,
                up_id(ws, made.node, up, up_title, inverse),
                up_title,
            )
            &&& crate::change::can_author(
                crate::workspace::reference_style(ws, spanning),
                up,
                made.node,
                down_id(ws, made.node, own_title, up, up_title, spanning, inverse),
                own_title,
            )
        })),
    ensures
        creation(ws, path, parent, title) matches Ok((_, made)) && (
        crate::workspace::spanning_names(ws.relations) matches Ok((spanning, _))
            && crate::adopt::gets_down(
            ws,
            after,
            spanning,
            crate::path::normalized(parent),
            made.node,
        )),
{
    let over = crate::path::normalized(parent);
    let doc = (crate::workspace::loaded(ws.files, over)->Ok_0).1;
    let (spanning, inverse) = crate::workspace::spanning_names(ws.relations)->Ok_0;
    let (_, made) = creation(ws, path, parent, title)->Ok_0;
    law_create_links(ws, path, parent, title, after);
    let (_, down, _) = tied(
        ws,
        made.node,
        given_title(title, made.node),
        over,
        crate::title::title_of(doc, over),
    )->Ok_0;
    crate::adopt::lemma_gets_down(ws, after, spanning, over, made.node, down);
}

/// A document that is created in a block, or as a metadata file without a content file of
/// its own, reads with the title that is given, or the stem of its name, and with a
/// reference to its parent; with its identifier at most besides, and with no body. The
/// links can be authored so that they lead, no document is to carry an identifier that it
/// got by the creation, nothing reads as an empty document, and the edits read back.
pub proof fn law_created_reads(
    ws: WsView,
    path: Seq<char>,
    parent: Seq<char>,
    title: Option<Seq<char>>,
    after: WsView,
    blank: crate::document::DocView,
)
    requires
        crate::registry::is_sound(ws.ids),
        creation(ws, path, parent, title) matches Ok((cs, made)) && (crate::change::landed(ws, cs)
            matches Ok(w) && w == after) && made.body is None && !crate::path::escapes(made.node)
            && crate::document::parsed(made.node, ""@) == Some(blank) && blank.meta is Null
            && blank.body == ""@ && blank.carrier == (match crate::document::file_format(
            made.node,
        ) {
            Some(format) => Some(MetaCarrier::WholeFile(format)),
            None => None,
        }) && (!ws.settings.id_storage.stamps() || cs.fresh.len() == 0) && (
        crate::workspace::loaded(ws.files, crate::path::normalized(parent)) matches Ok((_, doc))
            && crate::workspace::spanning_names(ws.relations) matches Ok((spanning, inverse)) && ({
            let up = crate::path::normalized(parent);
            let up_title = crate::title::title_of(doc, up);
            let own_title = given_title(title, made.node);
            &&& inverse != "title"@ && inverse != "id"@
            &&& crate::change::can_author(
                crate::workspace::reference_style(ws, inverse),
                made.node,
                up,
                up_id(ws, made.node, up, up_title, inverse),
                up_title,
            )
            &&& crate::change::can_author(
                crate::workspace::reference_style(ws, spanning),
                up,
                made.node,
                down_id(ws, made.node, own_title, up, up_title, spanning, inverse),
                own_title,
            )
        })),
    ensures
        creation(ws, path, parent, title) matches Ok((_, made)) && (
        crate::workspace::spanning_names(ws.relations) matches Ok((_, inverse)) && exists|
            touches: Seq<crate::reading::Touch>,
            raw: Seq<char>,
        |
            {
                &&& #[trigger] crate::workspace::reference_path(
                    after.ids,
                    after.name,
                    made.node,
                    raw,
                ) == Some(crate::path::normalized(parent))
                &&& #[trigger] crate::reading::reads_through(made.node, ""@, touches) ==> (
                crate::workspace::loaded(after.files, made.node) matches Ok((_, now)) && ({
                    &&& crate::meta::field(now.meta, "title"@) == Some(
                        MetaView::Text(
                            match title {
                                Some(title) => title,
                                None => match crate::path::stem_of(made.node) {
                                    Some(stem) => stem,
                                    None => Seq::empty(),
                                },
                            },
                        ),
                    )
                    &&& crate::meta::field(now.meta, inverse) == Some(MetaView::Text(raw))
                    &&& crate::meta::field(now.meta, "id"@) == (if ws.settings.id_storage.stamps() {
                        match crate::registry::id_at(after.ids, made.node) {
                            Some(id) => Some(MetaView::Text(id)),
                            None => None,
                        }
                    } else {
                        None
                    })
                    &&& forall|key: Seq<char>|
                        key != "title"@ && key != "id"@ && key != inverse
                            ==> #[trigger] crate::meta::field(now.meta, key) is None
                    &&& now.body == ""@
                }))
            }),
{
    let over = crate::path::normalized(parent);
    let doc = (crate::workspace::loaded(ws.files, over)->Ok_0).1;
    let (spanning, inverse) = crate::workspace::spanning_names(ws.relations)->Ok_0;
    let (_, made) = creation(ws, path, parent, title)->Ok_0;
    let node = made.node;
    let own = given_title(title, node);
    law_create_links(ws, path, parent, title, after);
    let (up, _, _) = tied(ws, node, own, over, crate::title::title_of(doc, over))->Ok_0;
    let place = placement(ws, crate::path::normalized(path), doc);
    let id = own_id(ws, after.ids, node);
    let none = Seq::<crate::reading::Touch>::empty();
    let kind = match place.carrier {
        MetaCarrier::Fenced(kind) => kind,
        MetaCarrier::WholeFile(_) => crate::codec::Fence::Frontmatter,
    };
    let t0 = crate::reading::Touch::Open(kind);
    let t1 = crate::reading::Touch::Value("title"@, MetaView::Text(own));
    let t2 = crate::reading::Touch::Value("id"@, MetaView::Text(id->Some_0));
    let t3 = crate::reading::Touch::Value(inverse, MetaView::Text(up));
    let a = none.push(t0);
    let b = a.push(t1);
    let c = if id is Some {
        b.push(t2)
    } else {
        b
    };
    let touches = c.push(t3);
    crate::reading::lemma_touch_push(""@, blank.carrier, blank, none, t0);
    crate::reading::lemma_touch_push(""@, blank.carrier, blank, a, t1);
    crate::reading::lemma_touch_push(""@, blank.carrier, blank, b, t2);
    crate::reading::lemma_touch_push(""@, blank.carrier, blank, c, t3);
    assert(crate::reading::all_carried(blank.carrier, a) == Some(place.carrier));
    assert(crate::reading::all_carried(blank.carrier, b) == Some(place.carrier));
    assert(crate::reading::all_carried(blank.carrier, c) == Some(place.carrier));
    let text = new_text(place, own, id, inverse, up)->Some_0;
    assert(crate::reading::all_touched(""@, blank.carrier, touches) == Some(text));
    assert(crate::workspace::reference_path(after.ids, after.name, node, up) == Some(over));
    if crate::reading::reads_through(node, ""@, touches) {
        crate::reading::law_touched_reads(node, ""@, touches);
        let m1 = crate::reading::with_value(MetaView::Null, "title"@, MetaView::Text(own));
        let m2 = if id is Some {
            crate::reading::with_value(m1, "id"@, MetaView::Text(id->Some_0))
        } else {
            m1
        };
        let m3 = crate::reading::with_value(m2, inverse, MetaView::Text(up));
        assert(crate::reading::all_meant(blank, touches).meta == m3);
        reveal_strlit("id");
        reveal_strlit("title");
        assert("id"@.len() != "title"@.len());
        assert forall|key: Seq<char>| true implies (#[trigger] crate::meta::field(m3, key)) == (if key
            == inverse {
            Some(MetaView::Text(up))
        } else if key == "id"@ && id is Some {
            Some(MetaView::Text(id->Some_0))
        } else if key == "title"@ {
            Some(MetaView::Text(own))
        } else {
            None
        }) by {
            crate::reading::law_value_reads(MetaView::Null, "title"@, MetaView::Text(own), key);
            if id is Some {
                crate::reading::law_value_reads(m1, "id"@, MetaView::Text(id->Some_0), key);
            }
            crate::reading::law_value_reads(m2, inverse, MetaView::Text(up), key);
        }
        assert(crate::meta::field(m3, "title"@) is Some);
        assert(crate::meta::field(m3, "id"@) is Some <==> id is Some);
        assert(crate::meta::field(m3, inverse) is Some);
    }
}

} // verus!
