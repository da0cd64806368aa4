//! What a document that follows a move reads as: its references and its body, where its
//! edits read back.

use crate::document::DocView;
use crate::field::{field_edits, inbound_entry, relation_edits, Read};
use crate::maintain::MovesView;
use crate::meta::MetaView;
use crate::reading::{all_meant, all_touched, reads_through, replacements, Touch};
use crate::workspace::WsView;
use vstd::prelude::*;

verus! {

pub proof fn lemma_no_edits(
    ws: WsView,
    meta: MetaView,
    relations: Seq<crate::relation::RelationView>,
    rule: crate::field::EntryRule,
)
    requires
        !(meta is Mapping),
    ensures
        relation_edits(ws, meta, relations, rule) == Seq::<crate::field::EditView>::empty(),
    decreases relations.len(),
{
    if relations.len() > 0 {
        lemma_no_edits(ws, meta, relations.drop_last(), rule);
    }
}

/// The edits by which a document's relations are sent from one path to another, and what
/// it reads as where they read back.
proof fn lemma_retargeted_touches(
    ws: WsView,
    source: Seq<char>,
    read: Read,
    relations: Seq<crate::relation::RelationView>,
    from: Seq<char>,
    to: Seq<char>,
) -> (touches: Seq<Touch>)
    requires
        crate::document::parsed(source, read.0) == Some(read.1),
        crate::follow::distinct_names(relations),
        crate::field::retargeted_all(ws, source, read, relations, from, to) is Ok,
    ensures
        crate::field::retargeted_all(ws, source, read, relations, from, to) matches Ok(out) && (
        reads_through(source, read.0, touches) ==> all_touched(read.0, read.1.carrier, touches)
            == Some(out.0) && out.1 == all_meant(read.1, touches) && out.1 == (DocView {
            meta: crate::follow::edits_made(
                read.1.meta,
                relation_edits(ws, read.1.meta, relations, inbound_entry(source, from, to)),
            ),
            ..read.1
        })),
    decreases relations.len(),
{
    let none = Seq::<Touch>::empty();
    if relations.len() == 0 {
        none
    } else {
        let rest = relations.drop_last();
        let name = relations.last().name;
        let rule = inbound_entry(source, from, to);
        assert(crate::follow::distinct_names(rest)) by {
            assert forall|i: int, j: int| 0 <= i < j < rest.len() implies (#[trigger] rest[i]).name
                != (#[trigger] rest[j]).name by {
                assert(relations[i].name != relations[j].name);
            }
        }
        let first = lemma_retargeted_touches(ws, source, read, rest, from, to);
        let (text, doc) = crate::field::retargeted_all(ws, source, read, rest, from, to)->Ok_0;
        let style = crate::workspace::reference_style(ws, name).path_style;
        let edits = field_edits(name, crate::meta::field(doc.meta, name), style, rule);
        let more = if doc.carrier is Some {
            replacements(edits)
        } else {
            none
        };
        let touches = first + more;
        let planned = relation_edits(ws, read.1.meta, rest, rule);
        if doc.carrier is Some {
            crate::reading::lemma_replacements(text, doc.carrier->Some_0, doc, edits);
        }
        if reads_through(source, read.0, touches) {
            crate::reading::lemma_reads_parts(source, read.0, first, more);
            crate::reading::lemma_touch_add(read.0, read.1.carrier, read.1, first, more);
            crate::reading::lemma_meant_carrier(read.1, first);
            crate::follow::law_relations_respelled(ws, read.1.meta, rest, rule);
            assert(forall|i: int| 0 <= i < rest.len() ==> (#[trigger] rest[i]).name != name) by {
                assert forall|i: int| 0 <= i < rest.len() implies (#[trigger] rest[i]).name
                    != name by {
                    assert(relations[i].name != relations[relations.len() - 1].name);
                }
            }
            assert(crate::meta::field(doc.meta, name) == crate::meta::field(read.1.meta, name));
            crate::follow::lemma_edits_add(read.1.meta, planned, edits);
            crate::reading::law_touched_reads(source, text, more);
            if doc.carrier is None {
                lemma_no_edits(ws, read.1.meta, relations, rule);
                lemma_no_edits(ws, read.1.meta, rest, rule);
            } else if edits.len() == 0 {
                assert(more =~= none);
            }
        }
        touches
    }
}

/// The body of the document at `source` with its links to each of the moved paths, but for
/// itself, sent to where that has gone.
pub open spec fn followed_body(
    ws: WsView,
    source: Seq<char>,
    body: Seq<char>,
    moved: Seq<Seq<char>>,
    moves: MovesView,
) -> Seq<char>
    decreases moved.len(),
{
    if moved.len() == 0 {
        body
    } else {
        let before = followed_body(ws, source, body, moved.drop_last(), moves);
        match crate::maintain::landing(moves, moved.last()) {
            Some(to) => if moved.last() == source {
                before
            } else {
                crate::maintain::respelled_body(
                    before,
                    crate::prose::body_links(source, before),
                    crate::maintain::inbound_rule(
                        source,
                        moved.last(),
                        to,
                        ws.settings.references.path_style,
                    ),
                )
            },
            None => before,
        }
    }
}

proof fn lemma_inbound_touches(
    ws: WsView,
    source: Seq<char>,
    read: Read,
    from: Seq<char>,
    to: Seq<char>,
) -> (touches: Seq<Touch>)
    requires
        crate::document::parsed(source, read.0) == Some(read.1),
        crate::follow::distinct_names(ws.relations.relations),
        crate::field::inbound_read(ws, source, read, from, to) is Ok,
    ensures
        crate::field::inbound_read(ws, source, read, from, to) matches Ok(out) && (reads_through(
            source,
            read.0,
            touches,
        ) ==> all_touched(read.0, read.1.carrier, touches) == Some(out.0) && out.1 == all_meant(
            read.1,
            touches,
        ) && out.1 == (DocView {
            meta: crate::follow::edits_made(
                read.1.meta,
                relation_edits(
                    ws,
                    read.1.meta,
                    ws.relations.relations,
                    inbound_entry(source, from, to),
                ),
            ),
            body: crate::maintain::respelled_body(
                read.1.body,
                crate::prose::body_links(source, read.1.body),
                crate::maintain::inbound_rule(
                    source,
                    from,
                    to,
                    ws.settings.references.path_style,
                ),
            ),
            ..read.1
        })),
{
    let style = ws.settings.references.path_style;
    let body = read.1.body;
    let links = crate::prose::body_links(source, body);
    let rule = crate::maintain::inbound_rule(source, from, to, style);
    let changes = crate::maintain::changes_by(links, rule);
    let new = crate::maintain::respelled_body(body, links, rule);
    let text = crate::maintain::body_inbound(read.0, body, source, from, to, style);
    let touch = Touch::Body(body, new);
    let first = if changes.len() == 0 {
        Seq::<Touch>::empty()
    } else {
        seq![touch]
    };
    if changes.len() == 0 {
        assert(changes =~= Seq::empty());
        assert(new =~= body);
    }
    crate::reading::lemma_touch_one(read.0, read.1.carrier, read.1, touch);
    assert(all_touched(read.0, read.1.carrier, first) == Some(text));
    let again = if text != read.0 {
        crate::field::reread(source, text)->Ok_0
    } else {
        read
    };
    let more = lemma_retargeted_touches(ws, source, again, ws.relations.relations, from, to);
    let touches = first + more;
    if reads_through(source, read.0, touches) {
        crate::reading::lemma_reads_parts(source, read.0, first, more);
        crate::reading::lemma_touch_add(read.0, read.1.carrier, read.1, first, more);
        crate::reading::lemma_meant_carrier(read.1, first);
        assert(all_meant(read.1, first) == (DocView { body: new, ..read.1 }));
        assert(again.1 == (DocView { body: new, ..read.1 }));
    }
    touches
}

/// The edits by which a document follows what moves, and what it reads as where they read
/// back: its relations and its body lead after what has moved, its other entries are as
/// they were.
pub proof fn law_followed_touches(
    ws: WsView,
    source: Seq<char>,
    read: Read,
    moved: Seq<Seq<char>>,
    moves: MovesView,
) -> (touches: Seq<Touch>)
    requires
        crate::document::parsed(source, read.0) == Some(read.1),
        crate::follow::distinct_names(ws.relations.relations),
        crate::field::followed(ws, source, read, moved, moves) is Ok,
    ensures
        crate::field::followed(ws, source, read, moved, moves) matches Ok(out) && (reads_through(
            source,
            read.0,
            touches,
        ) ==> all_touched(read.0, read.1.carrier, touches) == Some(out.0) && out.1 == all_meant(
            read.1,
            touches,
        ) && out.1 == (DocView {
            meta: crate::follow::followed_meta(ws, source, read.1.meta, moved, moves),
            body: followed_body(ws, source, read.1.body, moved, moves),
            ..read.1
        })),
    decreases moved.len(),
{
    let none = Seq::<Touch>::empty();
    if moved.len() == 0 {
        none
    } else {
        let rest = moved.drop_last();
        let first = law_followed_touches(ws, source, read, rest, moves);
        let mid = crate::field::followed(ws, source, read, rest, moves)->Ok_0;
        crate::landing::law_followed_reads(ws, source, read, rest, moves);
        match crate::maintain::landing(moves, moved.last()) {
            Some(to) => {
                if moved.last() == source {
                    first
                } else {
                    let more = lemma_inbound_touches(ws, source, mid, moved.last(), to);
                    let touches = first + more;
                    if reads_through(source, read.0, touches) {
                        crate::reading::lemma_reads_parts(source, read.0, first, more);
                        crate::reading::lemma_touch_add(
                            read.0,
                            read.1.carrier,
                            read.1,
                            first,
                            more,
                        );
                        crate::reading::lemma_meant_carrier(read.1, first);
                    }
                    touches
                }
            },
            None => first,
        }
    }
}

/// Where the last of the links ends.
pub open spec fn links_end(links: Seq<crate::prose::BodyLinkView>) -> int {
    if links.len() == 0 {
        0
    } else {
        links.last().end
    }
}

/// A body up to the end of its last link, with a text in place of each link and what
/// stands between them as it is.
pub open spec fn woven_front(
    body: Seq<char>,
    links: Seq<crate::prose::BodyLinkView>,
    news: Seq<Seq<char>>,
) -> Seq<char>
    decreases links.len(),
{
    if links.len() == 0 {
        Seq::empty()
    } else {
        woven_front(body, links.drop_last(), news) + body.subrange(
            links_end(links.drop_last()),
            links.last().start,
        ) + news[links.len() - 1]
    }
}

/// A body with a text in place of each of its links, and everything else as it is.
pub open spec fn woven(
    body: Seq<char>,
    links: Seq<crate::prose::BodyLinkView>,
    news: Seq<Seq<char>>,
) -> Seq<char> {
    woven_front(body, links, news) + body.skip(links_end(links))
}

proof fn lemma_woven_front(
    body: Seq<char>,
    links: Seq<crate::prose::BodyLinkView>,
    rule: spec_fn(crate::prose::BodyLinkView) -> Option<Seq<char>>,
    news: Seq<Seq<char>>,
)
    requires
        crate::prose::is_spaced(links, body.len() as int),
        news.len() >= links.len(),
        forall|k: int|
            0 <= k < links.len() ==> news[k] == crate::follow::stood_as(
                body,
                #[trigger] links[k],
                rule,
            ),
    ensures
        ({
            let changes = crate::maintain::changes_by(links, rule);
            let end = crate::maintain::changes_end(changes);
            &&& 0 <= end <= links_end(links) <= body.len()
            &&& crate::maintain::rebuilt_front(body, changes) + body.subrange(
                end,
                links_end(links),
            ) == woven_front(body, links, news)
        }),
    decreases links.len(),
{
    let changes = crate::maintain::changes_by(links, rule);
    if links.len() == 0 {
        assert(changes =~= Seq::empty());
        assert(crate::maintain::rebuilt_front(body, changes) + body.subrange(0, 0)
            =~= woven_front(body, links, news));
    } else {
        let rest = links.drop_last();
        let n = links.len() - 1;
        assert(crate::prose::is_spaced(rest, body.len() as int)) by {
            assert forall|i: int| 0 <= i < rest.len() implies 0 <= (#[trigger] rest[i]).start
                < rest[i].end <= body.len() by {
                assert(links[i].start < links[i].end);
            }
            assert forall|i: int, j: int| 0 <= i < j < rest.len() implies (#[trigger] rest[i]).end
                <= (#[trigger] rest[j]).start by {
                assert(links[i].end <= links[j].start);
            }
        }
        assert forall|k: int| 0 <= k < rest.len() implies news[k] == crate::follow::stood_as(
            body,
            #[trigger] rest[k],
            rule,
        ) by {
            assert(rest[k] == links[k]);
        }
        lemma_woven_front(body, rest, rule, news);
        let few = crate::maintain::changes_by(rest, rule);
        let end = crate::maintain::changes_end(few);
        let l = links[n];
        assert(0 <= l.start < l.end <= body.len());
        if rest.len() > 0 {
            assert(links[n - 1].end <= links[n].start);
            assert(rest.last() == links[n - 1]);
        }
        assert(news[n] == crate::follow::stood_as(body, links[n], rule));
        match rule(l) {
            Some(text) => {
                assert(changes.drop_last() =~= few);
                assert(crate::maintain::rebuilt_front(body, changes) + body.subrange(l.end, l.end)
                    =~= woven_front(body, links, news));
            },
            None => {
                assert(crate::maintain::rebuilt_front(body, changes) + body.subrange(end, l.end)
                    =~= woven_front(body, links, news));
            },
        }
    }
}

/// A body whose links a rule respells is that body with what the links then stand as in
/// their places.
pub proof fn law_respelled_is_woven(
    body: Seq<char>,
    links: Seq<crate::prose::BodyLinkView>,
    rule: spec_fn(crate::prose::BodyLinkView) -> Option<Seq<char>>,
)
    requires
        crate::prose::is_spaced(links, body.len() as int),
    ensures
        crate::maintain::respelled_body(body, links, rule) == woven(
            body,
            links,
            links.map_values(
                |l: crate::prose::BodyLinkView| crate::follow::stood_as(body, l, rule),
            ),
        ),
{
    let news = links.map_values(
        |l: crate::prose::BodyLinkView| crate::follow::stood_as(body, l, rule),
    );
    let changes = crate::maintain::changes_by(links, rule);
    let end = crate::maintain::changes_end(changes);
    lemma_woven_front(body, links, rule, news);
    assert(body.skip(end) =~= body.subrange(end, links_end(links)) + body.skip(links_end(links)));
    assert(crate::maintain::rebuilt(body, changes) =~= woven(body, links, news));
}

/// Whether texts in place of the links of a body lead, from a new place, where those led
/// from the old one, or where that has gone: each path link reaches it, where it can be
/// respelled to, with its label, its wrapper and its locator; and every other link is as it
/// was.
pub open spec fn leads_on(
    body: Seq<char>,
    from: Seq<char>,
    to: Seq<char>,
    style: crate::link::LinkStyle,
    gone: spec_fn(Seq<char>) -> Seq<char>,
    news: Seq<Seq<char>>,
) -> bool {
    let links = crate::prose::body_links(from, body);
    &&& news.len() == links.len()
    &&& forall|k: int|
        0 <= k < links.len() ==> {
            let l = #[trigger] links[k];
            let text = body.subrange(l.start, l.end);
            let place = gone(crate::link::resolve_path(from, l.link.target));
            if crate::link::is_path_target(l.link.target) {
                crate::link::parse_link(text) == l.link && crate::follow::can_reach(
                    text,
                    style,
                    to,
                    place,
                ) ==> crate::follow::reaches(news[k], text, to, place)
            } else {
                news[k] == text
            }
        }
}

/// Prose that moves leads where it led: what stands between its links is as it was, and its
/// links lead on.
pub proof fn law_moved_prose(
    body: Seq<char>,
    from: Seq<char>,
    to: Seq<char>,
    moves: MovesView,
    style: crate::link::LinkStyle,
) -> (news: Seq<Seq<char>>)
    ensures
        crate::maintain::respelled_body(
            body,
            crate::prose::body_links(from, body),
            crate::maintain::moved_rule(body, from, to, moves, style),
        ) == woven(body, crate::prose::body_links(from, body), news),
        leads_on(
            body,
            from,
            to,
            style,
            |p: Seq<char>| crate::maintain::landing_or_same(moves, p),
            news,
        ),
{
    let links = crate::prose::body_links(from, body);
    let rule = crate::maintain::moved_rule(body, from, to, moves, style);
    let news = links.map_values(
        |l: crate::prose::BodyLinkView| crate::follow::stood_as(body, l, rule),
    );
    crate::prose::law_body_links_spaced(from, body);
    law_respelled_is_woven(body, links, rule);
    assert forall|k: int| 0 <= k < links.len() implies ({
        let l = #[trigger] links[k];
        let text = body.subrange(l.start, l.end);
        let place = crate::maintain::landing_or_same(
            moves,
            crate::link::resolve_path(from, l.link.target),
        );
        if crate::link::is_path_target(l.link.target) {
            crate::link::parse_link(text) == l.link && crate::follow::can_reach(
                text,
                style,
                to,
                place,
            ) ==> crate::follow::reaches(news[k], text, to, place)
        } else {
            news[k] == text
        }
    }) by {
        let l = links[k];
        let text = body.subrange(l.start, l.end);
        let place = crate::maintain::landing_or_same(
            moves,
            crate::link::resolve_path(from, l.link.target),
        );
        assert(news[k] == crate::follow::stood_as(body, l, rule));
        if crate::link::is_path_target(l.link.target) && crate::link::parse_link(text) == l.link
            && crate::follow::can_reach(text, style, to, place) {
            crate::link::law_respelled_arrives(text, style, to, place);
        }
    }
    news
}

/// A body whose document follows one file that moves: what stands between its links is as
/// it was, each path link to that file reaches where it has gone, where it can be respelled
/// to, and every other link is as it was.
pub proof fn law_following_prose(
    body: Seq<char>,
    source: Seq<char>,
    from: Seq<char>,
    to: Seq<char>,
    style: crate::link::LinkStyle,
) -> (news: Seq<Seq<char>>)
    ensures
        ({
            let links = crate::prose::body_links(source, body);
            &&& crate::maintain::respelled_body(
                body,
                links,
                crate::maintain::inbound_rule(source, from, to, style),
            ) == woven(body, links, news)
            &&& news.len() == links.len()
            &&& forall|k: int|
                0 <= k < links.len() ==> {
                    let l = #[trigger] links[k];
                    let text = body.subrange(l.start, l.end);
                    if crate::link::is_path_target(l.link.target) && crate::link::resolve_path(
                        source,
                        l.link.target,
                    ) == from {
                        crate::link::parse_link(text) == l.link && crate::follow::can_reach(
                            text,
                            style,
                            source,
                            to,
                        ) ==> crate::follow::reaches(news[k], text, source, to)
                    } else {
                        news[k] == text
                    }
                }
        }),
{
    let links = crate::prose::body_links(source, body);
    let rule = crate::maintain::inbound_rule(source, from, to, style);
    let news = links.map_values(
        |l: crate::prose::BodyLinkView| crate::follow::stood_as(body, l, rule),
    );
    crate::prose::law_body_links_spaced(source, body);
    law_respelled_is_woven(body, links, rule);
    assert forall|k: int| 0 <= k < links.len() implies ({
        let l = #[trigger] links[k];
        let text = body.subrange(l.start, l.end);
        if crate::link::is_path_target(l.link.target) && crate::link::resolve_path(
            source,
            l.link.target,
        ) == from {
            crate::link::parse_link(text) == l.link && crate::follow::can_reach(
                text,
                style,
                source,
                to,
            ) ==> crate::follow::reaches(news[k], text, source, to)
        } else {
            news[k] == text
        }
    }) by {
        let l = links[k];
        let text = body.subrange(l.start, l.end);
        assert(news[k] == crate::follow::stood_as(body, l, rule));
        if crate::link::parse_link(text) == l.link && crate::follow::can_reach(
            text,
            style,
            source,
            to,
        ) {
            crate::link::law_respelled_arrives(text, style, source, to);
        }
    }
    news
}

/// The edits by which a document that moves takes its links along, and what it reads as
/// where they read back.
pub proof fn law_carried_touches(
    ws: WsView,
    path: Seq<char>,
    there: Seq<char>,
    text: Seq<char>,
    doc: DocView,
    moves: MovesView,
) -> (touches: Seq<Touch>)
    requires
        crate::document::parsed(path, text) == Some(doc),
        crate::field::respelled_fields(
            ws,
            path,
            text,
            doc,
            crate::field::moved_entry(path, there, moves),
        ) is Ok,
    ensures
        ({
            let rule = crate::field::moved_entry(path, there, moves);
            let style = ws.settings.references.path_style;
            let first = crate::field::respelled_fields(ws, path, text, doc, rule)->Ok_0;
            let out = crate::maintain::body_moved(first, doc.body, path, there, moves, style);
            &&& all_touched(text, doc.carrier, touches) == Some(out)
            &&& reads_through(path, text, touches) ==> crate::document::parsed(path, out) == Some(
                DocView {
                    meta: crate::follow::edits_made(
                        doc.meta,
                        relation_edits(ws, doc.meta, ws.relations.relations, rule),
                    ),
                    body: crate::maintain::respelled_body(
                        doc.body,
                        crate::prose::body_links(path, doc.body),
                        crate::maintain::moved_rule(doc.body, path, there, moves, style),
                    ),
                    ..doc
                },
            )
        }),
{
    let style = ws.settings.references.path_style;
    let rule = crate::field::moved_entry(path, there, moves);
    let edits = relation_edits(ws, doc.meta, ws.relations.relations, rule);
    let links = crate::prose::body_links(path, doc.body);
    let brule = crate::maintain::moved_rule(doc.body, path, there, moves, style);
    let changes = crate::maintain::changes_by(links, brule);
    let new = crate::maintain::respelled_body(doc.body, links, brule);
    let none = Seq::<Touch>::empty();
    let a = if doc.carrier is Some {
        replacements(edits)
    } else {
        none
    };
    let touch = Touch::Body(doc.body, new);
    let b = if changes.len() > 0 {
        none.push(touch)
    } else {
        none
    };
    let touches = a + b;
    if doc.carrier is Some {
        crate::reading::lemma_replacements(text, doc.carrier->Some_0, doc, edits);
    } else {
        lemma_no_edits(ws, doc.meta, ws.relations.relations, rule);
    }
    crate::reading::lemma_touch_add(text, doc.carrier, doc, a, b);
    let first = all_touched(text, doc.carrier, a);
    assert(first is Some);
    let mid = all_meant(doc, a);
    crate::reading::lemma_touch_push(first->Some_0, doc.carrier, mid, none, touch);
    if changes.len() == 0 {
        assert(changes =~= Seq::empty());
        assert(crate::maintain::rebuilt(doc.body, changes) =~= doc.body);
    }
    if reads_through(path, text, touches) {
        crate::reading::law_touched_reads(path, text, touches);
    }
    touches
}

/// Whether a reference of a document leads to a place afterwards, where there is a file: the
/// one at its place in the list, with its label, its wrapper and its locator.
pub open spec fn leads_there(
    ws: WsView,
    after: WsView,
    source: Seq<char>,
    name: Seq<char>,
    k: int,
    gone: Seq<char>,
) -> bool {
    crate::workspace::loaded(ws.files, source) matches Ok((_, doc)) && (crate::workspace::loaded(
        after.files,
        source,
    ) matches Ok((_, now)) && k < crate::meta::links_at(now.meta, name).len()
        && crate::follow::reaches(
        crate::meta::links_at(now.meta, name)[k],
        crate::meta::links_at(doc.meta, name)[k],
        source,
        gone,
    ) && crate::files::lookup(after.files, gone) is Some)
}

} // verus!
