//! What holds of links that follow: the references of a document when its
//! metadata is edited, when it moves, and when what it links to moves.

use crate::codec::StepView;
use crate::field::{
    inbound_entry, item_edits, moved_entry, relation_edits, restyled_entry, EditView, EntryRule,
};
use crate::link::LinkStyle;
use crate::maintain::MovesView;
use crate::meta::MetaView;
use crate::workspace::WsView;
use vstd::prelude::*;

verus! {

/// The metadata that an edit describes.
pub open spec fn one_edited(meta: MetaView, edit: EditView) -> MetaView {
    match meta {
        MetaView::Mapping(pairs) => if edit.way.len() == 1 {
            match edit.way[0] {
                StepView::Key(key) => MetaView::Mapping(
                    crate::meta::put(pairs, key, MetaView::Text(edit.text)),
                ),
                StepView::Index(_) => meta,
            }
        } else if edit.way.len() == 2 {
            match (edit.way[0], edit.way[1]) {
                (StepView::Key(key), StepView::Index(i)) => match crate::meta::field(meta, key) {
                    Some(MetaView::List(items)) => if 0 <= i < items.len() {
                        MetaView::Mapping(
                            crate::meta::put(
                                pairs,
                                key,
                                MetaView::List(items.update(i, MetaView::Text(edit.text))),
                            ),
                        )
                    } else {
                        meta
                    },
                    _ => meta,
                },
                _ => meta,
            }
        } else {
            meta
        },
        _ => meta,
    }
}

/// The metadata that edits describe, one after another.
pub open spec fn edits_made(meta: MetaView, edits: Seq<EditView>) -> MetaView
    decreases edits.len(),
{
    if edits.len() == 0 {
        meta
    } else {
        one_edited(edits_made(meta, edits.drop_last()), edits.last())
    }
}

/// A reference after a rule: its new spelling, or the one it has.
pub open spec fn ruled(style: LinkStyle, rule: EntryRule, raw: Seq<char>) -> Seq<char> {
    match rule(style, raw) {
        Some(text) => text,
        None => raw,
    }
}

/// An item after a rule.
pub open spec fn ruled_item(style: LinkStyle, rule: EntryRule, item: MetaView) -> MetaView {
    match item {
        MetaView::Text(raw) => MetaView::Text(ruled(style, rule, raw)),
        _ => item,
    }
}

/// The first `n` items after a rule, and the others as they are.
pub open spec fn ruled_items(
    style: LinkStyle,
    rule: EntryRule,
    items: Seq<MetaView>,
    n: int,
) -> Seq<MetaView> {
    Seq::new(
        items.len(),
        |i: int|
            if i < n {
                ruled_item(style, rule, items[i])
            } else {
                items[i]
            },
    )
}

/// A field after a rule.
pub open spec fn ruled_value(style: LinkStyle, rule: EntryRule, value: Option<MetaView>) -> Option<
    MetaView,
> {
    match value {
        Some(MetaView::Text(raw)) => Some(MetaView::Text(ruled(style, rule, raw))),
        Some(MetaView::List(items)) => Some(
            MetaView::List(ruled_items(style, rule, items, items.len() as int)),
        ),
        _ => value,
    }
}

/// Metadata that differs from another one in one field at most.
pub open spec fn only_at(before: MetaView, after: MetaView, key: Seq<char>) -> bool {
    forall|other: Seq<char>|
        other != key ==> #[trigger] crate::meta::field(after, other) == crate::meta::field(
            before,
            other,
        )
}

proof fn lemma_item_edits(
    meta: MetaView,
    key: Seq<char>,
    items: Seq<MetaView>,
    style: LinkStyle,
    rule: EntryRule,
    n: int,
)
    requires
        crate::meta::field(meta, key) == Some(MetaView::List(items)),
        0 <= n <= items.len(),
    ensures
        ({
            let after = edits_made(meta, item_edits(key, items.take(n), style, rule));
            &&& after is Mapping
            &&& crate::meta::field(after, key) == Some(
                MetaView::List(ruled_items(style, rule, items, n)),
            )
            &&& only_at(meta, after, key)
        }),
    decreases n,
{
    let edits = item_edits(key, items.take(n), style, rule);
    if n == 0 {
        assert(items.take(0) =~= Seq::empty());
        assert(ruled_items(style, rule, items, 0) =~= items);
    } else {
        lemma_item_edits(meta, key, items, style, rule, n - 1);
        assert(items.take(n).drop_last() =~= items.take(n - 1));
        assert(items.take(n).last() == items[n - 1]);
        let rest = item_edits(key, items.take(n - 1), style, rule);
        let so_far = edits_made(meta, rest);
        let listed = ruled_items(style, rule, items, n - 1);
        let wanted = ruled_items(style, rule, items, n);
        match items[n - 1] {
            MetaView::Text(raw) => match rule(style, raw) {
                Some(text) => {
                    assert(edits.drop_last() =~= rest);
                    let edit = edits.last();
                    assert(edit.way =~= crate::document::item_way(key, n - 1));
                    assert(edit.way[0] == StepView::Key(key));
                    assert(edit.way[1] == StepView::Index(n - 1));
                    let updated = listed.update(n - 1, MetaView::Text(text));
                    assert(updated =~= wanted);
                    match so_far {
                        MetaView::Mapping(pairs) => {
                            assert forall|other: Seq<char>| other != key implies
                                #[trigger] crate::meta::field(
                                edits_made(meta, edits),
                                other,
                            ) == crate::meta::field(meta, other) by {
                                crate::meta::law_put_reads_back(
                                    pairs,
                                    key,
                                    MetaView::List(updated),
                                    other,
                                );
                                assert(crate::meta::field(so_far, other) == crate::meta::field(
                                    meta,
                                    other,
                                ));
                            }
                            crate::meta::law_put_reads_back(
                                pairs,
                                key,
                                MetaView::List(updated),
                                key,
                            );
                        },
                        _ => {},
                    }
                },
                None => {
                    assert(wanted =~= listed);
                },
            },
            _ => {
                assert(wanted =~= listed);
            },
        }
    }
}

proof fn lemma_field_edits(meta: MetaView, key: Seq<char>, style: LinkStyle, rule: EntryRule)
    ensures
        ({
            let value = crate::meta::field(meta, key);
            let after = edits_made(meta, crate::field::field_edits(key, value, style, rule));
            &&& crate::meta::field(after, key) == ruled_value(style, rule, value)
            &&& only_at(meta, after, key)
        }),
{
    let value = crate::meta::field(meta, key);
    let edits = crate::field::field_edits(key, value, style, rule);
    match value {
        Some(MetaView::Text(raw)) => match rule(style, raw) {
            Some(text) => {
                assert(edits.drop_last() =~= Seq::empty());
                assert(edits_made(meta, edits.drop_last()) == meta);
                let edit = edits.last();
                assert(edit.way[0] == StepView::Key(key));
                match meta {
                    MetaView::Mapping(pairs) => {
                        assert forall|other: Seq<char>| other != key implies
                            #[trigger] crate::meta::field(edits_made(meta, edits), other)
                            == crate::meta::field(meta, other) by {
                            crate::meta::law_put_reads_back(
                                pairs,
                                key,
                                MetaView::Text(text),
                                other,
                            );
                        }
                        crate::meta::law_put_reads_back(pairs, key, MetaView::Text(text), key);
                    },
                    _ => {},
                }
            },
            None => {},
        },
        Some(MetaView::List(items)) => {
            lemma_item_edits(meta, key, items, style, rule, items.len() as int);
            assert(items.take(items.len() as int) =~= items);
        },
        _ => {},
    }
}

pub proof fn lemma_edits_add(meta: MetaView, a: Seq<EditView>, b: Seq<EditView>)
    ensures
        edits_made(meta, a + b) == edits_made(edits_made(meta, a), b),
    decreases b.len(),
{
    if b.len() == 0 {
        assert(a + b =~= a);
    } else {
        lemma_edits_add(meta, a, b.drop_last());
        assert((a + b).drop_last() =~= a + b.drop_last());
        assert((a + b).last() == b.last());
    }
}

/// Relations of which no two have the same name.
pub open spec fn distinct_names(relations: Seq<crate::relation::RelationView>) -> bool {
    forall|i: int, j: int|
        0 <= i < j < relations.len() ==> (#[trigger] relations[i]).name != (
        #[trigger] relations[j]).name
}

/// The style that references of a field are respelled in.
pub open spec fn field_style(ws: WsView, name: Seq<char>) -> LinkStyle {
    crate::workspace::reference_style(ws, name).path_style
}

/// What a rule does to metadata: every relation is respelled reference by
/// reference, and every other field is as it was.
pub proof fn law_relations_respelled(
    ws: WsView,
    meta: MetaView,
    relations: Seq<crate::relation::RelationView>,
    rule: EntryRule,
)
    requires
        distinct_names(relations),
    ensures
        ({
            let after = edits_made(meta, relation_edits(ws, meta, relations, rule));
            &&& forall|i: int|
                0 <= i < relations.len() ==> crate::meta::field(
                    after,
                    (#[trigger] relations[i]).name,
                ) == ruled_value(
                    field_style(ws, relations[i].name),
                    rule,
                    crate::meta::field(meta, relations[i].name),
                )
            &&& forall|key: Seq<char>|
                (forall|i: int| 0 <= i < relations.len() ==> (#[trigger] relations[i]).name != key)
                    ==> #[trigger] crate::meta::field(after, key) == crate::meta::field(meta, key)
        }),
    decreases relations.len(),
{
    if relations.len() > 0 {
        let rest = relations.drop_last();
        let n = relations.len() - 1;
        assert(distinct_names(rest)) by {
            assert forall|i: int, j: int| 0 <= i < j < rest.len() implies (#[trigger] rest[i]).name
                != (#[trigger] rest[j]).name by {
                assert(relations[i].name != relations[j].name);
            }
        }
        law_relations_respelled(ws, meta, rest, rule);
        let name = relations[n].name;
        let style = field_style(ws, name);
        let before = edits_made(meta, relation_edits(ws, meta, rest, rule));
        assert forall|i: int| 0 <= i < rest.len() implies (#[trigger] rest[i]).name != name by {
            assert(relations[i].name != relations[n].name);
        }
        assert(crate::meta::field(before, name) == crate::meta::field(meta, name));
        lemma_field_edits(before, name, style, rule);
        lemma_edits_add(
            meta,
            relation_edits(ws, meta, rest, rule),
            crate::field::field_edits(name, crate::meta::field(meta, name), style, rule),
        );
        let after = edits_made(meta, relation_edits(ws, meta, relations, rule));
        assert forall|i: int| 0 <= i < relations.len() implies crate::meta::field(
            after,
            (#[trigger] relations[i]).name,
        ) == ruled_value(
            field_style(ws, relations[i].name),
            rule,
            crate::meta::field(meta, relations[i].name),
        ) by {
            if i < n {
                assert(rest[i] == relations[i]);
                assert(relations[i].name != relations[n].name);
                assert(crate::meta::field(after, rest[i].name) == crate::meta::field(
                    before,
                    rest[i].name,
                ));
            }
        }
        assert forall|key: Seq<char>|
            (forall|i: int| 0 <= i < relations.len() ==> (#[trigger] relations[i]).name
                != key) implies #[trigger] crate::meta::field(after, key) == crate::meta::field(
            meta,
            key,
        ) by {
            assert(relations[n].name != key);
            assert forall|i: int| 0 <= i < rest.len() implies (#[trigger] rest[i]).name != key by {
                assert(relations[i].name != key);
            }
            assert(crate::meta::field(before, key) == crate::meta::field(meta, key));
        }
    }
}

proof fn lemma_texts_ruled(style: LinkStyle, rule: EntryRule, items: Seq<MetaView>)
    ensures
        crate::meta::texts_in(ruled_items(style, rule, items, items.len() as int))
            == crate::meta::texts_in(items).map_values(|raw: Seq<char>| ruled(style, rule, raw)),
    decreases items.len(),
{
    let f = |raw: Seq<char>| ruled(style, rule, raw);
    let all = ruled_items(style, rule, items, items.len() as int);
    if items.len() == 0 {
        assert(all =~= Seq::empty());
        assert(crate::meta::texts_in(items).map_values(f) =~= Seq::empty());
    } else {
        let rest = items.drop_last();
        lemma_texts_ruled(style, rule, rest);
        assert(all.drop_last() =~= ruled_items(style, rule, rest, rest.len() as int));
        match items.last() {
            MetaView::Text(raw) => {
                assert(crate::meta::texts_in(items).map_values(f) =~= crate::meta::texts_in(
                    rest,
                ).map_values(f).push(f(raw)));
            },
            _ => {},
        }
    }
}

/// The references of a relation after a rule are the references before it, one
/// by one and in the same order, each respelled or left.
pub proof fn law_references_respelled(ws: WsView, meta: MetaView, rule: EntryRule, i: int)
    requires
        distinct_names(ws.relations.relations),
        0 <= i < ws.relations.relations.len(),
    ensures
        ({
            let name = ws.relations.relations[i].name;
            let after = edits_made(meta, relation_edits(ws, meta, ws.relations.relations, rule));
            crate::meta::links_at(after, name) == crate::meta::links_at(meta, name).map_values(
                |raw: Seq<char>| ruled(field_style(ws, name), rule, raw),
            )
        }),
{
    let name = ws.relations.relations[i].name;
    let style = field_style(ws, name);
    let f = |raw: Seq<char>| ruled(style, rule, raw);
    law_relations_respelled(ws, meta, ws.relations.relations, rule);
    match crate::meta::field(meta, name) {
        Some(MetaView::List(items)) => {
            lemma_texts_ruled(style, rule, items);
        },
        Some(MetaView::Text(raw)) => {
            assert(seq![raw].map_values(f) =~= seq![f(raw)]);
        },
        _ => {
            assert(Seq::<Seq<char>>::empty().map_values(f) =~= Seq::empty());
        },
    }
}

/// A reference that reaches a place, with the label, the wrapper and the locator
/// of another one.
pub open spec fn reaches(new: Seq<char>, old: Seq<char>, doc: Seq<char>, place: Seq<char>) -> bool {
    let before = crate::link::parse_link(old);
    let after = crate::link::parse_link(new);
    &&& crate::link::is_path_target(after.target)
    &&& crate::link::resolve_path(doc, after.target) == place
    &&& after.label == before.label
    &&& after.wikilink == before.wikilink
    &&& crate::link::locator_of(after.target) == crate::link::locator_of(before.target)
}

/// Whether a reference can be respelled in `doc` to reach a place: both are inside
/// the workspace, and the path can be written in it.
pub open spec fn can_reach(raw: Seq<char>, style: LinkStyle, doc: Seq<char>, place: Seq<char>) -> bool {
    &&& crate::path::is_inside(crate::path::parent_of(doc))
    &&& crate::path::is_inside(place)
    &&& crate::link::is_writable(
        crate::link::parse_link(raw),
        crate::link::path_text_of(style, doc, place),
    )
}

/// When a document moves, each of its path references still reaches what it
/// reached, or where that has gone; its label, its wrapper and its locator stay.
pub proof fn law_moved_reference(
    style: LinkStyle,
    from: Seq<char>,
    to: Seq<char>,
    moves: MovesView,
    raw: Seq<char>,
)
    requires
        crate::link::is_path_target(crate::link::parse_link(raw).target),
        can_reach(
            raw,
            style,
            to,
            crate::maintain::landing_or_same(
                moves,
                crate::link::resolve_path(from, crate::link::parse_link(raw).target),
            ),
        ),
    ensures
        reaches(
            ruled(style, moved_entry(from, to, moves), raw),
            raw,
            to,
            crate::maintain::landing_or_same(
                moves,
                crate::link::resolve_path(from, crate::link::parse_link(raw).target),
            ),
        ),
{
    let place = crate::maintain::landing_or_same(
        moves,
        crate::link::resolve_path(from, crate::link::parse_link(raw).target),
    );
    crate::link::law_respelled_arrives(raw, style, to, place);
}

/// When what a document links to moves, each path reference to it reaches where it
/// has gone, with its label, its wrapper and its locator; every other reference is
/// as it was.
pub proof fn law_inbound_reference(
    style: LinkStyle,
    source: Seq<char>,
    from: Seq<char>,
    to: Seq<char>,
    raw: Seq<char>,
)
    ensures
        ({
            let target = crate::link::parse_link(raw).target;
            let new = ruled(style, inbound_entry(source, from, to), raw);
            if crate::link::is_path_target(target) && crate::link::resolve_path(source, target)
                == from {
                can_reach(raw, style, source, to) ==> reaches(new, raw, source, to)
            } else {
                new == raw
            }
        }),
{
    if can_reach(raw, style, source, to) {
        crate::link::law_respelled_arrives(raw, style, source, to);
    }
}

/// When the style of links changes, each path reference reaches what it reached,
/// with its label, its wrapper and its locator.
pub proof fn law_restyled_reference(
    given: LinkStyle,
    style: LinkStyle,
    file: Seq<char>,
    raw: Seq<char>,
)
    requires
        crate::link::is_path_target(crate::link::parse_link(raw).target),
        can_reach(
            raw,
            style,
            file,
            crate::link::resolve_path(file, crate::link::parse_link(raw).target),
        ),
    ensures
        reaches(
            ruled(given, restyled_entry(file, style), raw),
            raw,
            file,
            crate::link::resolve_path(file, crate::link::parse_link(raw).target),
        ),
{
    crate::link::law_respelled_arrives(
        raw,
        style,
        file,
        crate::link::resolve_path(file, crate::link::parse_link(raw).target),
    );
}

/// A reference that is no path, to an identifier, out of the workspace or into the
/// document itself, is left as it is by every rule that respells paths.
pub proof fn law_other_references_stay(
    style: LinkStyle,
    from: Seq<char>,
    to: Seq<char>,
    moves: MovesView,
    raw: Seq<char>,
)
    requires
        !crate::link::is_path_target(crate::link::parse_link(raw).target),
    ensures
        forall|source: Seq<char>|
            ruled(style, #[trigger] inbound_entry(source, from, to), raw) == raw,
        ruled(style, moved_entry(from, to, moves), raw) == raw,
        forall|given: LinkStyle|
            ruled(given, #[trigger] restyled_entry(from, given), raw) == raw,
{
}

/// When a document moves, the metadata that its edits describe holds, at every
/// place of every relation, a reference that reaches what the one before it
/// reached, or where that has gone; or, where that was no path, the same one.
pub proof fn law_moved_document(
    ws: WsView,
    meta: MetaView,
    from: Seq<char>,
    to: Seq<char>,
    moves: MovesView,
    i: int,
    k: int,
)
    requires
        distinct_names(ws.relations.relations),
        0 <= i < ws.relations.relations.len(),
        ({
            let name = ws.relations.relations[i].name;
            let raws = crate::meta::links_at(meta, name);
            let target = crate::link::parse_link(raws[k]).target;
            0 <= k < raws.len() && (crate::link::is_path_target(target) ==> can_reach(
                raws[k],
                field_style(ws, name),
                to,
                crate::maintain::landing_or_same(moves, crate::link::resolve_path(from, target)),
            ))
        }),
    ensures
        ({
            let name = ws.relations.relations[i].name;
            let raws = crate::meta::links_at(meta, name);
            let target = crate::link::parse_link(raws[k]).target;
            let after = edits_made(
                meta,
                relation_edits(
                    ws,
                    meta,
                    ws.relations.relations,
                    moved_entry(from, to, moves),
                ),
            );
            let news = crate::meta::links_at(after, name);
            &&& news.len() == raws.len()
            &&& if crate::link::is_path_target(target) {
                reaches(
                    news[k],
                    raws[k],
                    to,
                    crate::maintain::landing_or_same(
                        moves,
                        crate::link::resolve_path(from, target),
                    ),
                )
            } else {
                news[k] == raws[k]
            }
        }),
{
    let name = ws.relations.relations[i].name;
    let raws = crate::meta::links_at(meta, name);
    let target = crate::link::parse_link(raws[k]).target;
    law_references_respelled(ws, meta, moved_entry(from, to, moves), i);
    if crate::link::is_path_target(target) {
        law_moved_reference(field_style(ws, name), from, to, moves, raws[k]);
    } else {
        law_other_references_stay(field_style(ws, name), from, to, moves, raws[k]);
    }
}

/// Writing links in a style twice is writing them once.
pub proof fn law_restyle_settles(
    given: LinkStyle,
    style: LinkStyle,
    file: Seq<char>,
    raw: Seq<char>,
)
    requires
        crate::link::is_path_target(crate::link::parse_link(raw).target),
        can_reach(
            raw,
            style,
            file,
            crate::link::resolve_path(file, crate::link::parse_link(raw).target),
        ),
    ensures
        ({
            let once = ruled(given, restyled_entry(file, style), raw);
            ruled(given, restyled_entry(file, style), once) == once
        }),
{
    let link = crate::link::parse_link(raw);
    if !crate::link::is_alias_shaped(link.target) {
        let place = crate::link::resolve_path(file, link.target);
        let text = crate::link::path_text_of(style, file, place);
        let once = ruled(given, restyled_entry(file, style), raw);
        law_restyled_reference(given, style, file, raw);
        crate::link::law_respelled_reads_back(raw, text);
        let again = crate::link::parse_link(once);
        assert(again == crate::link::with_path(link, text));
        assert(crate::link::with_path(again, text) == again);
    }
}

/// The metadata of a document at `source` that follows each of the moved paths, but
/// for itself, to where it has gone.
pub open spec fn followed_meta(
    ws: WsView,
    source: Seq<char>,
    meta: MetaView,
    moved: Seq<Seq<char>>,
    moves: MovesView,
) -> MetaView
    decreases moved.len(),
{
    if moved.len() == 0 {
        meta
    } else {
        let before = followed_meta(ws, source, meta, moved.drop_last(), moves);
        match crate::maintain::landing(moves, moved.last()) {
            Some(to) => if moved.last() == source {
                before
            } else {
                edits_made(
                    before,
                    relation_edits(
                        ws,
                        before,
                        ws.relations.relations,
                        inbound_entry(source, moved.last(), to),
                    ),
                )
            },
            None => before,
        }
    }
}

/// Nothing moves to where something moves from.
pub open spec fn settles(moved: Seq<Seq<char>>, moves: MovesView) -> bool {
    forall|i: int|
        0 <= i < moved.len() ==> (crate::maintain::landing(moves, #[trigger] moved[i]) matches Some(
            to,
        ) ==> !moved.contains(to))
}

proof fn lemma_followed(
    ws: WsView,
    source: Seq<char>,
    meta: MetaView,
    all: Seq<Seq<char>>,
    n: int,
    moves: MovesView,
    i: int,
    k: int,
)
    requires
        distinct_names(ws.relations.relations),
        0 <= i < ws.relations.relations.len(),
        0 <= k < crate::meta::links_at(meta, ws.relations.relations[i].name).len(),
        settles(all, moves),
        0 <= n <= all.len(),
        ({
            let name = ws.relations.relations[i].name;
            let raw = crate::meta::links_at(meta, name)[k];
            let place = crate::link::resolve_path(source, crate::link::parse_link(raw).target);
            crate::link::is_path_target(crate::link::parse_link(raw).target) ==> place != source
                && (crate::maintain::landing(moves, place) matches Some(to) ==> can_reach(
                raw,
                field_style(ws, name),
                source,
                to,
            ))
        }),
    ensures
        ({
            let name = ws.relations.relations[i].name;
            let raws = crate::meta::links_at(meta, name);
            let target = crate::link::parse_link(raws[k]).target;
            let place = crate::link::resolve_path(source, target);
            let news = crate::meta::links_at(
                followed_meta(ws, source, meta, all.take(n), moves),
                name,
            );
            &&& news.len() == raws.len()
            &&& if crate::link::is_path_target(target) && all.take(n).contains(place)
                && crate::maintain::landing(moves, place) is Some {
                reaches(
                    news[k],
                    raws[k],
                    source,
                    crate::maintain::landing(moves, place)->Some_0,
                )
            } else {
                news[k] == raws[k]
            }
        }),
    decreases n,
{
    let name = ws.relations.relations[i].name;
    let raws = crate::meta::links_at(meta, name);
    let target = crate::link::parse_link(raws[k]).target;
    let place = crate::link::resolve_path(source, target);
    if n == 0 {
        assert(all.take(0) =~= Seq::empty());
    } else {
        lemma_followed(ws, source, meta, all, n - 1, moves, i, k);
        let moved = all.take(n);
        let m = all[n - 1];
        assert(moved.drop_last() =~= all.take(n - 1));
        assert(moved.last() == m);
        let before = followed_meta(ws, source, meta, all.take(n - 1), moves);
        let olds = crate::meta::links_at(before, name);
        assert(moved.contains(place) <==> all.take(n - 1).contains(place) || place == m) by {
            if moved.contains(place) {
                let j = choose|j: int| 0 <= j < moved.len() && moved[j] == place;
                if j < n - 1 {
                    assert(all.take(n - 1)[j] == place);
                }
            }
            if all.take(n - 1).contains(place) {
                let few = all.take(n - 1);
                let j = choose|j: int| 0 <= j < few.len() && few[j] == place;
                assert(moved[j] == place);
            }
            if place == m {
                assert(moved[n - 1] == place);
            }
        }
        match crate::maintain::landing(moves, m) {
            Some(to) => {
                if m != source {
                    let rule = inbound_entry(source, m, to);
                    let style = field_style(ws, name);
                    law_references_respelled(ws, before, rule, i);
                    let now = olds[k];
                    law_inbound_reference(style, source, m, to, now);
                    if crate::link::is_path_target(target) {
                        if all.take(n - 1).contains(place) && crate::maintain::landing(
                            moves,
                            place,
                        ) is Some {
                            let few = all.take(n - 1);
                            let j = choose|j: int| 0 <= j < few.len() && few[j] == place;
                            assert(all[j] == place);
                            let gone = crate::maintain::landing(moves, place)->Some_0;
                            assert(!all.contains(gone));
                            assert(all.contains(m)) by {
                                assert(all[n - 1] == m);
                            }
                        }
                    }
                }
            },
            None => {},
        }
    }
}

/// When what a document links to moves, the metadata that its edits describe
/// holds, at every place of every relation, a reference that reaches where that
/// has gone; or, where that did not move or was no path, the same one.
pub proof fn law_followed_document(
    ws: WsView,
    source: Seq<char>,
    meta: MetaView,
    moved: Seq<Seq<char>>,
    moves: MovesView,
    i: int,
    k: int,
)
    requires
        distinct_names(ws.relations.relations),
        0 <= i < ws.relations.relations.len(),
        0 <= k < crate::meta::links_at(meta, ws.relations.relations[i].name).len(),
        settles(moved, moves),
        ({
            let name = ws.relations.relations[i].name;
            let raw = crate::meta::links_at(meta, name)[k];
            let place = crate::link::resolve_path(source, crate::link::parse_link(raw).target);
            crate::link::is_path_target(crate::link::parse_link(raw).target) ==> place != source
                && (crate::maintain::landing(moves, place) matches Some(to) ==> moved.contains(
                place,
            ) && can_reach(raw, field_style(ws, name), source, to))
        }),
    ensures
        ({
            let name = ws.relations.relations[i].name;
            let raws = crate::meta::links_at(meta, name);
            let target = crate::link::parse_link(raws[k]).target;
            let place = crate::link::resolve_path(source, target);
            let news = crate::meta::links_at(
                followed_meta(ws, source, meta, moved, moves),
                name,
            );
            &&& news.len() == raws.len()
            &&& if crate::link::is_path_target(target) {
                reaches(
                    news[k],
                    raws[k],
                    source,
                    crate::maintain::landing_or_same(moves, place),
                )
            } else {
                news[k] == raws[k]
            }
            &&& crate::maintain::landing(moves, place) is None ==> news[k] == raws[k]
        }),
{
    lemma_followed(ws, source, meta, moved, moved.len() as int, moves, i, k);
    assert(moved.take(moved.len() as int) =~= moved);
}

/// The links of a body follow as references do: a path link that stands as `raw`
/// reaches, in the spelling that a rule gives it, what it reached or where that has
/// gone, with its label, its wrapper and its locator.
pub proof fn law_body_links_follow(
    style: LinkStyle,
    body: Seq<char>,
    from: Seq<char>,
    to: Seq<char>,
    moves: MovesView,
    l: crate::prose::BodyLinkView,
    raw: Seq<char>,
)
    requires
        crate::link::parse_link(raw) == l.link,
        crate::link::is_path_target(l.link.target),
        can_reach(
            raw,
            style,
            to,
            crate::maintain::landing_or_same(
                moves,
                crate::link::resolve_path(from, l.link.target),
            ),
        ),
    ensures
        crate::maintain::moved_rule(body, from, to, moves, style)(l) matches Some(new) ==> reaches(
            new,
            raw,
            to,
            crate::maintain::landing_or_same(
                moves,
                crate::link::resolve_path(from, l.link.target),
            ),
        ),
        forall|source: Seq<char>|
            crate::link::resolve_path(source, l.link.target) == from && can_reach(
                raw,
                style,
                source,
                to,
            ) ==> ((#[trigger] crate::maintain::inbound_rule(source, from, to, style))(l) matches Some(
                new,
            ) && reaches(new, raw, source, to)),
{
    crate::link::law_respelled_arrives(
        raw,
        style,
        to,
        crate::maintain::landing_or_same(moves, crate::link::resolve_path(from, l.link.target)),
    );
    assert forall|source: Seq<char>|
        crate::link::resolve_path(source, l.link.target) == from && can_reach(
            raw,
            style,
            source,
            to,
        ) implies ((#[trigger] crate::maintain::inbound_rule(source, from, to, style))(
        l,
    ) matches Some(new) && reaches(new, raw, source, to)) by {
        crate::link::law_respelled_arrives(raw, style, source, to);
    }
}

/// A link of a body that is no path is left as it is by every rule that respells
/// paths.
pub proof fn law_other_body_links_stay(
    style: LinkStyle,
    body: Seq<char>,
    from: Seq<char>,
    to: Seq<char>,
    moves: MovesView,
    l: crate::prose::BodyLinkView,
)
    requires
        !crate::link::is_path_target(l.link.target),
    ensures
        crate::maintain::moved_rule(body, from, to, moves, style)(l) is None,
        crate::maintain::inbound_rule(from, from, to, style)(l) is None,
        crate::maintain::restyle_rule(from, style)(l) is None,
{
}

/// What a link of a body stands as after a rule.
pub open spec fn stood_as(
    body: Seq<char>,
    l: crate::prose::BodyLinkView,
    rule: spec_fn(crate::prose::BodyLinkView) -> Option<Seq<char>>,
) -> Seq<char> {
    match rule(l) {
        Some(text) => text,
        None => body.subrange(l.start, l.end),
    }
}

/// Whether a body that was respelled reads as it was respelled: it holds as many links,
/// each standing as it was written and saying what it is written to say.
pub open spec fn reads_respelled(
    file: Seq<char>,
    body: Seq<char>,
    rule: spec_fn(crate::prose::BodyLinkView) -> Option<Seq<char>>,
) -> bool {
    let links = crate::prose::body_links(file, body);
    let once = crate::maintain::respelled_body(body, links, rule);
    let found = crate::prose::body_links(file, once);
    &&& found.len() == links.len()
    &&& forall|k: int|
        0 <= k < links.len() ==> {
            let text = stood_as(body, #[trigger] links[k], rule);
            &&& once.subrange(found[k].start, found[k].end) == text
            &&& found[k].link == (if rule(links[k]) is Some {
                crate::link::parse_link(text)
            } else {
                links[k].link
            })
        }
}

/// A whole body whose links are written in a style leads where it led: each path link
/// reaches what it reached, with its label, its wrapper and its locator, and every other
/// link says what it said; and to write it in that style again changes nothing, in the
/// body or in a text that ends with it. The body reads as it was respelled.
pub proof fn law_restyled_body(file: Seq<char>, style: LinkStyle, body: Seq<char>)
    requires
        reads_respelled(file, body, crate::maintain::restyle_rule(file, style)),
        forall|k: int|
            0 <= k < crate::prose::body_links(file, body).len() ==> {
                let l = #[trigger] crate::prose::body_links(file, body)[k];
                crate::link::is_path_target(l.link.target) && !crate::link::is_alias_shaped(
                    l.link.target,
                ) ==> crate::link::parse_link(body.subrange(l.start, l.end)) == l.link && can_reach(
                    body.subrange(l.start, l.end),
                    style,
                    file,
                    crate::link::resolve_path(file, l.link.target),
                )
            },
    ensures
        ({
            let rule = crate::maintain::restyle_rule(file, style);
            let links = crate::prose::body_links(file, body);
            let once = crate::maintain::respelled_body(body, links, rule);
            let found = crate::prose::body_links(file, once);
            &&& crate::maintain::respelled_body(once, found, rule) == once
            &&& forall|text: Seq<char>|
                crate::text::ends(text, once) ==> #[trigger] crate::maintain::body_restyled(
                    text,
                    once,
                    file,
                    style,
                ) == text
            &&& forall|k: int|
                0 <= k < links.len() ==> {
                    let l = #[trigger] links[k];
                    if crate::link::is_path_target(l.link.target)
                        && !crate::link::is_alias_shaped(l.link.target) {
                        reaches(
                            once.subrange(found[k].start, found[k].end),
                            body.subrange(l.start, l.end),
                            file,
                            crate::link::resolve_path(file, l.link.target),
                        )
                    } else {
                        found[k].link == l.link
                    }
                }
        }),
{
    let rule = crate::maintain::restyle_rule(file, style);
    let links = crate::prose::body_links(file, body);
    let once = crate::maintain::respelled_body(body, links, rule);
    let found = crate::prose::body_links(file, once);
    crate::prose::law_body_links_spaced(file, once);
    let changes = crate::maintain::changes_by(found, rule);
    crate::maintain::lemma_changes_spaced(found, rule, once.len() as int);
    assert forall|c: int| 0 <= c < changes.len() implies once.subrange(
        (#[trigger] changes[c]).start,
        changes[c].end,
    ) == changes[c].text by {
        let k = crate::maintain::lemma_changes_from(found, rule, c);
        let l = links[k];
        let raw = body.subrange(l.start, l.end);
        assert(stood_as(body, links[k], rule) == stood_as(body, l, rule));
        if rule(l) is Some {
            law_restyle_settles(style, style, file, raw);
        }
    }
    crate::maintain::lemma_rebuilt_same(once, changes);
    assert forall|text: Seq<char>| crate::text::ends(
        text,
        once,
    ) implies #[trigger] crate::maintain::body_restyled(text, once, file, style) == text by {
        assert(crate::maintain::spliced(text, once, once) =~= text);
    }
    assert forall|k: int| 0 <= k < links.len() implies ({
        let l = #[trigger] links[k];
        if crate::link::is_path_target(l.link.target) && !crate::link::is_alias_shaped(
            l.link.target,
        ) {
            reaches(
                once.subrange(found[k].start, found[k].end),
                body.subrange(l.start, l.end),
                file,
                crate::link::resolve_path(file, l.link.target),
            )
        } else {
            found[k].link == l.link
        }
    }) by {
        let l = links[k];
        assert(stood_as(body, links[k], rule) == stood_as(body, l, rule));
        if rule(l) is Some {
            law_restyled_reference(style, style, file, body.subrange(l.start, l.end));
        }
    }
}

/// The metadata that the edits of a document describe holds as many references in every
/// relation as it held.
pub proof fn law_followed_count(
    ws: WsView,
    source: Seq<char>,
    meta: MetaView,
    moved: Seq<Seq<char>>,
    moves: MovesView,
    i: int,
)
    requires
        distinct_names(ws.relations.relations),
        0 <= i < ws.relations.relations.len(),
    ensures
        crate::meta::links_at(
            followed_meta(ws, source, meta, moved, moves),
            ws.relations.relations[i].name,
        ).len() == crate::meta::links_at(meta, ws.relations.relations[i].name).len(),
    decreases moved.len(),
{
    if moved.len() > 0 {
        law_followed_count(ws, source, meta, moved.drop_last(), moves, i);
        match crate::maintain::landing(moves, moved.last()) {
            Some(to) => {
                let before = followed_meta(ws, source, meta, moved.drop_last(), moves);
                law_references_respelled(ws, before, inbound_entry(source, moved.last(), to), i);
            },
            None => {},
        }
    }
}

} // verus!
