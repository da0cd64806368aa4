//! What the edits of a document mean: the text that the editors of metadata make of it,
//! and what a document whose edits read back then reads as.

use crate::codec::{Fence, StepView};
use crate::document::{parsed, DocView, MetaCarrier};
use crate::meta::{field, put, MetaView};
use vstd::prelude::*;

verus! {

/// One edit of a document.
pub enum Touch {
    /// A block of this kind is made, where there is none.
    Open(Fence),
    /// The value at a key is set.
    Value(Seq<char>, MetaView),
    /// What stands at a key, or at one place of its list, is replaced by text.
    Replace(Seq<StepView>, Seq<char>),
    /// An item is added to the list at a key.
    Append(Seq<char>, MetaView),
    /// The entry at a key is taken out.
    Delete(Seq<char>),
    /// One item of the list at a key is taken out.
    Remove(Seq<char>, int),
    /// The items of the list at a key are put in an order.
    Reorder(Seq<char>, Seq<usize>),
    /// The body is replaced, from the first text to the second.
    Body(Seq<char>, Seq<char>),
}

/// The text that the editors make of a text by an edit.
pub open spec fn touched(text: Seq<char>, carrier: Option<MetaCarrier>, touch: Touch) -> Option<
    Seq<char>,
> {
    match (touch, carrier) {
        (Touch::Open(kind), Some(MetaCarrier::Fenced(own))) => crate::codec::embed_init_text(
            text,
            own,
        ),
        (Touch::Open(kind), None) => crate::codec::embed_init_text(text, kind),
        (Touch::Open(_), Some(MetaCarrier::WholeFile(_))) => Some(text),
        (Touch::Value(key, value), Some(MetaCarrier::Fenced(kind))) => crate::codec::embed_set_text(
            text,
            kind,
            seq![StepView::Key(key)],
            value,
        ),
        (Touch::Value(key, value), Some(MetaCarrier::WholeFile(format))) =>
            crate::codec::file_set_text(text, format, seq![StepView::Key(key)], value),
        (Touch::Replace(way, new), Some(MetaCarrier::Fenced(kind))) =>
            crate::codec::embed_replace_text(text, kind, way, MetaView::Text(new)),
        (Touch::Replace(way, new), Some(MetaCarrier::WholeFile(format))) =>
            crate::codec::file_replace_text(text, format, way, MetaView::Text(new)),
        (Touch::Append(key, value), Some(MetaCarrier::Fenced(kind))) =>
            crate::codec::embed_append_text(text, kind, seq![StepView::Key(key)], value),
        (Touch::Append(key, value), Some(MetaCarrier::WholeFile(format))) =>
            crate::codec::file_append_text(text, format, seq![StepView::Key(key)], value),
        (Touch::Delete(key), Some(MetaCarrier::Fenced(kind))) => crate::codec::embed_delete_text(
            text,
            kind,
            seq![StepView::Key(key)],
        ),
        (Touch::Delete(key), Some(MetaCarrier::WholeFile(format))) =>
            crate::codec::file_delete_text(text, format, seq![StepView::Key(key)]),
        (Touch::Remove(key, i), Some(MetaCarrier::Fenced(kind))) =>
            crate::codec::embed_remove_text(text, kind, seq![StepView::Key(key)], i),
        (Touch::Remove(key, i), Some(MetaCarrier::WholeFile(format))) =>
            crate::codec::file_remove_text(text, format, seq![StepView::Key(key)], i),
        (Touch::Reorder(key, order), Some(MetaCarrier::Fenced(kind))) =>
            crate::codec::embed_reorder_text(text, kind, seq![StepView::Key(key)], order),
        (Touch::Reorder(key, order), Some(MetaCarrier::WholeFile(format))) =>
            crate::codec::file_reorder_text(text, format, seq![StepView::Key(key)], order),
        (Touch::Body(old, new), _) => Some(crate::maintain::spliced(text, old, new)),
        _ => None,
    }
}

/// Where the metadata of a document stands after an edit.
pub open spec fn carried(carrier: Option<MetaCarrier>, touch: Touch) -> Option<MetaCarrier> {
    match (touch, carrier) {
        (Touch::Open(kind), None) => Some(MetaCarrier::Fenced(kind)),
        _ => carrier,
    }
}

/// Where the metadata of a document stands after edits.
pub open spec fn all_carried(carrier: Option<MetaCarrier>, touches: Seq<Touch>) -> Option<
    MetaCarrier,
>
    decreases touches.len(),
{
    if touches.len() == 0 {
        carrier
    } else {
        carried(all_carried(carrier, touches.drop_last()), touches.last())
    }
}

/// The text that the editors make of a text by edits, one after another.
pub open spec fn all_touched(
    text: Seq<char>,
    carrier: Option<MetaCarrier>,
    touches: Seq<Touch>,
) -> Option<Seq<char>>
    decreases touches.len(),
{
    if touches.len() == 0 {
        Some(text)
    } else {
        match all_touched(text, carrier, touches.drop_last()) {
            Some(t) => touched(t, all_carried(carrier, touches.drop_last()), touches.last()),
            None => None,
        }
    }
}

/// Metadata with a value at a key.
pub open spec fn with_value(meta: MetaView, key: Seq<char>, value: MetaView) -> MetaView {
    match meta {
        MetaView::Mapping(pairs) => MetaView::Mapping(put(pairs, key, value)),
        MetaView::Null => MetaView::Mapping(seq![(key, value)]),
        _ => meta,
    }
}

/// A list with the items at these places first, in this order, and the others after them.
pub open spec fn brought_forward<T>(items: Seq<T>, order: Seq<usize>) -> Seq<T> {
    Seq::new(order.len(), |i: int| items[order[i] as int]) + others(items, order, items.len())
}

/// The first `n` items of a list but for those at these places.
pub open spec fn others<T>(items: Seq<T>, order: Seq<usize>, n: nat) -> Seq<T>
    decreases n,
{
    if n == 0 {
        Seq::empty()
    } else {
        let rest = others(items, order, (n - 1) as nat);
        if exists|j: int| 0 <= j < order.len() && #[trigger] order[j] == n - 1 {
            rest
        } else {
            rest.push(items[n - 1])
        }
    }
}

/// What an edit makes of a document.
pub open spec fn meant(doc: DocView, touch: Touch) -> DocView {
    match touch {
        Touch::Open(_) => DocView { carrier: carried(doc.carrier, touch), ..doc },
        Touch::Value(key, value) => DocView { meta: with_value(doc.meta, key, value), ..doc },
        Touch::Replace(way, new) => DocView {
            meta: crate::follow::one_edited(
                doc.meta,
                crate::field::EditView { way, text: new },
            ),
            ..doc
        },
        Touch::Append(key, value) => match field(doc.meta, key) {
            Some(MetaView::List(items)) => DocView {
                meta: with_value(doc.meta, key, MetaView::List(items.push(value))),
                ..doc
            },
            _ => doc,
        },
        Touch::Delete(key) => match doc.meta {
            MetaView::Mapping(pairs) => DocView {
                meta: MetaView::Mapping(crate::files::without(pairs, key)),
                ..doc
            },
            _ => doc,
        },
        Touch::Remove(key, i) => match field(doc.meta, key) {
            Some(MetaView::List(items)) => if 0 <= i < items.len() {
                DocView {
                    meta: with_value(doc.meta, key, MetaView::List(items.remove(i))),
                    ..doc
                }
            } else {
                doc
            },
            _ => doc,
        },
        Touch::Reorder(key, order) => match field(doc.meta, key) {
            Some(MetaView::List(items)) => DocView {
                meta: with_value(doc.meta, key, MetaView::List(brought_forward(items, order))),
                ..doc
            },
            _ => doc,
        },
        Touch::Body(old, new) => if doc.body == old {
            DocView { body: new, ..doc }
        } else {
            doc
        },
    }
}

/// What edits make of a document, one after another.
pub open spec fn all_meant(doc: DocView, touches: Seq<Touch>) -> DocView
    decreases touches.len(),
{
    if touches.len() == 0 {
        doc
    } else {
        meant(all_meant(doc, touches.drop_last()), touches.last())
    }
}

/// Whether the edits of a text read back: after each of them, the text reads as what they
/// make of the document.
pub open spec fn reads_through(path: Seq<char>, text: Seq<char>, touches: Seq<Touch>) -> bool {
    parsed(path, text) matches Some(doc) && forall|n: int|
        0 <= n <= touches.len() ==> (#[trigger] all_touched(
            text,
            doc.carrier,
            touches.take(n),
        ) matches Some(t) ==> parsed(path, t) == Some(all_meant(doc, touches.take(n))))
}

/// What a text whose edits read back reads as.
pub proof fn law_touched_reads(path: Seq<char>, text: Seq<char>, touches: Seq<Touch>)
    requires
        reads_through(path, text, touches),
    ensures
        parsed(path, text) matches Some(doc) && (all_touched(text, doc.carrier, touches) matches Some(
            out,
        ) ==> parsed(path, out) == Some(all_meant(doc, touches))),
{
    let doc = parsed(path, text)->Some_0;
    let n = touches.len() as int;
    assert(touches.take(n) =~= touches);
    assert(all_touched(text, doc.carrier, touches.take(n)) == all_touched(
        text,
        doc.carrier,
        touches,
    ));
}

/// One edit after others.
pub proof fn lemma_touch_push(
    text: Seq<char>,
    carrier: Option<MetaCarrier>,
    doc: DocView,
    touches: Seq<Touch>,
    touch: Touch,
)
    ensures
        all_touched(text, carrier, touches.push(touch)) == (match all_touched(
            text,
            carrier,
            touches,
        ) {
            Some(t) => touched(t, all_carried(carrier, touches), touch),
            None => None,
        }),
        all_carried(carrier, touches.push(touch)) == carried(
            all_carried(carrier, touches),
            touch,
        ),
        all_meant(doc, touches.push(touch)) == meant(all_meant(doc, touches), touch),
{
    assert(touches.push(touch).drop_last() =~= touches);
}

/// A single edit.
pub proof fn lemma_touch_one(
    text: Seq<char>,
    carrier: Option<MetaCarrier>,
    doc: DocView,
    touch: Touch,
)
    ensures
        all_touched(text, carrier, seq![touch]) == touched(text, carrier, touch),
        all_carried(carrier, seq![touch]) == carried(carrier, touch),
        all_meant(doc, seq![touch]) == meant(doc, touch),
{
    let none = Seq::<Touch>::empty();
    lemma_touch_push(text, carrier, doc, none, touch);
    assert(none.push(touch) =~= seq![touch]);
}

/// A value that is set is read at its key, and nothing changes at another.
pub proof fn law_value_reads(meta: MetaView, key: Seq<char>, value: MetaView, other: Seq<char>)
    requires
        meta is Mapping || meta is Null,
    ensures
        field(with_value(meta, key, value), key) == Some(value),
        other != key ==> field(with_value(meta, key, value), other) == field(meta, other),
{
    match meta {
        MetaView::Mapping(pairs) => {
            crate::meta::law_put_reads_back(pairs, key, value, other);
        },
        _ => {
            let none = Seq::<(Seq<char>, MetaView)>::empty();
            crate::meta::law_put_reads_back(none, key, value, other);
            crate::meta::lemma_key_index(none, key);
            assert(put(none, key, value) =~= seq![(key, value)]);
            crate::meta::lemma_key_index(none, other);
        },
    }
}

/// Replacements of text as edits.
pub open spec fn replacements(edits: Seq<crate::field::EditView>) -> Seq<Touch> {
    edits.map_values(|e: crate::field::EditView| Touch::Replace(e.way, e.text))
}

/// Edits of text make what the replacements make, and mean what they mean.
pub proof fn lemma_replacements(
    text: Seq<char>,
    carrier: MetaCarrier,
    doc: DocView,
    edits: Seq<crate::field::EditView>,
)
    ensures
        all_touched(text, Some(carrier), replacements(edits)) == crate::field::edited(
            text,
            carrier,
            edits,
        ),
        all_carried(Some(carrier), replacements(edits)) == Some(carrier),
        all_meant(doc, replacements(edits)) == (DocView {
            meta: crate::follow::edits_made(doc.meta, edits),
            ..doc
        }),
    decreases edits.len(),
{
    if edits.len() > 0 {
        let rest = edits.drop_last();
        lemma_replacements(text, carrier, doc, rest);
        assert(replacements(edits).drop_last() =~= replacements(rest));
    } else {
        assert(replacements(edits) =~= Seq::empty());
    }
}

/// Edits after others.
pub proof fn lemma_touch_add(
    text: Seq<char>,
    carrier: Option<MetaCarrier>,
    doc: DocView,
    a: Seq<Touch>,
    b: Seq<Touch>,
)
    ensures
        all_touched(text, carrier, a + b) == (match all_touched(text, carrier, a) {
            Some(t) => all_touched(t, all_carried(carrier, a), b),
            None => None,
        }),
        all_carried(carrier, a + b) == all_carried(all_carried(carrier, a), b),
        all_meant(doc, a + b) == all_meant(all_meant(doc, a), b),
    decreases b.len(),
{
    if b.len() == 0 {
        assert(a + b =~= a);
    } else {
        lemma_touch_add(text, carrier, doc, a, b.drop_last());
        assert((a + b).drop_last() =~= a + b.drop_last());
        assert((a + b).last() == b.last());
    }
}

/// What edits mean tells where the metadata stands.
pub proof fn lemma_meant_carrier(doc: DocView, touches: Seq<Touch>)
    ensures
        all_meant(doc, touches).carrier == all_carried(doc.carrier, touches),
    decreases touches.len(),
{
    if touches.len() > 0 {
        lemma_meant_carrier(doc, touches.drop_last());
    }
}

/// Edits that read back do so one part after the other.
pub proof fn lemma_reads_parts(path: Seq<char>, text: Seq<char>, a: Seq<Touch>, b: Seq<Touch>)
    requires
        reads_through(path, text, a + b),
    ensures
        reads_through(path, text, a),
        parsed(path, text) matches Some(doc) && (all_touched(text, doc.carrier, a) matches Some(t)
            ==> parsed(path, t) == Some(all_meant(doc, a)) && reads_through(path, t, b)),
{
    let doc = parsed(path, text)->Some_0;
    assert forall|n: int| 0 <= n <= a.len() implies (#[trigger] all_touched(
        text,
        doc.carrier,
        a.take(n),
    ) matches Some(t) ==> parsed(path, t) == Some(all_meant(doc, a.take(n)))) by {
        assert((a + b).take(n) =~= a.take(n));
        assert(all_touched(text, doc.carrier, (a + b).take(n)) == all_touched(
            text,
            doc.carrier,
            a.take(n),
        ));
    }
    law_touched_reads(path, text, a);
    match all_touched(text, doc.carrier, a) {
        Some(t) => {
            let mid = all_meant(doc, a);
            lemma_meant_carrier(doc, a);
            assert forall|n: int| 0 <= n <= b.len() implies (#[trigger] all_touched(
                t,
                mid.carrier,
                b.take(n),
            ) matches Some(u) ==> parsed(path, u) == Some(all_meant(mid, b.take(n)))) by {
                lemma_touch_add(text, doc.carrier, doc, a, b.take(n));
                assert((a + b).take(a.len() + n) =~= a + b.take(n));
                assert(all_touched(text, doc.carrier, (a + b).take(a.len() + n)) == all_touched(
                    text,
                    doc.carrier,
                    a + b.take(n),
                ));
            }
        },
        None => {},
    }
}

/// What an entry after others is read as.
pub proof fn lemma_field_push(
    pairs: Seq<(Seq<char>, MetaView)>,
    pair: (Seq<char>, MetaView),
    key: Seq<char>,
)
    ensures
        field(MetaView::Mapping(pairs.push(pair)), key) == (match field(
            MetaView::Mapping(pairs),
            key,
        ) {
            Some(value) => Some(value),
            None => if pair.0 == key {
                Some(pair.1)
            } else {
                None
            },
        }),
{
    assert(pairs.push(pair).drop_last() =~= pairs);
    crate::meta::lemma_key_index(pairs, key);
}

/// An entry that is taken out is read no more, and nothing changes at another key.
pub proof fn law_deleted_reads(
    pairs: Seq<(Seq<char>, MetaView)>,
    key: Seq<char>,
    other: Seq<char>,
)
    ensures
        field(MetaView::Mapping(crate::files::without(pairs, key)), key) is None,
        other != key ==> field(MetaView::Mapping(crate::files::without(pairs, key)), other) == field(
            MetaView::Mapping(pairs),
            other,
        ),
    decreases pairs.len(),
{
    if pairs.len() > 0 {
        let rest = pairs.drop_last();
        law_deleted_reads(rest, key, other);
        assert(rest.push(pairs.last()) =~= pairs);
        lemma_field_push(rest, pairs.last(), other);
        lemma_field_push(rest, pairs.last(), key);
        lemma_field_push(crate::files::without(rest, key), pairs.last(), other);
        lemma_field_push(crate::files::without(rest, key), pairs.last(), key);
    }
}

} // verus!
