//! Entries of the metadata by what is written in them: the address that remains
//! when a link reaches nothing.

use crate::codec::{Step, StepView};
use crate::document::Document;
use crate::error::{Error, Fault};
use crate::link::Link;
use crate::meta::{Meta, MetaView};
use crate::text::{same_text, split_text};
use crate::workspace::Outcome;
use vstd::prelude::*;

verus! {

/// The value that is reached key by key.
pub open spec fn value_at(meta: MetaView, keys: Seq<Seq<char>>) -> Option<MetaView>
    decreases keys.len(),
{
    if keys.len() == 0 {
        Some(meta)
    } else {
        match value_at(meta, keys.drop_last()) {
            Some(value) => crate::meta::field(value, keys.last()),
            None => None,
        }
    }
}

/// The value of a field whose name is its keys with dots between them.
pub open spec fn dotted(meta: MetaView, field: Seq<char>) -> Option<MetaView> {
    value_at(meta, crate::text::split(field, '.'))
}

/// Whether a value is a reference with this target.
pub open spec fn is_written(value: MetaView, written: Seq<char>) -> bool {
    match value {
        MetaView::Text(raw) => crate::link::parse_link(raw).target == written,
        _ => false,
    }
}

/// The place of the first item with this target.
pub open spec fn written_from(items: Seq<MetaView>, written: Seq<char>, i: int) -> Option<int>
    decreases items.len() - i,
{
    if i >= items.len() {
        None
    } else if is_written(items[i], written) {
        Some(i)
    } else {
        written_from(items, written, i + 1)
    }
}

/// The place of the first entry of a value with this target; a value that is no
/// list has a single place.
pub open spec fn written_in(value: Option<MetaView>, written: Seq<char>) -> Option<int> {
    match value {
        Some(MetaView::List(items)) => written_from(items, written, 0),
        Some(value) => if is_written(value, written) {
            Some(0)
        } else {
            None
        },
        None => None,
    }
}

/// The way to a field.
pub open spec fn field_way(field: Seq<char>) -> Seq<StepView> {
    crate::text::split(field, '.').map_values(|k: Seq<char>| StepView::Key(k))
}

/// The way to an entry of a field: the field itself, unless it holds a list.
pub open spec fn entry_way(meta: MetaView, field: Seq<char>, index: int) -> Seq<StepView> {
    if dotted(meta, field) matches Some(MetaView::List(_)) {
        field_way(field).push(StepView::Index(index))
    } else {
        field_way(field)
    }
}

/// What an edit of a field gives.
pub open spec fn edit_outcome(out: Option<Seq<char>>, field: Seq<char>) -> Outcome<
    Option<Seq<char>>,
> {
    match out {
        Some(text) => Ok(Some(text)),
        None => Err(Fault::Field(field)),
    }
}

/// A document's text without the entry of a field that is so written.
pub open spec fn removed_written(
    text: Seq<char>,
    doc: crate::document::DocView,
    field: Seq<char>,
    written: Seq<char>,
) -> Outcome<Option<Seq<char>>> {
    match (written_in(dotted(doc.meta, field), written), doc.carrier) {
        (Some(i), Some(carrier)) => edit_outcome(
            if dotted(doc.meta, field) matches Some(MetaView::List(_)) {
                crate::document::remove_at(text, carrier, field_way(field), i)
            } else {
                crate::document::delete_at(text, carrier, field_way(field))
            },
            field,
        ),
        _ => Ok(None),
    }
}

/// A document's text with the entry of a field that is so written replaced.
pub open spec fn replaced_written(
    text: Seq<char>,
    doc: crate::document::DocView,
    field: Seq<char>,
    written: Seq<char>,
    replacement: Seq<char>,
) -> Outcome<Option<Seq<char>>> {
    match (written_in(dotted(doc.meta, field), written), doc.carrier) {
        (Some(i), Some(carrier)) => edit_outcome(
            crate::document::replace_at(
                text,
                carrier,
                entry_way(doc.meta, field, i),
                MetaView::Text(replacement),
            ),
            field,
        ),
        _ => Ok(None),
    }
}

/// The entry of a field that is so written, in full.
pub open spec fn written_raw(meta: MetaView, field: Seq<char>, written: Seq<char>) -> Option<
    Seq<char>,
> {
    match written_in(dotted(meta, field), written) {
        Some(i) => match dotted(meta, field) {
            Some(MetaView::List(items)) => match items[i] {
                MetaView::Text(raw) => Some(raw),
                _ => None,
            },
            Some(MetaView::Text(raw)) => Some(raw),
            _ => None,
        },
        None => None,
    }
}

/// A document's text with the entry of a field that is so written sent to
/// another target.
pub open spec fn retargeted_written(
    text: Seq<char>,
    doc: crate::document::DocView,
    field: Seq<char>,
    written: Seq<char>,
    target: Seq<char>,
) -> Outcome<Option<Seq<char>>> {
    match written_raw(doc.meta, field, written) {
        Some(raw) => replaced_written(
            text,
            doc,
            field,
            written,
            crate::link::rendered(crate::link::with_path(crate::link::parse_link(raw), target)),
        ),
        None => Ok(None),
    }
}

proof fn lemma_value_fails(meta: MetaView, keys: Seq<Seq<char>>, n: int)
    requires
        0 <= n <= keys.len(),
        value_at(meta, keys.take(n)) is None,
    ensures
        value_at(meta, keys) is None,
    decreases keys.len(),
{
    if n == keys.len() {
        assert(keys.take(n) =~= keys);
    } else {
        assert(keys.drop_last().take(n) =~= keys.take(n));
        lemma_value_fails(meta, keys.drop_last(), n);
    }
}

/// What an optional value holds.
pub open spec fn meta_ref(value: Option<&Meta>) -> Option<MetaView> {
    match value {
        Some(v) => Some(v@),
        None => None,
    }
}

/// The value of a field whose name is its keys with dots between them.
pub fn get_path<'a>(meta: &'a Meta, field: &str) -> (r: Option<&'a Meta>)
    ensures
        meta_ref(r) == dotted(meta@, field@),
{
    let keys = split_text(field, '.');
    let ghost all = crate::text::texts(keys@);
    let mut value = meta;
    let mut i: usize = 0;
    proof {
        assert(all.take(0) =~= Seq::empty());
    }
    while i < keys.len()
        invariant
            i <= keys@.len(),
            all == crate::text::texts(keys@),
            all == crate::text::split(field@, '.'),
            value_at(meta@, all.take(i as int)) == Some(value@),
        decreases keys@.len() - i,
    {
        proof {
            assert(all.take(i + 1).drop_last() =~= all.take(i as int));
            assert(all.take(i + 1).last() == keys@[i as int]@);
        }
        match value.get(&keys[i]) {
            Some(v) => {
                value = v;
            },
            None => {
                proof {
                    lemma_value_fails(meta@, all, i + 1);
                }
                return None;
            },
        }
        i = i + 1;
    }
    proof {
        assert(all.take(i as int) =~= all);
    }
    Some(value)
}

fn reads(value: &Meta, written: &str) -> (r: bool)
    ensures
        r == is_written(value@, written@),
{
    match value {
        Meta::Text(raw) => same_text(&Link::parse(raw).target, written),
        _ => false,
    }
}

/// The place of the first entry of `field` whose target is written as `written`,
/// among everything that the field holds; a field that holds no list has a
/// single place.
pub fn written_entry_index(doc: &Document, field: &str, written: &str) -> (r: Option<usize>)
    ensures
        match r {
            Some(i) => written_in(dotted(doc@.meta, field@), written@) == Some(i as int),
            None => written_in(dotted(doc@.meta, field@), written@) is None,
        },
        r matches Some(i) ==> (dotted(doc@.meta, field@) matches Some(MetaView::List(items)) ==> i
            < items.len()),
{
    broadcast use crate::meta::lemma_list_view;

    match get_path(&doc.meta, field) {
        None => None,
        Some(Meta::List(items)) => {
            let ghost all = crate::meta::items_view(items@);
            let mut i: usize = 0;
            while i < items.len()
                invariant
                    i <= items@.len(),
                    all == crate::meta::items_view(items@),
                    written_from(all, written@, 0) == written_from(all, written@, i as int),
                    dotted(doc@.meta, field@) == Some(MetaView::List(all)),
                decreases items@.len() - i,
            {
                proof {
                    assert(all[i as int] == items@[i as int]@);
                }
                if reads(&items[i], written) {
                    return Some(i);
                }
                i = i + 1;
            }
            None
        },
        Some(value) => if reads(value, written) {
            Some(0)
        } else {
            None
        },
    }
}

fn field_address(field: &str) -> (r: Vec<Step>)
    ensures
        crate::codec::way(r@) == field_way(field@),
{
    let keys = split_text(field, '.');
    let mut out: Vec<Step> = Vec::new();
    let mut i: usize = 0;
    while i < keys.len()
        invariant
            i <= keys@.len(),
            crate::text::texts(keys@) == crate::text::split(field@, '.'),
            out@.len() == i,
            forall|j: int| 0 <= j < i ==> (#[trigger] out@[j])@ == StepView::Key(keys@[j]@),
        decreases keys@.len() - i,
    {
        out.push(Step::Key(keys[i].clone()));
        i = i + 1;
    }
    proof {
        assert(crate::text::texts(keys@).len() == keys@.len());
        assert forall|j: int| 0 <= j < out@.len() implies crate::codec::way(out@)[j] == field_way(
            field@,
        )[j] by {
            assert(crate::text::texts(keys@)[j] == keys@[j]@);
        }
        assert(crate::codec::way(out@) =~= field_way(field@));
    }
    out
}

fn is_list(doc: &Document, field: &str) -> (r: bool)
    ensures
        r == (dotted(doc@.meta, field@) matches Some(MetaView::List(_))),
{
    match get_path(&doc.meta, field) {
        Some(Meta::List(_)) => true,
        _ => false,
    }
}

fn entry_address(doc: &Document, field: &str, index: usize) -> (r: Vec<Step>)
    ensures
        crate::codec::way(r@) == entry_way(doc@.meta, field@, index as int),
{
    let mut out = field_address(field);
    if is_list(doc, field) {
        let ghost before = crate::codec::way(out@);
        out.push(Step::Index(index));
        proof {
            assert(crate::codec::way(out@) =~= before.push(StepView::Index(index as int)));
        }
    }
    out
}

fn edit_result(out: Option<String>, field: &str) -> (r: Result<Option<String>, Error>)
    ensures
        crate::workspace::told_opt(r) == edit_outcome(crate::path::opt_text(out), field@),
{
    match out {
        Some(text) => Ok(Some(text)),
        None => Err(Fault::Field(field.to_owned())),
    }
}

/// Drops the entry of `field` whose target is written as `written`: one item of
/// a list, or a field that holds a single reference. None where there is no such
/// entry, or no metadata.
pub fn remove_written_entry(text: &str, doc: &Document, field: &str, written: &str) -> (r: Result<
    Option<String>,
    Error,
>)
    ensures
        crate::workspace::told_opt(r) == removed_written(text@, doc@, field@, written@),
{
    match (written_entry_index(doc, field, written), doc.carrier) {
        (Some(i), Some(carrier)) => {
            let address = field_address(field);
            let out = if is_list(doc, field) {
                crate::document::remove_item(text, carrier, &address, i)
            } else {
                crate::document::delete_entry(text, carrier, &address)
            };
            edit_result(out, field)
        },
        _ => Ok(None),
    }
}

/// Puts `replacement`, as it stands, in place of the entry of `field` whose
/// target is written as `written`.
pub fn replace_written_entry(
    text: &str,
    doc: &Document,
    field: &str,
    written: &str,
    replacement: &str,
) -> (r: Result<Option<String>, Error>)
    ensures
        crate::workspace::told_opt(r) == replaced_written(
            text@,
            doc@,
            field@,
            written@,
            replacement@,
        ),
{
    match (written_entry_index(doc, field, written), doc.carrier) {
        (Some(i), Some(carrier)) => {
            let value = Meta::Text(replacement.to_owned());
            let address = entry_address(doc, field, i);
            edit_result(crate::document::replace_value(text, carrier, &address, &value), field)
        },
        _ => Ok(None),
    }
}

/// Sends the entry of `field` whose target is written as `written` to
/// `new_target`. It keeps its label and its wrapper.
pub fn retarget_written_entry(
    text: &str,
    doc: &Document,
    field: &str,
    written: &str,
    new_target: &str,
) -> (r: Result<Option<String>, Error>)
    ensures
        crate::workspace::told_opt(r) == retargeted_written(
            text@,
            doc@,
            field@,
            written@,
            new_target@,
        ),
{
    broadcast use crate::meta::lemma_list_view;

    let index = match written_entry_index(doc, field, written) {
        Some(i) => i,
        None => {
            return Ok(None);
        },
    };
    let raw = match get_path(&doc.meta, field) {
        Some(Meta::List(items)) => {
            proof {
                assert(crate::meta::items_view(items@)[index as int] == items@[index as int]@);
            }
            match &items[index] {
                Meta::Text(raw) => raw.clone(),
                _ => {
                    return Ok(None);
                },
            }
        },
        Some(Meta::Text(raw)) => raw.clone(),
        _ => {
            return Ok(None);
        },
    };
    let rendered = Link::parse(&raw).with_path(new_target).render();
    replace_written_entry(text, doc, field, written, &rendered)
}

} // verus!
