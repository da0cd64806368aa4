//! Embedded metadata: a tree of values whose mappings keep the order their keys
//! were written in.

use crate::path::opt_text;
use crate::text::same_text;
use vstd::prelude::*;

verus! {

/// A metadata value.
#[derive(Debug, PartialEq, Eq)]
pub enum Meta {
    /// No value.
    Null,
    /// A truth value.
    Bool(bool),
    /// An integer.
    Int(i64),
    /// A number that is not an integer, as it is written.
    Real(String),
    /// Text.
    Text(String),
    /// A list.
    List(Vec<Meta>),
    /// A mapping, in written order.
    Mapping(Vec<(String, Meta)>),
}

/// What a [`Meta`] holds.
pub enum MetaView {
    Null,
    Bool(bool),
    Int(i64),
    Real(Seq<char>),
    Text(Seq<char>),
    List(Seq<MetaView>),
    Mapping(Seq<(Seq<char>, MetaView)>),
}

/// What a value holds.
pub open spec fn meta_view(meta: Meta) -> MetaView
    decreases meta,
{
    match meta {
        Meta::Null => MetaView::Null,
        Meta::Bool(b) => MetaView::Bool(b),
        Meta::Int(n) => MetaView::Int(n),
        Meta::Real(s) => MetaView::Real(s@),
        Meta::Text(s) => MetaView::Text(s@),
        Meta::List(items) => MetaView::List(
            Seq::new(
                items@.len(),
                |i: int|
                    if 0 <= i < items@.len() {
                        meta_view(items@[i])
                    } else {
                        MetaView::Null
                    },
            ),
        ),
        Meta::Mapping(pairs) => MetaView::Mapping(
            Seq::new(
                pairs@.len(),
                |i: int|
                    if 0 <= i < pairs@.len() {
                        (pairs@[i].0@, meta_view(pairs@[i].1))
                    } else {
                        (Seq::empty(), MetaView::Null)
                    },
            ),
        ),
    }
}

impl View for Meta {
    type V = MetaView;

    open spec fn view(&self) -> MetaView {
        meta_view(*self)
    }
}

/// What a sequence of values holds.
pub open spec fn items_view(items: Seq<Meta>) -> Seq<MetaView> {
    Seq::new(items.len(), |i: int| items[i]@)
}

/// What a sequence of mapping entries holds.
pub open spec fn pairs_view(pairs: Seq<(String, Meta)>) -> Seq<(Seq<char>, MetaView)> {
    Seq::new(pairs.len(), |i: int| (pairs[i].0@, pairs[i].1@))
}

/// The view of a list is the views of its items.
pub broadcast proof fn lemma_list_view(items: Vec<Meta>)
    ensures
        #[trigger] Meta::List(items)@ == MetaView::List(items_view(items@)),
{
    reveal_with_fuel(meta_view, 2);
    assert(Meta::List(items)@->List_0 =~= items_view(items@));
}

/// The view of a mapping is the views of its entries.
pub broadcast proof fn lemma_map_view(pairs: Vec<(String, Meta)>)
    ensures
        #[trigger] Meta::Mapping(pairs)@ == MetaView::Mapping(pairs_view(pairs@)),
{
    reveal_with_fuel(meta_view, 2);
    assert(Meta::Mapping(pairs)@->Mapping_0 =~= pairs_view(pairs@));
}

/// The position of the entry with this key.
pub open spec fn key_index(pairs: Seq<(Seq<char>, MetaView)>, key: Seq<char>) -> Option<int>
    decreases pairs.len(),
{
    if pairs.len() == 0 {
        None
    } else {
        match key_index(pairs.drop_last(), key) {
            Some(i) => Some(i),
            None => if pairs.last().0 == key {
                Some(pairs.len() - 1)
            } else {
                None
            },
        }
    }
}

/// The value at this key, where `meta` is a mapping that holds it.
pub open spec fn field(meta: MetaView, key: Seq<char>) -> Option<MetaView> {
    match meta {
        MetaView::Mapping(pairs) => match key_index(pairs, key) {
            Some(i) => Some(pairs[i].1),
            None => None,
        },
        _ => None,
    }
}

/// The text at this key.
pub open spec fn text_field(meta: MetaView, key: Seq<char>) -> Option<Seq<char>> {
    match field(meta, key) {
        Some(MetaView::Text(s)) => Some(s),
        _ => None,
    }
}

/// The entries with the value at `key` replaced, or added at the end.
pub open spec fn put(pairs: Seq<(Seq<char>, MetaView)>, key: Seq<char>, value: MetaView) -> Seq<
    (Seq<char>, MetaView),
> {
    match key_index(pairs, key) {
        Some(i) => pairs.update(i, (key, value)),
        None => pairs.push((key, value)),
    }
}

/// The value with repeated keys merged, at every depth.
pub open spec fn settled(meta: MetaView) -> MetaView
    decreases meta,
{
    match meta {
        MetaView::List(items) => MetaView::List(
            Seq::new(
                items.len(),
                |i: int|
                    if 0 <= i < items.len() {
                        settled(items[i])
                    } else {
                        MetaView::Null
                    },
            ),
        ),
        MetaView::Mapping(pairs) => MetaView::Mapping(settled_pairs(pairs)),
        _ => meta,
    }
}

/// The entries put one after another: a repeated key keeps its first place and
/// its last value.
pub open spec fn settled_pairs(pairs: Seq<(Seq<char>, MetaView)>) -> Seq<(Seq<char>, MetaView)>
    decreases pairs,
{
    if pairs.len() == 0 {
        Seq::empty()
    } else {
        put(settled_pairs(pairs.drop_last()), pairs.last().0, settled(pairs.last().1))
    }
}

/// The texts of the items that are text, in order.
pub open spec fn texts_in(items: Seq<MetaView>) -> Seq<Seq<char>>
    decreases items.len(),
{
    if items.len() == 0 {
        Seq::empty()
    } else {
        match items.last() {
            MetaView::Text(s) => texts_in(items.drop_last()).push(s),
            _ => texts_in(items.drop_last()),
        }
    }
}

/// The references a value holds: itself where it is text, and the text items of
/// a list.
pub open spec fn links_in(value: MetaView) -> Seq<Seq<char>> {
    match value {
        MetaView::Text(s) => seq![s],
        MetaView::List(items) => texts_in(items),
        _ => Seq::empty(),
    }
}

/// The text of an item, where it is text.
pub open spec fn slot_of(item: MetaView) -> Option<Seq<char>> {
    match item {
        MetaView::Text(s) => Some(s),
        _ => None,
    }
}

/// The places of a value, each with its text where it holds text: the one place of
/// a text, and those of the items of a list.
pub open spec fn slots_in(value: MetaView) -> Seq<Option<Seq<char>>> {
    match value {
        MetaView::Text(s) => seq![Some(s)],
        MetaView::List(items) => items.map_values(|item: MetaView| slot_of(item)),
        _ => Seq::empty(),
    }
}

/// What a list of places holds.
pub open spec fn slots_view(v: Seq<Option<String>>) -> Seq<Option<Seq<char>>> {
    v.map_values(|slot: Option<String>| opt_text(slot))
}

/// The places at this key.
pub open spec fn slots_at(meta: MetaView, key: Seq<char>) -> Seq<Option<Seq<char>>> {
    match field(meta, key) {
        Some(value) => slots_in(value),
        None => Seq::empty(),
    }
}

/// The references at this key.
pub open spec fn links_at(meta: MetaView, key: Seq<char>) -> Seq<Seq<char>> {
    match field(meta, key) {
        Some(value) => links_in(value),
        None => Seq::empty(),
    }
}

pub proof fn lemma_key_index(pairs: Seq<(Seq<char>, MetaView)>, key: Seq<char>)
    ensures
        key_index(pairs, key) matches Some(i) ==> 0 <= i < pairs.len() && pairs[i].0 == key && (
        forall|j: int| 0 <= j < i ==> (#[trigger] pairs[j]).0 != key),
        key_index(pairs, key) is None ==> forall|j: int|
            0 <= j < pairs.len() ==> (#[trigger] pairs[j]).0 != key,
    decreases pairs.len(),
{
    if pairs.len() > 0 {
        let rest = pairs.drop_last();
        lemma_key_index(rest, key);
        assert forall|j: int| 0 <= j < rest.len() implies rest[j] == #[trigger] pairs[j] by {}
    }
}

/// The first position with the key is the index of the key.
proof fn lemma_key_index_is(pairs: Seq<(Seq<char>, MetaView)>, key: Seq<char>, i: int)
    requires
        0 <= i < pairs.len(),
        pairs[i].0 == key,
        forall|j: int| 0 <= j < i ==> (#[trigger] pairs[j]).0 != key,
    ensures
        key_index(pairs, key) == Some(i),
{
    lemma_key_index(pairs, key);
    match key_index(pairs, key) {
        Some(k) => {
            if k < i {
                assert(pairs[k].0 != key);
            }
        },
        None => {
            assert(pairs[i].0 != key);
        },
    }
}

/// A value put at a key is the value read there, and no other key changes.
pub proof fn law_put_reads_back(
    pairs: Seq<(Seq<char>, MetaView)>,
    key: Seq<char>,
    value: MetaView,
    other: Seq<char>,
)
    ensures
        field(MetaView::Mapping(put(pairs, key, value)), key) == Some(value),
        other != key ==> field(MetaView::Mapping(put(pairs, key, value)), other) == field(
            MetaView::Mapping(pairs),
            other,
        ),
{
    let out = put(pairs, key, value);
    lemma_key_index(pairs, key);
    lemma_key_index(pairs, other);
    match key_index(pairs, key) {
        Some(i) => {
            assert forall|j: int| 0 <= j < i implies (#[trigger] out[j]).0 != key by {
                assert(pairs[j].0 != key);
            }
            lemma_key_index_is(out, key, i);
        },
        None => {
            assert forall|j: int| 0 <= j < pairs.len() implies (#[trigger] out[j]).0 != key by {
                assert(pairs[j].0 != key);
            }
            lemma_key_index_is(out, key, pairs.len() as int);
        },
    }
    if other != key {
        match key_index(pairs, other) {
            Some(k) => {
                assert forall|j: int| 0 <= j < k implies (#[trigger] out[j]).0 != other by {
                    assert(pairs[j].0 != other);
                }
                lemma_key_index_is(out, other, k);
            },
            None => {
                lemma_key_index(out, other);
                match key_index(out, other) {
                    Some(k) => {
                        if k < pairs.len() {
                            assert(pairs[k].0 != other);
                        }
                    },
                    None => {},
                }
            },
        }
    }
}

/// The position of the entry with this key.
fn find_key(pairs: &Vec<(String, Meta)>, key: &str) -> (r: Option<usize>)
    ensures
        r is Some <==> key_index(pairs_view(pairs@), key@) is Some,
        r matches Some(i) ==> key_index(pairs_view(pairs@), key@) == Some(i as int) && i
            < pairs@.len() && pairs@[i as int].0@ == key@,
{
    let ghost v = pairs_view(pairs@);
    let mut i: usize = 0;
    while i < pairs.len()
        invariant
            i <= pairs@.len(),
            v == pairs_view(pairs@),
            forall|j: int| 0 <= j < i ==> (#[trigger] v[j]).0 != key@,
        decreases pairs@.len() - i,
    {
        if same_text(&pairs[i].0, key) {
            proof {
                lemma_key_index_is(v, key@, i as int);
            }
            return Some(i);
        }
        i = i + 1;
    }
    proof {
        lemma_key_index(v, key@);
    }
    None
}

impl Meta {
    /// A copy of this value.
    pub fn copy(&self) -> (r: Meta)
        ensures
            r@ == self@,
        decreases self,
    {
        broadcast use lemma_list_view, lemma_map_view;

        match self {
            Meta::Null => Meta::Null,
            Meta::Bool(b) => Meta::Bool(*b),
            Meta::Int(n) => Meta::Int(*n),
            Meta::Real(s) => Meta::Real(s.clone()),
            Meta::Text(s) => Meta::Text(s.clone()),
            Meta::List(items) => {
                let mut out: Vec<Meta> = Vec::new();
                let mut i: usize = 0;
                while i < items.len()
                    invariant
                        i <= items@.len(),
                        out@.len() == i,
                        *self matches Meta::List(v) && v == items,
                        forall|j: int| 0 <= j < i ==> (#[trigger] out@[j])@ == items@[j]@,
                    decreases items@.len() - i,
                {
                    let item = items[i].copy();
                    out.push(item);
                    i = i + 1;
                }
                proof {
                    assert(items_view(out@) =~= items_view(items@));
                    assert(*self == Meta::List(*items));
                }
                Meta::List(out)
            },
            Meta::Mapping(pairs) => {
                let out = copy_pairs(pairs);
                proof {
                    assert(*self == Meta::Mapping(*pairs));
                }
                Meta::Mapping(out)
            },
        }
    }

    /// The value at this key, where this is a mapping that holds it.
    pub fn get(&self, key: &str) -> (r: Option<&Meta>)
        ensures
            match r {
                Some(v) => field(self@, key@) == Some(v@),
                None => field(self@, key@) is None,
            },
    {
        broadcast use lemma_map_view;

        match self {
            Meta::Mapping(pairs) => {
                proof {
                    assert(*self == Meta::Mapping(*pairs));
                }
                match find_key(pairs, key) {
                    Some(i) => Some(&pairs[i].1),
                    None => None,
                }
            },
            _ => None,
        }
    }

    /// The text at this key.
    pub fn get_text(&self, key: &str) -> (r: Option<String>)
        ensures
            opt_text(r) == text_field(self@, key@),
    {
        match self.get(key) {
            Some(Meta::Text(s)) => Some(s.clone()),
            _ => None,
        }
    }

    /// The references this value holds.
    pub fn link_strings(&self) -> (r: Vec<String>)
        ensures
            crate::text::texts(r@) == links_in(self@),
    {
        broadcast use lemma_list_view;

        let mut out: Vec<String> = Vec::new();
        match self {
            Meta::Text(s) => {
                out.push(s.clone());
                proof {
                    assert(crate::text::texts(out@) =~= seq![s@]);
                }
            },
            Meta::List(items) => {
                proof {
                    assert(*self == Meta::List(*items));
                    assert(items_view(items@).take(0) =~= Seq::empty());
                    assert(crate::text::texts(out@) =~= Seq::empty());
                }
                let mut i: usize = 0;
                while i < items.len()
                    invariant
                        i <= items@.len(),
                        crate::text::texts(out@) == texts_in(items_view(items@).take(i as int)),
                    decreases items@.len() - i,
                {
                    let ghost done = out@;
                    proof {
                        let next = items_view(items@).take(i + 1);
                        assert(next.drop_last() =~= items_view(items@).take(i as int));
                        assert(next.last() == items@[i as int]@);
                    }
                    match &items[i] {
                        Meta::Text(s) => {
                            out.push(s.clone());
                            proof {
                                assert(crate::text::texts(out@) =~= crate::text::texts(done).push(
                                    s@,
                                ));
                            }
                        },
                        _ => {},
                    }
                    i = i + 1;
                }
                proof {
                    assert(items_view(items@).take(i as int) =~= items_view(items@));
                }
            },
            _ => {
                proof {
                    assert(crate::text::texts(out@) =~= Seq::empty());
                }
            },
        }
        out
    }

    /// The references at this key.
    pub fn links_at(&self, key: &str) -> (r: Vec<String>)
        ensures
            crate::text::texts(r@) == links_at(self@, key@),
    {
        match self.get(key) {
            Some(v) => v.link_strings(),
            None => {
                let out: Vec<String> = Vec::new();
                proof {
                    assert(crate::text::texts(out@) =~= Seq::empty());
                }
                out
            },
        }
    }

    /// The places at this key, each with its text where it holds text.
    pub fn slots_at(&self, key: &str) -> (r: Vec<Option<String>>)
        ensures
            slots_view(r@) == slots_at(self@, key@),
    {
        broadcast use lemma_list_view;

        let mut out: Vec<Option<String>> = Vec::new();
        match self.get(key) {
            Some(Meta::Text(s)) => {
                out.push(Some(s.clone()));
            },
            Some(Meta::List(items)) => {
                let mut i: usize = 0;
                while i < items.len()
                    invariant
                        i <= items@.len(),
                        out@.len() == i,
                        forall|j: int|
                            0 <= j < i ==> opt_text(#[trigger] out@[j]) == slot_of(items@[j]@),
                    decreases items@.len() - i,
                {
                    match &items[i] {
                        Meta::Text(s) => out.push(Some(s.clone())),
                        _ => out.push(None),
                    }
                    i = i + 1;
                }
            },
            _ => {},
        }
        proof {
            assert(slots_view(out@) =~= slots_at(self@, key@));
        }
        out
    }

    /// This value with repeated keys merged, at every depth.
    pub fn settle(&self) -> (r: Meta)
        ensures
            r@ == settled(self@),
        decreases self,
    {
        broadcast use lemma_list_view, lemma_map_view;

        match self {
            Meta::List(items) => {
                let mut out: Vec<Meta> = Vec::new();
                let mut i: usize = 0;
                while i < items.len()
                    invariant
                        i <= items@.len(),
                        out@.len() == i,
                        *self matches Meta::List(v) && v == items,
                        forall|j: int| 0 <= j < i ==> (#[trigger] out@[j])@ == settled(items@[j]@),
                    decreases items@.len() - i,
                {
                    let item = items[i].settle();
                    out.push(item);
                    i = i + 1;
                }
                proof {
                    assert(*self == Meta::List(*items));
                    assert(items_view(out@) =~= settled(self@)->List_0);
                }
                Meta::List(out)
            },
            Meta::Mapping(pairs) => {
                let ghost v = pairs_view(pairs@);
                let mut out: Vec<(String, Meta)> = Vec::new();
                let mut i: usize = 0;
                proof {
                    assert(*self == Meta::Mapping(*pairs));
                    assert(v.take(0) =~= Seq::empty());
                    assert(pairs_view(out@) =~= Seq::empty());
                }
                while i < pairs.len()
                    invariant
                        i <= pairs@.len(),
                        *self matches Meta::Mapping(p) && p == pairs,
                        v == pairs_view(pairs@),
                        pairs_view(out@) == settled_pairs(v.take(i as int)),
                    decreases pairs@.len() - i,
                {
                    let value = pairs[i].1.settle();
                    proof {
                        assert(v.take(i + 1).drop_last() =~= v.take(i as int));
                        assert(v.take(i + 1).last() == v[i as int]);
                    }
                    put_pair(&mut out, &pairs[i].0, value);
                    i = i + 1;
                }
                proof {
                    assert(v.take(i as int) =~= v);
                }
                Meta::Mapping(out)
            },
            other => other.copy(),
        }
    }
}

/// Replaces the value at `key`, or adds it at the end.
pub fn put_pair(pairs: &mut Vec<(String, Meta)>, key: &str, value: Meta)
    ensures
        pairs_view(final(pairs)@) == put(pairs_view(old(pairs)@), key@, value@),
{
    let ghost before = pairs_view(pairs@);
    match find_key(pairs, key) {
        Some(i) => {
            let entry = (key.to_owned(), value);
            pairs.set(i, entry);
            proof {
                assert(pairs_view(pairs@) =~= before.update(i as int, (key@, value@)));
            }
        },
        None => {
            pairs.push((key.to_owned(), value));
            proof {
                assert(pairs_view(pairs@) =~= before.push((key@, value@)));
            }
        },
    }
}

/// A copy of mapping entries.
pub fn copy_pairs(pairs: &Vec<(String, Meta)>) -> (r: Vec<(String, Meta)>)
    ensures
        pairs_view(r@) == pairs_view(pairs@),
    decreases pairs,
{
    let mut out: Vec<(String, Meta)> = Vec::new();
    let mut i: usize = 0;
    while i < pairs.len()
        invariant
            i <= pairs@.len(),
            out@.len() == i,
            forall|j: int|
                0 <= j < i ==> (#[trigger] out@[j]).0@ == pairs@[j].0@ && out@[j].1@
                    == pairs@[j].1@,
        decreases pairs@.len() - i,
    {
        let value = pairs[i].1.copy();
        out.push((pairs[i].0.clone(), value));
        i = i + 1;
    }
    proof {
        assert(pairs_view(out@) =~= pairs_view(pairs@));
    }
    out
}

} // verus!
