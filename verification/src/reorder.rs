//! The order of the children of a document.

use crate::change::{ChangeSet, ChangeView};
use crate::error::{Error, Fault};
use crate::workspace::{Outcome, Workspace, WsView};
use vstd::prelude::*;

verus! {

/// What became of an order.
#[derive(Debug, Clone, Copy, PartialEq, Eq, Structural)]
pub enum Reordered {
    /// It is another one.
    Moved,
    /// Nothing.
    Unchanged,
}

/// The places of the named children, in the order they are named. Each of `entries`
/// is an item of the list of children, with the path it leads to; none where it is no
/// reference.
pub open spec fn named_places(
    entries: Seq<Option<Seq<char>>>,
    order: Seq<Seq<char>>,
    parent: Seq<char>,
) -> Outcome<Seq<usize>>
    decreases order.len(),
{
    if order.len() == 0 {
        Ok(Seq::empty())
    } else {
        match named_places(entries, order.drop_last(), parent) {
            Err(e) => Err(e),
            Ok(places) => {
                let wanted = crate::path::normalized(order.last());
                match crate::workspace::first_at(entries, wanted) {
                    None => Err(Fault::NotAChild(wanted, parent)),
                    Some(i) => if places.contains(i as usize) {
                        Err(Fault::NamedTwice(wanted, parent))
                    } else {
                        Ok(places.push(i as usize))
                    },
                }
            },
        }
    }
}

/// How many of the places come before this one.
pub open spec fn rank(places: Seq<usize>, slot: int) -> int
    decreases places.len(),
{
    if places.len() == 0 {
        0
    } else {
        rank(places.drop_last(), slot) + if places.last() < slot {
            1int
        } else {
            0int
        }
    }
}

/// What comes to stand at a slot: the named children fill the slots they had
/// between them, in the order they are named, and the others stay.
pub open spec fn arranged_at(places: Seq<usize>, slot: int) -> usize {
    if places.contains(slot as usize) {
        places[rank(places, slot)]
    } else {
        slot as usize
    }
}

/// What comes to stand at each of `n` slots.
pub open spec fn arranged(places: Seq<usize>, n: nat) -> Seq<usize> {
    Seq::new(n, |slot: int| arranged_at(places, slot))
}

/// An order that leaves everything where it is.
pub open spec fn is_identity(indices: Seq<usize>) -> bool {
    forall|i: int| 0 <= i < indices.len() ==> #[trigger] indices[i] == i
}

/// The changes that put the children of a document in an order, and what becomes
/// of it; or why there are none.
pub open spec fn reordering(ws: WsView, parent: Seq<char>, order: Seq<Seq<char>>) -> Outcome<
    (ChangeView, Reordered),
> {
    let parent = crate::path::normalized(parent);
    match crate::workspace::spanning_names(ws.relations) {
        Err(e) => Err(e),
        Ok((spanning, _)) => if !crate::files::occupied(ws.files, parent) {
            Err(Fault::NotFound(parent))
        } else {
            match crate::workspace::loaded(ws.files, parent) {
                Err(e) => Err(e),
                Ok((text, doc)) => {
                    let entries = crate::workspace::slot_paths(
                        ws.ids,
                        ws.name,
                        parent,
                        crate::meta::slots_at(doc.meta, spanning),
                    );
                    match named_places(entries, order, parent) {
                        Err(e) => Err(e),
                        Ok(places) => {
                            let indices = arranged(places, entries.len());
                            if is_identity(indices) {
                                Ok((crate::change::no_change(ws), Reordered::Unchanged))
                            } else {
                                match doc.carrier {
                                    None => Err(Fault::NoBlock(parent)),
                                    Some(carrier) => match crate::document::reorder_at(
                                        text,
                                        carrier,
                                        crate::document::key_way(spanning),
                                        indices,
                                    ) {
                                        None => Err(Fault::Metadata(parent)),
                                        Some(out) => Ok(
                                            (
                                                crate::change::no_change(ws).with(
                                                    crate::files::write_text(parent, out),
                                                ),
                                                Reordered::Moved,
                                            ),
                                        ),
                                    },
                                }
                            }
                        },
                    }
                },
            }
        },
    }
}

/// Places among `n`, each named once.
pub open spec fn are_places(places: Seq<usize>, n: nat) -> bool {
    &&& forall|i: int| 0 <= i < places.len() ==> #[trigger] places[i] < n
    &&& places.no_duplicates()
}

/// The places that an order names are those of children, each named once, and
/// stand for the documents in the order they are named.
pub proof fn law_named_places(
    entries: Seq<Option<Seq<char>>>,
    order: Seq<Seq<char>>,
    parent: Seq<char>,
)
    requires
        entries.len() <= usize::MAX,
    ensures
        named_places(entries, order, parent) matches Ok(places) ==> are_places(
            places,
            entries.len(),
        ) && places.len() == order.len() && (forall|k: int|
            0 <= k < places.len() ==> entries[#[trigger] places[k] as int] == Some(
                crate::path::normalized(order[k]),
            )),
    decreases order.len(),
{
    if order.len() > 0 {
        law_named_places(entries, order.drop_last(), parent);
        let wanted = crate::path::normalized(order.last());
        crate::workspace::lemma_first_at(entries, wanted);
        match named_places(entries, order.drop_last(), parent) {
            Ok(rest) => {
                match named_places(entries, order, parent) {
                    Ok(places) => {
                        assert(places.drop_last() =~= rest);
                        assert forall|k: int| 0 <= k < places.len() implies entries[
                            #[trigger] places[k] as int
                        ] == Some(crate::path::normalized(order[k])) by {
                            if k < rest.len() {
                                assert(rest[k] == places[k]);
                                assert(order.drop_last()[k] == order[k]);
                            }
                        }
                        assert forall|i: int| 0 <= i < places.len() implies #[trigger] places[i]
                            < entries.len() by {
                            if i < rest.len() {
                                assert(rest[i] == places[i]);
                            }
                        }
                        assert(places.no_duplicates()) by {
                            assert forall|i: int, j: int|
                                0 <= i < places.len() && 0 <= j < places.len() && i
                                    != j implies places[i] != places[j] by {
                                if i < rest.len() && j < rest.len() {
                                    assert(rest[i] != rest[j]);
                                } else if i < rest.len() {
                                    assert(rest.contains(rest[i]));
                                } else {
                                    assert(rest.contains(rest[j]));
                                }
                            }
                        }
                    },
                    Err(_) => {},
                }
            },
            Err(_) => {},
        }
    }
}

proof fn lemma_rank(places: Seq<usize>, slot: int)
    ensures
        0 <= rank(places, slot) <= places.len(),
        (exists|i: int| 0 <= i < places.len() && #[trigger] places[i] >= slot) ==> rank(places, slot)
            < places.len(),
    decreases places.len(),
{
    if places.len() > 0 {
        let rest = places.drop_last();
        lemma_rank(rest, slot);
        if exists|i: int| 0 <= i < places.len() && #[trigger] places[i] >= slot {
            let i = choose|i: int| 0 <= i < places.len() && #[trigger] places[i] >= slot;
            if i < rest.len() {
                assert(rest[i] >= slot);
            }
        }
    }
}

proof fn lemma_rank_grows(places: Seq<usize>, a: int, b: int)
    requires
        a < b,
    ensures
        rank(places, a) <= rank(places, b),
        (exists|i: int| 0 <= i < places.len() && #[trigger] places[i] == a) ==> rank(places, a)
            < rank(places, b),
    decreases places.len(),
{
    if places.len() > 0 {
        let rest = places.drop_last();
        lemma_rank_grows(rest, a, b);
        if exists|i: int| 0 <= i < places.len() && #[trigger] places[i] == a {
            let i = choose|i: int| 0 <= i < places.len() && #[trigger] places[i] == a;
            if i < rest.len() {
                assert(rest[i] == a);
            }
        }
    }
}

/// A reordering is a permutation: no child is lost and none is doubled, and one
/// that is not named keeps its place.
pub proof fn law_reorder_permutes(places: Seq<usize>, n: nat)
    requires
        n <= usize::MAX,
        are_places(places, n),
    ensures
        arranged(places, n).len() == n,
        arranged(places, n).no_duplicates(),
        forall|i: int| 0 <= i < n ==> #[trigger] arranged(places, n)[i] < n,
        forall|i: int|
            0 <= i < n && !places.contains(i as usize) ==> #[trigger] arranged(places, n)[i] == i,
{
    let out = arranged(places, n);
    assert forall|i: int| 0 <= i < n implies #[trigger] out[i] < n && (places.contains(i as usize)
        ==> 0 <= rank(places, i) < places.len() && out[i] == places[rank(places, i)]) by {
        lemma_rank(places, i);
        if places.contains(i as usize) {
            let k = choose|k: int| 0 <= k < places.len() && places[k] == i as usize;
            assert(places[k] >= i);
        }
    }
    assert forall|i: int, j: int| 0 <= i < n && 0 <= j < n && i != j implies out[i] != out[j] by {
        let a = places.contains(i as usize);
        let b = places.contains(j as usize);
        if a && b {
            if i < j {
                let k = choose|k: int| 0 <= k < places.len() && places[k] == i as usize;
                assert(places[k] == i);
                lemma_rank_grows(places, i, j);
            } else {
                let k = choose|k: int| 0 <= k < places.len() && places[k] == j as usize;
                assert(places[k] == j);
                lemma_rank_grows(places, j, i);
            }
            assert(rank(places, i) != rank(places, j));
            assert(out[i] == places[rank(places, i)] && out[j] == places[rank(places, j)]);
        } else if a {
            assert(places.contains(out[i]));
        } else if b {
            assert(places.contains(out[j]));
        }
    }
}

/// The named children come to stand in the order they are named: where one is
/// named before another, it comes before it.
pub proof fn law_reorder_follows(places: Seq<usize>, n: nat, a: int, b: int)
    requires
        n <= usize::MAX,
        are_places(places, n),
        0 <= a < b < n,
        places.contains(a as usize),
        places.contains(b as usize),
    ensures
        exists|i: int, j: int|
            0 <= i < j < places.len() && arranged(places, n)[a] == places[i] && arranged(
                places,
                n,
            )[b] == places[j],
{
    lemma_rank(places, a);
    lemma_rank(places, b);
    let ka = choose|k: int| 0 <= k < places.len() && places[k] == a as usize;
    let kb = choose|k: int| 0 <= k < places.len() && places[k] == b as usize;
    assert(places[ka] == a);
    assert(places[kb] >= b);
    lemma_rank_grows(places, a, b);
    let i = rank(places, a);
    let j = rank(places, b);
    assert(arranged(places, n)[a] == places[i] && arranged(places, n)[b] == places[j]);
}

/// Naming the children in the order they have changes nothing.
pub proof fn law_reorder_settled(places: Seq<usize>, n: nat)
    requires
        n <= usize::MAX,
        are_places(places, n),
        forall|i: int, j: int| 0 <= i < j < places.len() ==> places[i] < places[j],
    ensures
        is_identity(arranged(places, n)),
{
    assert forall|i: int| 0 <= i < n implies #[trigger] arranged(places, n)[i] == i by {
        if places.contains(i as usize) {
            let k = choose|k: int| 0 <= k < places.len() && places[k] == i as usize;
            lemma_rank_sorted(places, k);
        }
    }
}

proof fn lemma_rank_sorted(places: Seq<usize>, k: int)
    requires
        0 <= k < places.len(),
        forall|i: int, j: int| 0 <= i < j < places.len() ==> places[i] < places[j],
    ensures
        rank(places, places[k] as int) == k,
    decreases places.len(),
{
    let rest = places.drop_last();
    assert forall|i: int, j: int| 0 <= i < j < rest.len() implies rest[i] < rest[j] by {
        assert(places[i] < places[j]);
    }
    if k < rest.len() {
        assert(rest[k] == places[k]);
        lemma_rank_sorted(rest, k);
        assert(places[k] < places[places.len() - 1]);
    } else {
        lemma_rank_full(rest, places[k] as int);
    }
}

proof fn lemma_rank_full(places: Seq<usize>, slot: int)
    requires
        forall|i: int| 0 <= i < places.len() ==> #[trigger] places[i] < slot,
    ensures
        rank(places, slot) == places.len(),
    decreases places.len(),
{
    if places.len() > 0 {
        let rest = places.drop_last();
        assert forall|i: int| 0 <= i < rest.len() implies #[trigger] rest[i] < slot by {
            assert(places[i] < slot);
        }
        lemma_rank_full(rest, slot);
        assert(places[places.len() - 1] < slot);
    }
}

fn count_before(places: &Vec<usize>, slot: usize) -> (r: usize)
    ensures
        r == rank(places@, slot as int),
{
    let mut n: usize = 0;
    let mut i: usize = 0;
    proof {
        assert(places@.take(0) =~= Seq::empty());
    }
    while i < places.len()
        invariant
            i <= places@.len(),
            n <= i,
            n == rank(places@.take(i as int), slot as int),
        decreases places@.len() - i,
    {
        proof {
            assert(places@.take(i + 1).drop_last() =~= places@.take(i as int));
            assert(places@.take(i + 1).last() == places@[i as int]);
        }
        if places[i] < slot {
            n = n + 1;
        }
        i = i + 1;
    }
    proof {
        assert(places@.take(i as int) =~= places@);
    }
    n
}

fn holds_place(places: &Vec<usize>, slot: usize) -> (r: bool)
    ensures
        r == places@.contains(slot),
{
    let mut i: usize = 0;
    while i < places.len()
        invariant
            i <= places@.len(),
            forall|j: int| 0 <= j < i ==> places@[j] != slot,
        decreases places@.len() - i,
    {
        if places[i] == slot {
            return true;
        }
        i = i + 1;
    }
    false
}

fn arrange(places: &Vec<usize>, n: usize) -> (r: Vec<usize>)
    requires
        are_places(places@, n as nat),
    ensures
        r@ == arranged(places@, n as nat),
{
    let mut out: Vec<usize> = Vec::new();
    let mut slot: usize = 0;
    while slot < n
        invariant
            slot <= n,
            are_places(places@, n as nat),
            out@.len() == slot,
            forall|j: int| 0 <= j < slot ==> #[trigger] out@[j] == arranged_at(places@, j),
        decreases n - slot,
    {
        if holds_place(places, slot) {
            let k = count_before(places, slot);
            proof {
                lemma_rank(places@, slot as int);
                let i = choose|i: int| 0 <= i < places@.len() && places@[i] == slot;
                assert(places@[i] >= slot);
            }
            out.push(places[k]);
        } else {
            out.push(slot);
        }
        slot = slot + 1;
    }
    proof {
        assert(out@ =~= arranged(places@, n as nat));
    }
    out
}

fn is_settled(indices: &Vec<usize>) -> (r: bool)
    ensures
        r == is_identity(indices@),
{
    let mut i: usize = 0;
    while i < indices.len()
        invariant
            i <= indices@.len(),
            forall|j: int| 0 <= j < i ==> #[trigger] indices@[j] == j,
        decreases indices@.len() - i,
    {
        if indices[i] != i {
            return false;
        }
        i = i + 1;
    }
    true
}

proof fn lemma_named_fails(
    entries: Seq<Option<Seq<char>>>,
    order: Seq<Seq<char>>,
    parent: Seq<char>,
    n: int,
)
    requires
        0 <= n <= order.len(),
        named_places(entries, order.take(n), parent) is Err,
    ensures
        named_places(entries, order, parent) == named_places(entries, order.take(n), parent),
    decreases order.len(),
{
    if n == order.len() {
        assert(order.take(n) =~= order);
    } else {
        assert(order.drop_last().take(n) =~= order.take(n));
        lemma_named_fails(entries, order.drop_last(), parent, n);
    }
}

impl Workspace {
    fn find_places(&self, slots: &Vec<Option<String>>, order: &Vec<String>, parent: &str) -> (r: Result<
        Vec<usize>,
        Error,
    >)
        ensures
            ({
                let entries = crate::workspace::slot_paths(
                    self@.ids,
                    self@.name,
                    parent@,
                    crate::meta::slots_view(slots@),
                );
                let out = named_places(entries, crate::text::texts(order@), parent@);
                match r {
                    Ok(places) => out matches Ok(p) && p == places@,
                    Err(e) => out matches Err(f) && f == crate::error::fault(e),
                }
            }),
    {
        let ghost entries = crate::workspace::slot_paths(
            self@.ids,
            self@.name,
            parent@,
            crate::meta::slots_view(slots@),
        );
        let ghost all = crate::text::texts(order@);
        let mut places: Vec<usize> = Vec::new();
        let mut i: usize = 0;
        proof {
            assert(all.take(0) =~= Seq::empty());
            assert(places@ =~= Seq::empty());
        }
        while i < order.len()
            invariant
                i <= order@.len(),
                all == crate::text::texts(order@),
                entries == crate::workspace::slot_paths(
                    self@.ids,
                    self@.name,
                    parent@,
                    crate::meta::slots_view(slots@),
                ),
                named_places(entries, all.take(i as int), parent@) matches Ok(p) && p == places@,
            decreases order@.len() - i,
        {
            proof {
                assert(all.take(i + 1).drop_last() =~= all.take(i as int));
                assert(all.take(i + 1).last() == order@[i as int]@);
            }
            let wanted = crate::path::normalize(&order[i]);
            match crate::workspace::slot_in(
                &self.registry,
                &self.name,
                parent,
                slots,
                &wanted,
            ) {
                None => {
                    proof {
                        lemma_named_fails(entries, all, parent@, i + 1);
                    }
                    return Err(Fault::NotAChild(wanted, parent.to_owned()));
                },
                Some(place) => {
                    if holds_place(&places, place) {
                        proof {
                            lemma_named_fails(entries, all, parent@, i + 1);
                        }
                        return Err(Fault::NamedTwice(wanted, parent.to_owned()));
                    }
                    places.push(place);
                },
            }
            i = i + 1;
        }
        proof {
            assert(all.take(i as int) =~= all);
        }
        Ok(places)
    }

    /// The changes that put the children of `parent` in an order, and what
    /// becomes of it.
    pub fn plan_reorder(&self, parent: &str, order: &Vec<String>) -> (r: Result<
        (ChangeSet, Reordered),
        Error,
    >)
        ensures
            ({
                let plan = reordering(self@, parent@, crate::text::texts(order@));
                match r {
                    Ok((cs, what)) => plan matches Ok((c, w)) && c == cs@ && w == what,
                    Err(e) => plan matches Err(f) && f == crate::error::fault(e),
                }
            }),
    {
        let parent = crate::path::normalize(parent);
        let (spanning, _) = match self.spanning_pair() {
            Ok(pair) => pair,
            Err(e) => {
                return Err(e);
            },
        };
        if !self.is_taken(&parent) {
            return Err(Fault::NotFound(parent));
        }
        let (text, doc) = match self.load(&parent) {
            Ok(read) => read,
            Err(e) => {
                return Err(e);
            },
        };
        let slots = doc.meta.slots_at(&spanning);
        let ghost entries = crate::workspace::slot_paths(
            self@.ids,
            self@.name,
            parent@,
            crate::meta::slots_view(slots@),
        );
        let places = match self.find_places(&slots, order, &parent) {
            Ok(places) => places,
            Err(e) => {
                return Err(e);
            },
        };
        proof {
            assert(entries.len() == slots.len());
            law_named_places(entries, crate::text::texts(order@), parent@);
        }
        let indices = arrange(&places, slots.len());
        if is_settled(&indices) {
            return Ok((self.change(), Reordered::Unchanged));
        }
        let carrier = match doc.carrier {
            Some(carrier) => carrier,
            None => {
                return Err(Fault::NoBlock(parent));
            },
        };
        match crate::document::reorder_items(
            &text,
            carrier,
            &crate::document::key_path(&spanning),
            &indices,
        ) {
            Some(out) => {
                let mut cs = self.change();
                cs.write(&parent, &out);
                Ok((cs, Reordered::Moved))
            },
            None => Err(Fault::Metadata(parent)),
        }
    }

    /// Puts the children of `parent` in an order: those that are named fill the
    /// places they had between them, in the order they are named, and the others
    /// stay. A refusal changes nothing.
    pub fn reorder(&mut self, parent: &str, order: &Vec<String>) -> (r: Result<Reordered, Error>)
        ensures
            ({
                let done = crate::change::carried_out(
                    old(self)@,
                    reordering(old(self)@, parent@, crate::text::texts(order@)),
                );
                match r {
                    Ok(what) => done matches Ok((after, w)) && after == final(self)@ && w == what,
                    Err(e) => done matches Err(f) && f == crate::error::fault(e) && *final(self)
                        == *old(self),
                }
            }),
    {
        match self.plan_reorder(parent, order) {
            Ok((cs, what)) => match self.commit(cs) {
                Ok(_) => Ok(what),
                Err(e) => Err(e),
            },
            Err(e) => Err(e),
        }
    }
}

/// Another order of children leaves a workspace whole but for the parent.
pub proof fn law_reorder_stays_whole(
    ws: WsView,
    parent: Seq<char>,
    order: Seq<Seq<char>>,
    after: WsView,
)
    requires
        reordering(ws, parent, order) matches Ok((cs, _)) && crate::change::landed(ws, cs)
            matches Ok(w) && w == after,
    ensures
        crate::landing::stays_whole(ws, after, seq![crate::path::normalized(parent)]),
        reordering(ws, parent, order) matches Ok((_, what)) && (what is Unchanged ==> after == ws),
{
    let p = crate::path::normalized(parent);
    let paths = seq![p];
    assert(paths[0] == p);
    assert(paths.contains(p));
    let cs = (reordering(ws, parent, order)->Ok_0).0;
    assert forall|q: Seq<char>| true implies (!paths.contains(q) ==> #[trigger] crate::files::lookup(
        after.files,
        q,
    ) == crate::files::lookup(ws.files, q)) && (crate::files::lookup(ws.files, q) is Some
        ==> crate::files::lookup(after.files, q) is Some) by {
        crate::landing::law_only_writes(ws.files, cs.ops, paths, q);
    }
}

/// Whether these places are an order of the children of a document that an order of paths
/// asks for: each place once; a child that is not named where it is; and, where the named
/// ones stand, the named ones in the order they are named.
pub open spec fn orders(
    entries: Seq<Option<Seq<char>>>,
    order: Seq<Seq<char>>,
    named: Seq<usize>,
    indices: Seq<usize>,
) -> bool {
    &&& indices.len() == entries.len()
    &&& indices.no_duplicates()
    &&& forall|i: int| 0 <= i < indices.len() ==> #[trigger] indices[i] < entries.len()
    &&& named.len() == order.len()
    &&& forall|k: int|
        0 <= k < named.len() ==> (#[trigger] named[k]) < entries.len() && entries[named[k] as int]
            == Some(crate::path::normalized(order[k]))
    &&& forall|i: int|
        0 <= i < indices.len() && !named.contains(i as usize) ==> #[trigger] indices[i] == i
    &&& forall|a: int, b: int|
        0 <= a < b < indices.len() && named.contains(a as usize) && named.contains(b as usize)
            ==> exists|i: int, j: int|
            0 <= i < j < named.len() && #[trigger] indices[a] == named[i] && #[trigger] indices[b]
                == named[j]
}

/// Another order of children is what the document reads with: the list of its children has
/// the same items, in an order that is asked for, and its other entries and its body are as
/// they were. Where that is the order they have, nothing changes. The edit reads back.
pub proof fn law_reordered_reads(
    ws: WsView,
    parent: Seq<char>,
    order: Seq<Seq<char>>,
    after: WsView,
    spanning: Seq<char>,
)
    requires
        reordering(ws, parent, order) matches Ok((cs, _)) && crate::change::landed(ws, cs)
            matches Ok(w) && w == after,
        crate::workspace::spanning_names(ws.relations) matches Ok((s, _)) && s == spanning,
        crate::workspace::loaded(ws.files, crate::path::normalized(parent)) matches Ok((_, doc)) && (
        crate::meta::field(doc.meta, spanning) matches Some(crate::meta::MetaView::List(items)) && items.len()
            <= usize::MAX),
    ensures
        ({
            let p = crate::path::normalized(parent);
            let (text, doc) = crate::workspace::loaded(ws.files, p)->Ok_0;
            let items = crate::meta::field(doc.meta, spanning)->Some_0->List_0;
            let entries = crate::workspace::slot_paths(
                ws.ids,
                ws.name,
                p,
                crate::meta::slots_at(doc.meta, spanning),
            );
            exists|named: Seq<usize>, indices: Seq<usize>|
                {
                    let touch = crate::reading::Touch::Reorder(spanning, indices);
                    &&& #[trigger] orders(entries, order, named, indices)
                    &&& if (reordering(ws, parent, order)->Ok_0).1 is Unchanged {
                        after == ws && forall|i: int|
                            0 <= i < indices.len() ==> #[trigger] indices[i] == i
                    } else {
                        &&& crate::reading::touched(text, doc.carrier, touch) matches Some(out)
                            && crate::files::lookup(after.files, p) == Some(
                            crate::files::FileView::Text(out),
                        )
                        &&& crate::reading::reads_through(p, text, seq![touch]) ==> (
                        crate::workspace::loaded(after.files, p) matches Ok((_, now)) && ({
                            &&& crate::meta::field(now.meta, spanning) == Some(
                                crate::meta::MetaView::List(crate::reading::brought_forward(items, indices)),
                            )
                            &&& forall|key: Seq<char>|
                                key != spanning ==> #[trigger] crate::meta::field(now.meta, key)
                                    == crate::meta::field(doc.meta, key)
                            &&& now.body == doc.body
                        }))
                    }
                }
        }),
{
    let p = crate::path::normalized(parent);
    let (text, doc) = crate::workspace::loaded(ws.files, p)->Ok_0;
    let items = crate::meta::field(doc.meta, spanning)->Some_0->List_0;
    let entries = crate::workspace::slot_paths(
        ws.ids,
        ws.name,
        p,
        crate::meta::slots_at(doc.meta, spanning),
    );
    let n = entries.len();
    law_named_places(entries, order, p);
    let places = named_places(entries, order, p)->Ok_0;
    let indices = arranged(places, n);
    law_reorder_permutes(places, n);
    assert forall|a: int, b: int|
        0 <= a < b < indices.len() && places.contains(a as usize) && places.contains(
            b as usize,
        ) implies exists|i: int, j: int|
        0 <= i < j < places.len() && #[trigger] indices[a] == places[i] && #[trigger] indices[b]
            == places[j] by {
        law_reorder_follows(places, n, a, b);
    }
    assert(orders(entries, order, places, indices));
    let touch = crate::reading::Touch::Reorder(spanning, indices);
    if !is_identity(indices) {
        let out = crate::reading::touched(text, doc.carrier, touch)->Some_0;
        let none = Seq::<crate::files::OpView>::empty();
        let op = crate::files::write_text(p, out);
        let cs = (reordering(ws, parent, order)->Ok_0).0;
        assert(cs.ops =~= none.push(op));
        crate::landing::lemma_changed_push(ws.files, none, op);
        crate::files::law_stored(ws.files, p, crate::files::FileView::Text(out), p);
        if crate::reading::reads_through(p, text, seq![touch]) {
            crate::reading::law_touched_reads(p, text, seq![touch]);
            crate::reading::lemma_touch_one(text, doc.carrier, doc, touch);
            let value = crate::meta::MetaView::List(crate::reading::brought_forward(items, indices));
            crate::reading::law_value_reads(doc.meta, spanning, value, spanning);
            assert forall|key: Seq<char>| key != spanning implies #[trigger] crate::meta::field(
                crate::reading::with_value(doc.meta, spanning, value),
                key,
            ) == crate::meta::field(doc.meta, key) by {
                crate::reading::law_value_reads(doc.meta, spanning, value, key);
            }
        }
    }
}

} // verus!
