//! Out of the recycle bin: back to where a document was, or gone for good.

use crate::adopt::{has_child, linked_down};
use crate::change::{ChangeSet, ChangeView};
use crate::error::{Error, Fault};
use crate::meta::{Meta, MetaView};
use crate::path::opt_text;
use crate::recycle::{bin_at, bin_path, copy_items, index_text, write_index, Bin, BinView};
use crate::text::same_text;
use crate::workspace::{Outcome, Workspace, WsView};
use vstd::prelude::*;

verus! {

/// The recycle bin that the root points at.
pub open spec fn present_bin(ws: WsView, root: Seq<char>) -> Outcome<BinView> {
    match bin_path(ws, root) {
        Err(e) => Err(e),
        Ok(None) => Err(Fault::NoBin),
        Ok(Some(index)) => bin_at(ws, index),
    }
}

/// The place of the first record, from one on, of a document that was at `from`.
pub open spec fn record_from(records: Seq<MetaView>, from: Seq<char>, i: int) -> Option<int>
    decreases records.len() - i,
{
    if i >= records.len() {
        None
    } else if crate::meta::text_field(records[i], "from"@) == Some(from) {
        Some(i)
    } else {
        record_from(records, from, i + 1)
    }
}

/// What the index of a bin says it is part of.
pub open spec fn bin_parent(ws: WsView, bin: BinView, root: Seq<char>) -> Seq<char> {
    match bin.part_of {
        Some(text) => text,
        None => crate::link::path_text_of(
            crate::workspace::reference_style(ws, "part_of"@).path_style,
            bin.index,
            root,
        ),
    }
}

/// The text of the index of a bin that holds these records.
pub open spec fn bin_with(ws: WsView, bin: BinView, root: Seq<char>, records: Seq<MetaView>) ->
    Outcome<Seq<char>> {
    match index_text(
        bin.title,
        Some(bin_parent(ws, bin, root)),
        records,
        ws.settings.metadata,
    ) {
        Some(text) => Ok(text),
        None => Err(Fault::Metadata(bin.index)),
    }
}

/// What keeps a document from carrying an identifier: another one carries it, or
/// it carries another one.
pub open spec fn carry_fault(ids: crate::registry::IdSeq, id: Seq<char>, path: Seq<char>) -> Option<
    Fault<Seq<char>>,
> {
    match crate::registry::path_of(ids, id) {
        Some(held) => if held != path {
            Some(Fault::IdTaken(id, held))
        } else {
            crate::change::move_objection(ids, id, path)
        },
        None => crate::change::move_objection(ids, id, path),
    }
}

/// The record of a document in the bin, with its place.
pub open spec fn record_for(bin: BinView, from: Seq<char>) -> Outcome<(int, Seq<char>)> {
    match record_from(bin.records, from, 0) {
        None => Err(Fault::NotInBin(from)),
        Some(i) => match crate::meta::text_field(bin.records[i], "bin"@) {
            None => Err(Fault::NoBinPath(from)),
            Some(slot) => Ok((i, slot)),
        },
    }
}

/// What keeps a document from coming back to `from`.
pub open spec fn return_fault(ws: WsView, record: MetaView, from: Seq<char>) -> Option<
    Fault<Seq<char>>,
> {
    let carried = match crate::meta::text_field(record, "id"@) {
        Some(id) => carry_fault(ws.ids, id, from),
        None => None,
    };
    match carried {
        Some(e) => Some(e),
        None => if crate::files::occupied(ws.files, from) {
            Some(Fault::RestoreOver(from))
        } else {
            None
        },
    }
}

/// The changes with the parent of a document holding an entry for it again. A
/// parent that is gone holds none.
pub open spec fn regained(
    ws: WsView,
    cs: ChangeView,
    spanning: Seq<char>,
    parent: Option<Seq<char>>,
    from: Seq<char>,
    title: Seq<char>,
) -> Outcome<ChangeView> {
    match parent {
        None => Ok(cs),
        Some(parent) => if !crate::files::occupied(ws.files, parent) {
            Ok(cs)
        } else {
            match crate::workspace::loaded(ws.files, parent) {
                Err(e) => Err(e),
                Ok(read) => if has_child(WsView { ids: cs.ids, ..ws }, read.1, parent, from) {
                    Ok(cs)
                } else {
                    match linked_down(ws, cs, spanning, parent, read, from, title) {
                        Err(e) => Err(e),
                        Ok((text, cs)) => Ok(cs.with(crate::files::write_text(parent, text))),
                    }
                },
            }
        },
    }
}

/// The title of a document, as the bin noted it.
pub open spec fn noted_title(record: MetaView, from: Seq<char>) -> Seq<char> {
    match crate::meta::text_field(record, "title"@) {
        Some(title) => title,
        None => crate::title::suggested(from),
    }
}

/// The changes that move a document, and the file that goes with it, out of the
/// bin; its identifier is its own again.
pub open spec fn returned(
    ws: WsView,
    record: MetaView,
    slot: Seq<char>,
    from: Seq<char>,
    index: Seq<char>,
    text: Seq<char>,
) -> ChangeView {
    let bound = match crate::meta::text_field(record, "id"@) {
        Some(id) => crate::change::no_change(ws).with_ids(
            crate::registry::bound(ws.ids, id, from),
        ),
        None => crate::change::no_change(ws),
    };
    let moved = bound.with(crate::files::OpView::Rename(slot, from));
    let both = match (
        crate::meta::text_field(record, "body_from"@),
        crate::meta::text_field(record, "body_bin"@),
    ) {
        (Some(to), Some(at)) => moved.with(crate::files::OpView::Rename(at, to)),
        _ => moved,
    };
    both.with(crate::files::write_text(index, text))
}

/// The changes that bring a document back from the bin, or why there are none.
pub open spec fn drafted_restoring(ws: WsView, from: Seq<char>, root: Seq<char>) -> Outcome<
    (ChangeView, ()),
> {
    let from = crate::path::normalized(from);
    match (crate::workspace::spanning_names(ws.relations), present_bin(ws, root)) {
        (Err(e), _) => Err(e),
        (_, Err(e)) => Err(e),
        (Ok((spanning, _)), Ok(bin)) => match record_for(bin, from) {
            Err(e) => Err(e),
            Ok((i, slot)) => {
                let record = bin.records[i];
                match return_fault(ws, record, from) {
                    Some(e) => Err(e),
                    None => match bin_with(ws, bin, root, bin.records.remove(i)) {
                        Err(e) => Err(e),
                        Ok(text) => match regained(
                            ws,
                            returned(ws, record, slot, from, bin.index, text),
                            spanning,
                            crate::meta::text_field(record, "parent"@),
                            from,
                            noted_title(record, from),
                        ) {
                            Err(e) => Err(e),
                            Ok(cs) => Ok((cs, ())),
                        },
                    },
                }
            },
        },
    }
}

/// The changes that bring a document back from the bin, with what carries its
/// identifier itself; or why there are none.
pub open spec fn restoring(ws: WsView, from: Seq<char>, root: Seq<char>) -> Outcome<(ChangeView, ())> {
    crate::change::with_stamps(ws, drafted_restoring(ws, from, root))
}

/// The file at a key of a record, where it is there.
pub open spec fn purged_at(ws: WsView, record: MetaView, key: Seq<char>) -> Seq<
    crate::files::OpView,
> {
    match crate::meta::text_field(record, key) {
        Some(path) => if crate::files::occupied(ws.files, path) {
            seq![crate::files::OpView::Remove(path)]
        } else {
            Seq::empty()
        },
        None => Seq::empty(),
    }
}

/// The removals of the files of these records.
pub open spec fn purged(ws: WsView, records: Seq<MetaView>) -> Seq<crate::files::OpView>
    decreases records.len(),
{
    if records.len() == 0 {
        Seq::empty()
    } else {
        purged(ws, records.drop_last()) + purged_at(ws, records.last(), "bin"@) + purged_at(
            ws,
            records.last(),
            "body_bin"@,
        )
    }
}

/// The changes that empty the bin, and the number of documents that go; or why
/// there are none.
pub open spec fn emptying(ws: WsView, root: Seq<char>) -> Outcome<(ChangeView, nat)> {
    match present_bin(ws, root) {
        Err(e) => Err(e),
        Ok(bin) => match bin_with(ws, bin, root, Seq::empty()) {
            Err(e) => Err(e),
            Ok(text) => Ok(
                (
                    crate::change::no_change(ws).with_all(purged(ws, bin.records)).with(
                        crate::files::write_text(bin.index, text),
                    ),
                    bin.records.len(),
                ),
            ),
        },
    }
}

fn find_record(records: &Vec<Meta>, from: &str) -> (r: Option<usize>)
    ensures
        match r {
            Some(i) => i < records@.len() && record_from(
                crate::meta::items_view(records@),
                from@,
                0,
            ) == Some(i as int),
            None => record_from(crate::meta::items_view(records@), from@, 0) is None,
        },
{
    let ghost all = crate::meta::items_view(records@);
    let mut i: usize = 0;
    while i < records.len()
        invariant
            i <= records@.len(),
            all == crate::meta::items_view(records@),
            record_from(all, from@, 0) == record_from(all, from@, i as int),
        decreases records@.len() - i,
    {
        proof {
            assert(all[i as int] == records@[i as int]@);
        }
        match records[i].get_text("from") {
            Some(f) => if same_text(&f, from) {
                return Some(i);
            },
            None => {},
        }
        i = i + 1;
    }
    None
}

impl Workspace {
    fn find_bin(&self, root: &str) -> (r: Result<Bin, Error>)
        ensures
            match r {
                Ok(bin) => present_bin(self@, root@) matches Ok(v) && v == bin@,
                Err(e) => present_bin(self@, root@) matches Err(f) && f == crate::error::fault(e),
            },
    {
        match self.recycle_bin_path(root) {
            Err(e) => Err(e),
            Ok(None) => Err(Fault::NoBin),
            Ok(Some(index)) => self.open_bin(index),
        }
    }

    fn write_bin(&self, bin: &Bin, root: &str, records: Vec<Meta>) -> (r: Result<String, Error>)
        ensures
            crate::workspace::told(r) == bin_with(
                self@,
                bin@,
                root@,
                crate::meta::items_view(records@),
            ),
    {
        let part_of = match &bin.part_of {
            Some(text) => text.clone(),
            None => crate::link::path_text(
                self.reference_style_for("part_of").path_style,
                &bin.index,
                root,
            ),
        };
        match write_index(&bin.title, &Some(part_of), records, self.settings.metadata) {
            Some(text) => Ok(text),
            None => Err(Fault::Metadata(bin.index.clone())),
        }
    }

    /// What keeps a document from carrying an identifier.
    pub fn registration_conflict(&self, id: &str, path: &str) -> (r: Option<Error>)
        ensures
            crate::files::fault_opt(r) == carry_fault(self@.ids, id@, path@),
    {
        match self.registry.resolve(id) {
            Some(held) => if !same_text(&held, path) {
                return Some(Fault::IdTaken(id.to_owned(), held));
            },
            None => {},
        }
        self.move_conflict(id, path)
    }

    fn return_refusal(&self, record: &Meta, from: &str) -> (r: Option<Error>)
        ensures
            crate::files::fault_opt(r) == return_fault(self@, record@, from@),
    {
        match record.get_text("id") {
            Some(id) => match self.registration_conflict(&id, from) {
                Some(e) => {
                    return Some(e);
                },
                None => {},
            },
            None => {},
        }
        if self.is_taken(from) {
            Some(Fault::RestoreOver(from.to_owned()))
        } else {
            None
        }
    }

    fn regain(
        &self,
        cs: &mut ChangeSet,
        spanning: &str,
        parent: &Option<String>,
        from: &str,
        title: &str,
    ) -> (r: Result<(), Error>)
        ensures
            ({
                let out = regained(
                    self@,
                    old(cs)@,
                    spanning@,
                    opt_text(*parent),
                    from@,
                    title@,
                );
                match r {
                    Ok(_) => out matches Ok(c) && c == final(cs)@,
                    Err(e) => out matches Err(f) && f == crate::error::fault(e),
                }
            }),
    {
        let parent = match parent {
            Some(parent) => parent,
            None => {
                return Ok(());
            },
        };
        if !self.is_taken(parent) {
            return Ok(());
        }
        let (text, doc) = match self.load(parent) {
            Ok(read) => read,
            Err(e) => {
                return Err(e);
            },
        };
        let raws = self.child_links(&doc);
        if crate::workspace::position_in(
            &cs.registry,
            &self.name,
            parent,
            &raws,
            from,
        ).is_some() {
            return Ok(());
        }
        match self.link_down(cs, spanning, parent, &text, &doc, from, title) {
            Err(e) => Err(e),
            Ok(out) => {
                cs.write(parent, &out);
                Ok(())
            },
        }
    }

    fn draft_restore(&self, from: &str, root: &str) -> (r: Result<ChangeSet, Error>)
        ensures
            match r {
                Ok(cs) => drafted_restoring(self@, from@, root@) matches Ok((c, _)) && c == cs@,
                Err(e) => drafted_restoring(self@, from@, root@) matches Err(f) && f
                    == crate::error::fault(e),
            },
    {
        let from = crate::path::normalize(from);
        let (spanning, _) = match self.spanning_pair() {
            Ok(pair) => pair,
            Err(e) => {
                return Err(e);
            },
        };
        let bin = match self.find_bin(root) {
            Ok(bin) => bin,
            Err(e) => {
                return Err(e);
            },
        };
        let place = match find_record(&bin.records, &from) {
            Some(place) => place,
            None => {
                return Err(Fault::NotInBin(from));
            },
        };
        let mut rest = copy_items(&bin.records);
        proof {
            assert(crate::meta::items_view(rest@).len() == rest@.len());
            assert(crate::meta::items_view(bin.records@)[place as int]
                == crate::meta::items_view(rest@)[place as int]);
        }
        let ghost all = crate::meta::items_view(rest@);
        let record = rest.remove(place);
        proof {
            assert(crate::meta::items_view(rest@) =~= all.remove(place as int));
        }
        let slot = match record.get_text("bin") {
            Some(slot) => slot,
            None => {
                return Err(Fault::NoBinPath(from));
            },
        };
        match self.return_refusal(&record, &from) {
            Some(e) => {
                return Err(e);
            },
            None => {},
        }
        let text = match self.write_bin(&bin, root, rest) {
            Ok(text) => text,
            Err(e) => {
                return Err(e);
            },
        };
        let mut cs = self.change();
        match record.get_text("id") {
            Some(id) => {
                cs.bind(&id, &from);
            },
            None => {},
        }
        cs.rename(&slot, &from);
        match (record.get_text("body_from"), record.get_text("body_bin")) {
            (Some(to), Some(at)) => {
                cs.rename(&at, &to);
            },
            _ => {},
        }
        cs.write(&bin.index, &text);
        let title = match record.get_text("title") {
            Some(title) => title,
            None => crate::title::path_to_title(&from),
        };
        let parent = record.get_text("parent");
        match self.regain(&mut cs, &spanning, &parent, &from, &title) {
            Ok(_) => Ok(cs),
            Err(e) => Err(e),
        }
    }

    /// The changes that bring a document back from the bin.
    pub fn plan_restore(&self, from: &str, root: &str) -> (r: Result<ChangeSet, Error>)
        ensures
            match r {
                Ok(cs) => restoring(self@, from@, root@) matches Ok((c, _)) && c == cs@,
                Err(e) => restoring(self@, from@, root@) matches Err(f) && f
                    == crate::error::fault(e),
            },
    {
        match self.draft_restore(from, root) {
            Ok(cs) => match self.stamp_ids(cs) {
                Ok(cs) => Ok(cs),
                Err(e) => Err(e),
            },
            Err(e) => Err(e),
        }
    }

    /// Brings a document back from the bin to where it was, with the file that
    /// goes with it, the entry that its parent held for it, and its identifier.
    /// A refusal changes nothing.
    pub fn restore(&mut self, from: &str, root: &str) -> (r: Result<(), Error>)
        ensures
            ({
                let done = crate::change::carried_out(
                    old(self)@,
                    restoring(old(self)@, from@, root@),
                );
                match r {
                    Ok(_) => done matches Ok((after, _)) && after == final(self)@,
                    Err(e) => done matches Err(f) && f == crate::error::fault(e) && *final(self)
                        == *old(self),
                }
            }),
    {
        match self.plan_restore(from, root) {
            Ok(cs) => self.commit(cs),
            Err(e) => Err(e),
        }
    }

    fn purge_at(&self, cs: &mut ChangeSet, record: &Meta, key: &str)
        ensures
            final(cs)@ == old(cs)@.with_all(purged_at(self@, record@, key@)),
    {
        let ghost before = cs@;
        match record.get_text(key) {
            Some(path) => if self.is_taken(&path) {
                cs.remove(&path);
            },
            None => {},
        }
        proof {
            assert(cs@.ops =~= before.with_all(purged_at(self@, record@, key@)).ops);
        }
    }

    /// The changes that empty the bin, and the number of documents that go.
    pub fn plan_empty_bin(&self, root: &str) -> (r: Result<(ChangeSet, usize), Error>)
        ensures
            ({
                let plan = emptying(self@, root@);
                match r {
                    Ok((cs, n)) => plan matches Ok((c, k)) && c == cs@ && k == n,
                    Err(e) => plan matches Err(f) && f == crate::error::fault(e),
                }
            }),
    {
        let bin = match self.find_bin(root) {
            Ok(bin) => bin,
            Err(e) => {
                return Err(e);
            },
        };
        let none: Vec<Meta> = Vec::new();
        proof {
            assert(crate::meta::items_view(none@) =~= Seq::empty());
        }
        let text = match self.write_bin(&bin, root, none) {
            Ok(text) => text,
            Err(e) => {
                return Err(e);
            },
        };
        let ghost all = crate::meta::items_view(bin.records@);
        let mut cs = self.change();
        let ghost start = cs@;
        let mut i: usize = 0;
        proof {
            assert(all.take(0) =~= Seq::empty());
            assert(start.with_all(Seq::empty()).ops =~= start.ops);
        }
        while i < bin.records.len()
            invariant
                i <= bin.records@.len(),
                all == crate::meta::items_view(bin.records@),
                cs@ == start.with_all(purged(self@, all.take(i as int))),
            decreases bin.records@.len() - i,
        {
            let record = &bin.records[i];
            proof {
                assert(all.take(i + 1).drop_last() =~= all.take(i as int));
                assert(all.take(i + 1).last() == record@);
            }
            self.purge_at(&mut cs, record, "bin");
            self.purge_at(&mut cs, record, "body_bin");
            proof {
                assert(cs@.ops =~= start.with_all(purged(self@, all.take(i + 1))).ops);
            }
            i = i + 1;
        }
        proof {
            assert(all.take(i as int) =~= all);
        }
        cs.write(&bin.index, &text);
        let n: usize = bin.records.len();
        Ok((cs, n))
    }

    /// Removes everything in the bin for good, and gives the number of documents
    /// that went. A refusal changes nothing.
    pub fn empty_bin(&mut self, root: &str) -> (r: Result<usize, Error>)
        ensures
            ({
                let done = crate::change::carried_out(old(self)@, emptying(old(self)@, root@));
                match r {
                    Ok(n) => done matches Ok((after, k)) && after == final(self)@ && k == n,
                    Err(e) => done matches Err(f) && f == crate::error::fault(e) && *final(self)
                        == *old(self),
                }
            }),
    {
        match self.plan_empty_bin(root) {
            Ok((cs, n)) => match self.commit(cs) {
                Ok(_) => Ok(n),
                Err(e) => Err(e),
            },
            Err(e) => Err(e),
        }
    }
}

/// What the record of a document in the bin says of where it is, where there is
/// one.
pub open spec fn slot_of(ws: WsView, from: Seq<char>, root: Seq<char>) -> Option<
    (MetaView, Seq<char>, Seq<char>),
> {
    match present_bin(ws, root) {
        Ok(bin) => match record_for(bin, from) {
            Ok((i, slot)) => Some((bin.records[i], slot, bin.index)),
            Err(_) => None,
        },
        Err(_) => None,
    }
}

/// The paths that a return from the bin touches are not one another: the document and
/// its place in the bin, the file that goes along and its place, the index, and the
/// parent.
pub open spec fn comes_apart(
    record: MetaView,
    slot: Seq<char>,
    index: Seq<char>,
    from: Seq<char>,
) -> bool {
    let body = crate::meta::text_field(record, "body_from"@);
    let beside = crate::meta::text_field(record, "body_bin"@);
    let parent = crate::meta::text_field(record, "parent"@);
    &&& from != slot
    &&& from != index
    &&& slot != index
    &&& (body is Some && beside is Some) ==> {
        &&& body != beside
        &&& body != Some(from) && body != Some(slot) && body != Some(index)
        &&& beside != Some(from) && beside != Some(slot) && beside != Some(index)
        &&& parent is Some ==> parent != body && parent != beside
    }
    &&& parent != Some(from) && parent != Some(slot) && parent != Some(index)
}

/// A document that comes back from the bin holds what it held there, and its place in
/// the bin is free; so it is with the file that goes along. The index holds the other
/// records, in the order they had. The parent holds an entry for the document again,
/// where it is there. Every other file is as it was. The identifier that the bin noted
/// leads to the document. That is so where the document needs no identifier that it
/// did not have.
pub proof fn law_restore_returns(ws: WsView, from: Seq<char>, root: Seq<char>, after: WsView)
    requires
        restoring(ws, from, root) matches Ok((cs, _)) && crate::change::landed(ws, cs) matches Ok(w)
            && w == after && !cs.fresh.contains(crate::path::normalized(from)),
        slot_of(ws, crate::path::normalized(from), root) matches Some((record, slot, index))
            && comes_apart(record, slot, index, crate::path::normalized(from)),
    ensures
        ({
            let f = crate::path::normalized(from);
            present_bin(ws, root) matches Ok(bin) && record_for(bin, f) matches Ok((i, slot))
                && bin_with(ws, bin, root, bin.records.remove(i)) matches Ok(text) && ({
                let record = bin.records[i];
                let body = crate::meta::text_field(record, "body_from"@);
                let beside = crate::meta::text_field(record, "body_bin"@);
                let parent = crate::meta::text_field(record, "parent"@);
                let pair = body is Some && beside is Some;
                &&& crate::files::lookup(ws.files, slot) is Some
                &&& crate::files::lookup(after.files, f) == crate::files::lookup(ws.files, slot)
                &&& crate::files::lookup(after.files, slot) is None
                &&& pair ==> crate::files::lookup(after.files, body->Some_0)
                    == crate::files::lookup(ws.files, beside->Some_0) && crate::files::lookup(
                    after.files,
                    beside->Some_0,
                ) is None
                &&& crate::files::lookup(after.files, bin.index) == Some(
                    crate::files::FileView::Text(text),
                )
                &&& (parent matches Some(q) && crate::files::occupied(ws.files, q)) ==> regains(
                    ws,
                    after,
                    returned(ws, record, slot, f, bin.index, text),
                    parent->Some_0,
                    f,
                    noted_title(record, f),
                )
                &&& forall|q: Seq<char>|
                    q != f && q != slot && q != bin.index && parent != Some(q) && (pair ==> body
                        != Some(q) && beside != Some(q)) ==> #[trigger] crate::files::lookup(
                        after.files,
                        q,
                    ) == crate::files::lookup(ws.files, q)
                &&& crate::meta::text_field(record, "id"@) matches Some(id)
                    ==> crate::registry::path_of(after.ids, id) == Some(f)
            })
        }),
{
    let f = crate::path::normalized(from);
    let spanning = (crate::workspace::spanning_names(ws.relations)->Ok_0).0;
    let bin = present_bin(ws, root)->Ok_0;
    let (i, slot) = record_for(bin, f)->Ok_0;
    let record = bin.records[i];
    let text = bin_with(ws, bin, root, bin.records.remove(i))->Ok_0;
    let parent = crate::meta::text_field(record, "parent"@);
    let body = crate::meta::text_field(record, "body_from"@);
    let beside = crate::meta::text_field(record, "body_bin"@);
    let pair = body is Some && beside is Some;
    let first = returned(ws, record, slot, f, bin.index, text);
    let title = noted_title(record, f);
    let drafted = regained(ws, first, spanning, parent, f, title)->Ok_0;
    let cs = (restoring(ws, from, root)->Ok_0).0;
    lemma_fresh_kept(ws, drafted, drafted.fresh);
    assert(drafted.fresh == cs.fresh);
    assert(drafted.fresh =~= Seq::empty()) by {
        if drafted.fresh.len() > 0 {
            assert(drafted.fresh[0] == f);
        }
    }
    assert(cs == drafted);
    match crate::meta::text_field(record, "id"@) {
        Some(id) => {
            crate::registry::law_bound(ws.ids, id, f, id);
        },
        None => {},
    }
    let none = Seq::<crate::files::OpView>::empty();
    let rename = crate::files::OpView::Rename(slot, f);
    let a = none.push(rename);
    crate::landing::lemma_changed_push(ws.files, none, rename);
    let put = crate::files::write_text(bin.index, text);
    let last = match parent {
        Some(q) => if crate::files::occupied(ws.files, q) && !has_child(
            WsView { ids: first.ids, ..ws },
            (crate::workspace::loaded(ws.files, q)->Ok_0).1,
            q,
            f,
        ) {
            none.push(
                crate::files::write_text(
                    q,
                    (linked_down(
                        ws,
                        first,
                        spanning,
                        q,
                        crate::workspace::loaded(ws.files, q)->Ok_0,
                        f,
                        title,
                    )->Ok_0).0,
                ),
            )
        } else {
            none
        },
        None => none,
    };
    let along = if pair {
        none.push(crate::files::OpView::Rename(beside->Some_0, body->Some_0))
    } else {
        none
    };
    assert(cs.ops =~= a + along.push(put) + last);
    crate::landing::lemma_changed_add(ws.files, a + along.push(put), last);
    crate::landing::lemma_changed_add(ws.files, a, along.push(put));
    let d = crate::files::lookup(ws.files, slot)->Some_0;
    let g0 = crate::files::without(ws.files, slot);
    let f1 = crate::files::stored(g0, f, d);
    assert(crate::files::changed_all(ws.files, a) matches Ok(x) && x == f1);
    assert forall|q: Seq<char>| q != f && q != slot implies #[trigger] crate::files::lookup(f1, q)
        == crate::files::lookup(ws.files, q) by {
        crate::files::law_without(ws.files, slot, q);
        crate::files::law_stored(g0, f, d, q);
    }
    crate::files::law_without(ws.files, slot, slot);
    crate::files::law_stored(g0, f, d, slot);
    crate::files::law_stored(g0, f, d, f);
    crate::landing::lemma_changed_push(f1, along, put);
    if pair {
        crate::landing::lemma_changed_push(
            f1,
            none,
            crate::files::OpView::Rename(beside->Some_0, body->Some_0),
        );
    }
    let f2 = crate::files::changed_all(f1, along)->Ok_0;
    if pair {
        let (b, bb) = (body->Some_0, beside->Some_0);
        let e = crate::files::lookup(f1, bb)->Some_0;
        let h0 = crate::files::without(f1, bb);
        assert(f2 == crate::files::stored(h0, b, e));
        assert forall|q: Seq<char>| q != b && q != bb implies #[trigger] crate::files::lookup(f2, q)
            == crate::files::lookup(f1, q) by {
            crate::files::law_without(f1, bb, q);
            crate::files::law_stored(h0, b, e, q);
        }
        crate::files::law_without(f1, bb, bb);
        crate::files::law_stored(h0, b, e, bb);
        crate::files::law_stored(h0, b, e, b);
    } else {
        assert(f2 == f1);
    }
    let index_data = crate::files::FileView::Text(text);
    let f3 = crate::files::stored(f2, bin.index, index_data);
    assert forall|q: Seq<char>| q != bin.index implies #[trigger] crate::files::lookup(f3, q)
        == crate::files::lookup(f2, q) by {
        crate::files::law_stored(f2, bin.index, index_data, q);
    }
    crate::files::law_stored(f2, bin.index, index_data, bin.index);
    if last.len() > 0 {
        let q = parent->Some_0;
        let out = (linked_down(
            ws,
            first,
            spanning,
            q,
            crate::workspace::loaded(ws.files, q)->Ok_0,
            f,
            title,
        )->Ok_0).0;
        crate::landing::lemma_changed_push(f3, none, crate::files::write_text(q, out));
        let data = crate::files::FileView::Text(out);
        assert forall|r: Seq<char>| r != q implies #[trigger] crate::files::lookup(
            after.files,
            r,
        ) == crate::files::lookup(f3, r) by {
            crate::files::law_stored(f3, q, data, r);
        }
        crate::files::law_stored(f3, q, data, q);
    } else {
        assert(after.files == f3);
    }
}

/// Whether a parent holds an entry for a document again: the one it has, or a new one at
/// the end.
pub open spec fn regains(
    ws: WsView,
    after: WsView,
    cs: ChangeView,
    parent: Seq<char>,
    from: Seq<char>,
    title: Seq<char>,
) -> bool {
    crate::workspace::spanning_names(ws.relations) matches Ok((spanning, _))
        && crate::workspace::loaded(ws.files, parent) matches Ok(read) && (if has_child(
        WsView { ids: cs.ids, ..ws },
        read.1,
        parent,
        from,
    ) {
        crate::files::lookup(after.files, parent) == crate::files::lookup(ws.files, parent)
    } else {
        linked_down(ws, cs, spanning, parent, read, from, title) matches Ok((text, _))
            && crate::files::lookup(after.files, parent) == Some(
            crate::files::FileView::Text(text),
        )
    })
}

proof fn lemma_fresh_kept(ws: WsView, cs: ChangeView, paths: Seq<Seq<char>>)
    ensures
        crate::change::all_stamped(ws, cs, paths) matches Ok(out) ==> out.fresh == cs.fresh,
    decreases paths.len(),
{
    if paths.len() > 0 {
        lemma_fresh_kept(ws, cs, paths.drop_last());
    }
}

proof fn lemma_record_last(records: Seq<MetaView>, record: MetaView, from: Seq<char>, i: int)
    requires
        0 <= i <= records.len(),
        crate::meta::text_field(record, "from"@) == Some(from),
        forall|j: int|
            i <= j < records.len() ==> crate::meta::text_field(#[trigger] records[j], "from"@)
                != Some(from),
    ensures
        record_from(records.push(record), from, i) == Some(records.len() as int),
    decreases records.len() - i,
{
    let all = records.push(record);
    if i < records.len() {
        assert(all[i] == records[i]);
        lemma_record_last(records, record, from, i + 1);
    }
}

/// The bin that a document was removed to reads back: it holds the records it held, and
/// after them the one of the document. None of those is of the same path.
pub open spec fn bin_reads(
    ws: WsView,
    path: Seq<char>,
    force: bool,
    at: Option<Seq<char>>,
    between: WsView,
    root: Seq<char>,
) -> bool {
    crate::workspace::spanning_names(ws.relations) matches Ok((_, inverse))
        && crate::recycle::bin_path(ws, crate::walk::root_of(ws, path, inverse)) matches Ok(existing)
        && crate::recycle::bin_for(ws, existing) matches Ok(before) && crate::delete::removable(
        ws,
        path,
        force,
        crate::delete::Removal::Binned,
    ) matches Ok(subject) && crate::recycle::binned(ws, path) matches Some((slot, index))
        && present_bin(between, root) matches Ok(bin) && ({
        let items = crate::path::under(crate::path::parent_of(index), "items"@);
        &&& bin.index == index
        &&& bin.records == before.records.push(
            crate::recycle::record_of(ws, subject, path, slot, items, at),
        )
        &&& forall|j: int|
            0 <= j < before.records.len() ==> crate::meta::text_field(
                #[trigger] before.records[j],
                "from"@,
            ) != Some(path)
    })
}

/// What is removed to the bin and brought back is as it was: the file, and the file
/// that went along, hold what they held; their places in the bin are free; the index
/// holds the records that it held, in their order; the identifier leads to the document
/// again; and the parent, which lost its entry, holds one for the document again. The
/// bin reads back, the files are not one another, and the document needs no identifier
/// that it did not have.
pub proof fn law_recycle_then_restore(
    ws: WsView,
    path: Seq<char>,
    force: bool,
    at: Option<Seq<char>>,
    between: WsView,
    root: Seq<char>,
    after: WsView,
)
    requires
        crate::recycle::recycling(ws, path, force, at) matches Ok((cs, _))
            && crate::change::landed(ws, cs) matches Ok(w) && w == between,
        crate::recycle::stays_apart(ws, crate::path::normalized(path), force),
        crate::recycle::companion_apart(ws, crate::path::normalized(path), force),
        bin_reads(ws, crate::path::normalized(path), force, at, between, root),
        restoring(between, path, root) matches Ok((cs, _)) && crate::change::landed(between, cs)
            matches Ok(w) && w == after && !cs.fresh.contains(crate::path::normalized(path)),
    ensures
        ({
            let f = crate::path::normalized(path);
            let subject = crate::delete::removable(
                ws,
                f,
                force,
                crate::delete::Removal::Binned,
            )->Ok_0;
            let (slot, index) = crate::recycle::binned(ws, f)->Some_0;
            let items = crate::path::under(crate::path::parent_of(index), "items"@);
            let companion = crate::delete::present_companion(ws, subject.doc, f);
            let bin = present_bin(between, root)->Ok_0;
            let held = bin.records.drop_last();
            &&& crate::files::lookup(ws.files, f) is Some
            &&& crate::files::lookup(after.files, f) == crate::files::lookup(ws.files, f)
            &&& crate::files::lookup(after.files, slot) is None
            &&& companion matches Some(file) ==> crate::files::lookup(after.files, file)
                == crate::files::lookup(ws.files, file) && crate::files::lookup(
                after.files,
                crate::recycle::companion_slot(ws, items, companion, slot)->Some_0,
            ) is None
            &&& bin_with(between, bin, root, held) matches Ok(text) && crate::files::lookup(
                after.files,
                index,
            ) == Some(crate::files::FileView::Text(text))
            &&& crate::registry::id_at(ws.ids, f) matches Some(id) ==> crate::registry::path_of(
                after.ids,
                id,
            ) == Some(f)
            &&& (subject.parent matches Some(q) && crate::files::occupied(between.files, q))
                ==> (bin_with(between, bin, root, held) matches Ok(text) && regains(
                between,
                after,
                returned(between, bin.records.last(), slot, f, index, text),
                subject.parent->Some_0,
                f,
                crate::title::title_of(subject.doc, f),
            ))
        }),
{
    let f = crate::path::normalized(path);
    let subject = crate::delete::removable(ws, f, force, crate::delete::Removal::Binned)->Ok_0;
    let (slot, index) = crate::recycle::binned(ws, f)->Some_0;
    let items = crate::path::under(crate::path::parent_of(index), "items"@);
    let companion = crate::delete::present_companion(ws, subject.doc, f);
    let bin = present_bin(between, root)->Ok_0;
    let held = bin.records.drop_last();
    let record = crate::recycle::record_of(ws, subject, f, slot, items, at);
    assert(bin.records.last() == record);
    assert(held.push(record) =~= bin.records);
    crate::recycle::law_record_reads(ws, subject, f, slot, items, at);
    lemma_record_last(held, record, f, 0);
    assert(record_for(bin, f) matches Ok((i, s)) && i == held.len() && s == slot);
    assert(bin.records.remove(held.len() as int) =~= held);
    crate::recycle::law_recycle_keeps(ws, path, force, at, between);
    match companion {
        Some(file) => {
            crate::recycle::law_recycle_keeps_companion(ws, path, force, at, between, file);
        },
        None => {},
    }
    assert(comes_apart(record, slot, index, f)) by {
        match subject.parent {
            Some(q) => {
                crate::landing::law_file_is_taken(ws.files, q);
            },
            None => {},
        }
        match companion {
            Some(file) => {
                crate::landing::law_file_is_taken(ws.files, file);
            },
            None => {},
        }
    }
    law_restore_returns(between, path, root, after);
}

/// A document whose place is free, and whose identifier nothing else carries, comes back
/// from the bin: it is kept from it only by metadata that cannot be read or written, or
/// by a lack of identifiers.
pub proof fn law_restore_is_owed(ws: WsView, from: Seq<char>, root: Seq<char>)
    requires
        crate::workspace::spanning_names(ws.relations) is Ok,
        present_bin(ws, root) matches Ok(bin) && record_for(bin, crate::path::normalized(from))
            matches Ok((i, _)) && return_fault(ws, bin.records[i], crate::path::normalized(from))
            is None && (crate::meta::text_field(bin.records[i], "parent"@) matches Some(q)
            ==> crate::files::occupied(ws.files, q) ==> crate::workspace::loaded(ws.files, q)
            is Ok),
    ensures
        restoring(ws, from, root) matches Err(e) ==> e is Metadata || e is IdsExhausted,
{
    let f = crate::path::normalized(from);
    match drafted_restoring(ws, from, root) {
        Ok((cs, _)) => {
            lemma_stamp_faults(ws, cs, cs.fresh);
        },
        Err(_) => {},
    }
}

proof fn lemma_stamp_faults(ws: WsView, cs: ChangeView, paths: Seq<Seq<char>>)
    ensures
        crate::change::all_stamped(ws, cs, paths) matches Err(e) ==> e is Metadata,
    decreases paths.len(),
{
    if paths.len() > 0 {
        lemma_stamp_faults(ws, cs, paths.drop_last());
    }
}

/// A document that went to the bin can come back from it: what keeps a document from
/// coming back does not keep this one, where its place is free.
pub proof fn law_recycled_can_return(
    ws: WsView,
    path: Seq<char>,
    force: bool,
    at: Option<Seq<char>>,
    between: WsView,
    root: Seq<char>,
)
    requires
        crate::registry::is_sound(ws.ids),
        crate::recycle::recycling(ws, path, force, at) matches Ok((cs, _))
            && crate::change::landed(ws, cs) matches Ok(w) && w == between,
        bin_reads(ws, crate::path::normalized(path), force, at, between, root),
        !crate::files::occupied(between.files, crate::path::normalized(path)),
    ensures
        present_bin(between, root) matches Ok(bin) && record_for(
            bin,
            crate::path::normalized(path),
        ) matches Ok((i, _)) && return_fault(
            between,
            bin.records[i],
            crate::path::normalized(path),
        ) is None,
{
    let f = crate::path::normalized(path);
    let subject = crate::delete::removable(ws, f, force, crate::delete::Removal::Binned)->Ok_0;
    let (slot, index) = crate::recycle::binned(ws, f)->Some_0;
    let items = crate::path::under(crate::path::parent_of(index), "items"@);
    let bin = present_bin(between, root)->Ok_0;
    let held = bin.records.drop_last();
    let record = crate::recycle::record_of(ws, subject, f, slot, items, at);
    assert(held.push(record) =~= bin.records);
    crate::recycle::law_record_reads(ws, subject, f, slot, items, at);
    lemma_record_last(held, record, f, 0);
    match crate::registry::id_at(ws.ids, f) {
        Some(id) => {
            crate::registry::law_retired(ws.ids, id, id);
            crate::registry::law_sound_kept(ws.ids, id, f);
            match crate::registry::id_at(between.ids, f) {
                Some(other) => {
                    crate::registry::law_sound_agrees(between.ids, other, f);
                    crate::registry::law_retired(ws.ids, id, other);
                    crate::registry::law_sound_agrees(ws.ids, other, f);
                },
                None => {},
            }
        },
        None => {},
    }
}

} // verus!
