//! Statements that someone read a document and found it correct.

use crate::change::{ChangeSet, ChangeView};
use crate::error::{Error, Fault};
use crate::meta::{Meta, MetaView};
use crate::path::opt_text;
use crate::save::{recorded_sum, state_of, ContentState};
use crate::text::{chars_of, same_text};
use crate::workspace::{Outcome, Workspace, WsView};
use vstd::prelude::*;

verus! {

/// A statement that someone read a document and found it correct.
#[derive(Debug, PartialEq, Eq)]
pub struct Confirmation {
    /// Who.
    pub by: String,
    /// When.
    pub at: String,
    /// The checksum of what was read.
    pub of: Option<String>,
}

/// What a [`Confirmation`] holds.
pub struct ConfirmationView {
    pub by: Seq<char>,
    pub at: Seq<char>,
    pub of: Option<Seq<char>>,
}

impl View for Confirmation {
    type V = ConfirmationView;

    open spec fn view(&self) -> ConfirmationView {
        ConfirmationView { by: self.by@, at: self.at@, of: opt_text(self.of) }
    }
}

/// What confirmations hold.
pub open spec fn confirmations_view(v: Seq<Confirmation>) -> Seq<ConfirmationView> {
    v.map_values(|c: Confirmation| c@)
}

/// A confirmation as it is written.
pub open spec fn written_confirmation(c: ConfirmationView) -> MetaView {
    MetaView::Mapping(
        seq![("by"@, MetaView::Text(c.by)), ("at"@, MetaView::Text(c.at))]
            + crate::recycle::noted("of"@, c.of),
    )
}

/// The confirmations of a document, as they are written; none where the field is
/// something else.
pub open spec fn written_entries(meta: MetaView) -> Option<Seq<MetaView>> {
    match crate::meta::field(meta, "confirmed"@) {
        None => Some(Seq::empty()),
        Some(MetaView::Null) => Some(Seq::empty()),
        Some(MetaView::List(items)) => Some(items),
        Some(_) => None,
    }
}

/// The changes that add a confirmation to a document, and the confirmation; or
/// why there are none.
pub open spec fn confirming(ws: WsView, path: Seq<char>, by: Seq<char>, at: Seq<char>) -> Outcome<
    (ChangeView, ConfirmationView),
> {
    let path = crate::path::normalized(path);
    if crate::text::trimmed(by).len() == 0 {
        Err(Fault::EmptyActor)
    } else {
        match (crate::workspace::loaded(ws.files, path), state_of(ws, path)) {
            (Err(e), _) => Err(e),
            (_, Err(e)) => Err(e),
            (Ok((text, doc)), Ok(state)) => if state is Drifted {
                Err(Fault::ContentDrifted(path))
            } else {
                match written_entries(doc.meta) {
                    None => Err(Fault::NotAList(path)),
                    Some(entries) => {
                        let entry = ConfirmationView { by, at, of: recorded_sum(doc) };
                        match crate::document::set_in(
                            text,
                            doc.carrier,
                            "confirmed"@,
                            MetaView::List(entries.push(written_confirmation(entry))),
                        ) {
                            None => Err(Fault::Metadata(path)),
                            Some(out) => Ok(
                                (
                                    crate::change::no_change(ws).with(
                                        crate::files::write_text(path, out),
                                    ),
                                    entry,
                                ),
                            ),
                        }
                    },
                }
            },
        }
    }
}

/// Whether one text comes before another in the order of their characters.
pub open spec fn precedes(a: Seq<char>, b: Seq<char>) -> bool
    decreases a.len(),
{
    if b.len() == 0 {
        false
    } else if a.len() == 0 {
        true
    } else if a[0] != b[0] {
        a[0] < b[0]
    } else {
        precedes(a.drop_first(), b.drop_first())
    }
}

/// A confirmation as it is read; none for what is not one.
pub open spec fn read_confirmation(value: MetaView) -> Option<ConfirmationView> {
    match (crate::meta::text_field(value, "by"@), crate::meta::text_field(value, "at"@)) {
        (Some(by), Some(at)) => Some(
            ConfirmationView { by, at, of: crate::meta::text_field(value, "of"@) },
        ),
        _ => None,
    }
}

/// Whether a confirmation still holds: it is not older than the update, and what
/// was read is what is there.
pub open spec fn is_live(
    c: ConfirmationView,
    updated: Option<Seq<char>>,
    sum: Option<Seq<char>>,
) -> bool {
    &&& updated matches Some(at) ==> !precedes(c.at, at)
    &&& c.of is Some ==> c.of == sum
}

/// The confirmations that hold, or those that do not.
pub open spec fn standing(
    entries: Seq<MetaView>,
    updated: Option<Seq<char>>,
    sum: Option<Seq<char>>,
    live: bool,
) -> Seq<ConfirmationView>
    decreases entries.len(),
{
    if entries.len() == 0 {
        Seq::empty()
    } else {
        let rest = standing(entries.drop_last(), updated, sum, live);
        match read_confirmation(entries.last()) {
            Some(c) => if is_live(c, updated, sum) == live {
                rest.push(c)
            } else {
                rest
            },
            None => rest,
        }
    }
}

/// How far a document is confirmed.
#[derive(Debug, Clone, Copy, PartialEq, Eq, Structural)]
pub enum Tier {
    /// Not at all.
    Unconfirmed,
    /// By agents.
    AgentConfirmed,
    /// By a person.
    HumanConfirmed,
}

/// The confirmations of a document.
#[derive(Debug, PartialEq, Eq)]
pub struct Confirmations {
    /// Those that hold.
    pub live: Vec<Confirmation>,
    /// Those that the document has outlived.
    pub stale: Vec<Confirmation>,
}

/// Whether a confirmation is that of a person.
pub open spec fn is_human(c: ConfirmationView) -> bool {
    !crate::text::begins(c.by, "agent:"@)
}

impl Confirmations {
    /// How far these confirm a document.
    pub fn tier(&self) -> (r: Tier)
        ensures
            ({
                let live = confirmations_view(self.live@);
                r == (if exists|i: int| 0 <= i < live.len() && is_human(#[trigger] live[i]) {
                    Tier::HumanConfirmed
                } else if live.len() > 0 {
                    Tier::AgentConfirmed
                } else {
                    Tier::Unconfirmed
                })
            }),
    {
        let ghost live = confirmations_view(self.live@);
        let mut i: usize = 0;
        while i < self.live.len()
            invariant
                i <= self.live@.len(),
                live == confirmations_view(self.live@),
                forall|j: int| 0 <= j < i ==> !is_human(#[trigger] live[j]),
            decreases self.live@.len() - i,
        {
            proof {
                assert(live[i as int] == self.live@[i as int]@);
            }
            if !crate::link::starts_with(&self.live[i].by, "agent:") {
                return Tier::HumanConfirmed;
            }
            i = i + 1;
        }
        if self.live.len() > 0 {
            Tier::AgentConfirmed
        } else {
            Tier::Unconfirmed
        }
    }
}

/// The time of the last update that a document records.
pub open spec fn update_time(meta: MetaView, field: Seq<char>) -> Option<Seq<char>> {
    if field.len() == 0 {
        None
    } else {
        crate::meta::text_field(meta, field)
    }
}

/// The confirmations of a document that hold, or those that do not.
pub open spec fn standing_of(ws: WsView, doc: crate::document::DocView, live: bool) -> Seq<
    ConfirmationView,
> {
    standing(
        match written_entries(doc.meta) {
            Some(entries) => entries,
            None => Seq::empty(),
        },
        update_time(doc.meta, ws.updated_field),
        recorded_sum(doc),
        live,
    )
}

fn comes_before(a: &str, b: &str) -> (r: bool)
    ensures
        r == precedes(a@, b@),
{
    let x = chars_of(a);
    let y = chars_of(b);
    let mut i: usize = 0;
    proof {
        assert(x@.skip(0) =~= a@);
        assert(y@.skip(0) =~= b@);
    }
    loop
        invariant
            x@ == a@,
            y@ == b@,
            i <= x@.len(),
            i <= y@.len(),
            precedes(a@, b@) == precedes(x@.skip(i as int), y@.skip(i as int)),
        decreases x@.len() - i,
    {
        if i >= y.len() {
            return false;
        }
        if i >= x.len() {
            return true;
        }
        proof {
            assert(x@.skip(i as int)[0] == x@[i as int]);
            assert(y@.skip(i as int)[0] == y@[i as int]);
            assert(x@.skip(i as int).drop_first() =~= x@.skip(i + 1));
            assert(y@.skip(i as int).drop_first() =~= y@.skip(i + 1));
        }
        if x[i] != y[i] {
            return x[i] < y[i];
        }
        i = i + 1;
    }
}

fn write_confirmation(c: &Confirmation) -> (r: Meta)
    ensures
        r@ == written_confirmation(c@),
{
    broadcast use crate::meta::lemma_map_view;

    let mut pairs: Vec<(String, Meta)> = Vec::new();
    pairs.push(("by".to_owned(), Meta::Text(c.by.clone())));
    pairs.push(("at".to_owned(), Meta::Text(c.at.clone())));
    proof {
        assert(crate::meta::pairs_view(pairs@) =~= seq![
            ("by"@, MetaView::Text(c.by@)),
            ("at"@, MetaView::Text(c.at@)),
        ]);
    }
    crate::recycle::note(&mut pairs, "of", &c.of);
    Meta::Mapping(pairs)
}

/// The confirmations of a document, as they are written; none where the field is
/// something else.
fn read_entries(meta: &Meta) -> (r: Option<Vec<Meta>>)
    ensures
        match r {
            Some(v) => written_entries(meta@) == Some(crate::meta::items_view(v@)),
            None => written_entries(meta@) is None,
        },
{
    broadcast use crate::meta::lemma_list_view;

    match meta.get("confirmed") {
        None | Some(Meta::Null) => {
            let none: Vec<Meta> = Vec::new();
            proof {
                assert(crate::meta::items_view(none@) =~= Seq::empty());
            }
            Some(none)
        },
        Some(Meta::List(items)) => Some(crate::recycle::copy_items(items)),
        Some(_) => None,
    }
}

fn read_standing(
    entries: &Vec<Meta>,
    updated: &Option<String>,
    sum: &Option<String>,
    live: bool,
) -> (r: Vec<Confirmation>)
    ensures
        confirmations_view(r@) == standing(
            crate::meta::items_view(entries@),
            opt_text(*updated),
            opt_text(*sum),
            live,
        ),
{
    let ghost all = crate::meta::items_view(entries@);
    let mut out: Vec<Confirmation> = Vec::new();
    let mut i: usize = 0;
    proof {
        assert(all.take(0) =~= Seq::empty());
        assert(confirmations_view(out@) =~= Seq::empty());
    }
    while i < entries.len()
        invariant
            i <= entries@.len(),
            all == crate::meta::items_view(entries@),
            confirmations_view(out@) == standing(
                all.take(i as int),
                opt_text(*updated),
                opt_text(*sum),
                live,
            ),
        decreases entries@.len() - i,
    {
        let value = &entries[i];
        proof {
            assert(all.take(i + 1).drop_last() =~= all.take(i as int));
            assert(all.take(i + 1).last() == value@);
        }
        match (value.get_text("by"), value.get_text("at")) {
            (Some(by), Some(at)) => {
                let of = value.get_text("of");
                let in_time = match updated {
                    Some(stamp) => !comes_before(&at, stamp),
                    None => true,
                };
                let same = match (&of, sum) {
                    (Some(a), Some(b)) => same_text(a, b),
                    (Some(_), None) => false,
                    (None, _) => true,
                };
                let c = Confirmation { by, at, of };
                if (in_time && same) == live {
                    let ghost before = confirmations_view(out@);
                    out.push(c);
                    proof {
                        assert(confirmations_view(out@) =~= before.push(c@));
                    }
                }
            },
            _ => {},
        }
        i = i + 1;
    }
    proof {
        assert(all.take(i as int) =~= all);
    }
    out
}

impl Workspace {
    /// The changes that add a confirmation to a document, and the confirmation.
    pub fn plan_confirm(&self, path: &str, by: &str, at: &str) -> (r: Result<
        (ChangeSet, Confirmation),
        Error,
    >)
        ensures
            ({
                let plan = confirming(self@, path@, by@, at@);
                match r {
                    Ok((cs, entry)) => plan matches Ok((c, v)) && c == cs@ && v == entry@,
                    Err(e) => plan matches Err(f) && f == crate::error::fault(e),
                }
            }),
    {
        broadcast use crate::meta::lemma_list_view;

        let path = crate::path::normalize(path);
        let actor = crate::link::trim(by);
        proof {
            reveal_strlit("");
            assert(actor@.len() == 0 ==> actor@ =~= ""@);
        }
        if same_text(&actor, "") {
            return Err(Fault::EmptyActor);
        }
        let (text, doc) = match self.load(&path) {
            Ok(read) => read,
            Err(e) => {
                return Err(e);
            },
        };
        match self.content_state(&path) {
            Err(e) => {
                return Err(e);
            },
            Ok(ContentState::Drifted) => {
                return Err(Fault::ContentDrifted(path));
            },
            Ok(_) => {},
        }
        let of = doc.meta.get_text("content_hash");
        let mut entries = match read_entries(&doc.meta) {
            Some(entries) => entries,
            None => {
                return Err(Fault::NotAList(path));
            },
        };
        let entry = Confirmation { by: by.to_owned(), at: at.to_owned(), of };
        let ghost before = crate::meta::items_view(entries@);
        let written = write_confirmation(&entry);
        entries.push(written);
        proof {
            assert(crate::meta::items_view(entries@) =~= before.push(written@));
        }
        match crate::document::set_in_text(&text, doc.carrier, "confirmed", &Meta::List(entries)) {
            None => Err(Fault::Metadata(path)),
            Some(out) => {
                let mut cs = self.change();
                cs.write(&path, &out);
                Ok((cs, entry))
            },
        }
    }

    /// Adds a confirmation to a document, with the checksum that it records. The
    /// ones before it stay, and the time of the update does too. Content that has
    /// drifted from its checksum is not confirmed. A refusal changes nothing.
    pub fn confirm(&mut self, path: &str, by: &str, at: &str) -> (r: Result<Confirmation, Error>)
        ensures
            ({
                let done = crate::change::carried_out(
                    old(self)@,
                    confirming(old(self)@, path@, by@, at@),
                );
                match r {
                    Ok(entry) => done matches Ok((after, v)) && after == final(self)@ && v
                        == entry@,
                    Err(e) => done matches Err(f) && f == crate::error::fault(e) && *final(self)
                        == *old(self),
                }
            }),
    {
        match self.plan_confirm(path, by, at) {
            Ok((cs, entry)) => match self.commit(cs) {
                Ok(_) => Ok(entry),
                Err(e) => Err(e),
            },
            Err(e) => Err(e),
        }
    }

    /// The confirmations of the document at `path`: those that hold, and those
    /// that it has outlived.
    pub fn confirmations(&self, path: &str) -> (r: Result<Confirmations, Error>)
        ensures
            ({
                let read = crate::workspace::loaded(
                    self@.files,
                    crate::path::normalized(path@),
                );
                match r {
                    Ok(c) => read matches Ok((_, doc)) && confirmations_view(c.live@)
                        == standing_of(self@, doc, true) && confirmations_view(c.stale@)
                        == standing_of(self@, doc, false),
                    Err(e) => read matches Err(f) && f == crate::error::fault(e),
                }
            }),
    {
        let path = crate::path::normalize(path);
        let doc = match self.load(&path) {
            Ok((_, doc)) => doc,
            Err(e) => {
                return Err(e);
            },
        };
        let entries = match read_entries(&doc.meta) {
            Some(entries) => entries,
            None => {
                let none: Vec<Meta> = Vec::new();
                proof {
                    assert(crate::meta::items_view(none@) =~= Seq::empty());
                }
                none
            },
        };
        proof {
            reveal_strlit("");
            assert(self.updated_field@.len() == 0 ==> self.updated_field@ =~= ""@);
        }
        let updated = if same_text(&self.updated_field, "") {
            None
        } else {
            doc.meta.get_text(&self.updated_field)
        };
        let sum = doc.meta.get_text("content_hash");
        Ok(
            Confirmations {
                live: read_standing(&entries, &updated, &sum, true),
                stale: read_standing(&entries, &updated, &sum, false),
            },
        )
    }
}

} // verus!
