//! What a change of content implies: the checksum of the content file, and the
//! time of the update.

use crate::change::{ChangeSet, ChangeView};
use crate::document::Document;
use crate::error::{Error, Fault};
use crate::meta::{Meta, MetaView};
use crate::text::same_text;
use crate::workspace::{Outcome, Workspace, WsView};
use vstd::prelude::*;

verus! {

/// What the checksum of a document says of its content.
#[derive(Debug, Clone, Copy, PartialEq, Eq, Structural)]
pub enum ContentState {
    /// There is none.
    Unrecorded,
    /// It is of a kind that is not computed here.
    Unverifiable,
    /// It is that of the content.
    Intact,
    /// It is not that of the content.
    Drifted,
}

/// The checksum that a document records.
pub open spec fn recorded_sum(doc: crate::document::DocView) -> Option<Seq<char>> {
    crate::meta::text_field(doc.meta, "content_hash"@)
}

/// The checksum of the content of a document: its content file, or its own body.
pub open spec fn covered_sum(ws: WsView, path: Seq<char>, doc: crate::document::DocView) -> Outcome<
    Seq<char>,
> {
    if crate::document::manifest_of(doc) is Some {
        Err(Fault::ManifestStamp(path))
    } else {
        match crate::maintain::content_file(doc, path) {
            Some(file) => match crate::workspace::file_at(ws.files, file) {
                Err(e) => Err(e),
                Ok(data) => Ok(crate::fixity::checksum(crate::fixity::bytes_of(data))),
            },
            None => Ok(crate::fixity::checksum(vstd::utf8::encode_utf8(doc.body))),
        }
    }
}

/// Whether a workspace keeps the checksum of a document: where it does at all,
/// and the content is a file of its own.
pub open spec fn is_covered(ws: WsView, doc: crate::document::DocView) -> bool {
    ws.settings.fixity && crate::document::content_of(doc) is Some
}

/// The checksum that a document is to record; none where it does, or need not.
pub open spec fn new_sum(ws: WsView, path: Seq<char>, doc: crate::document::DocView) -> Outcome<
    Option<Seq<char>>,
> {
    if is_covered(ws, doc) {
        match covered_sum(ws, path, doc) {
            Err(e) => Err(e),
            Ok(sum) => if recorded_sum(doc) == Some(sum) {
                Ok(None)
            } else {
                Ok(Some(sum))
            },
        }
    } else {
        Ok(None)
    }
}

/// A text with a value set at a key, where there is one.
pub open spec fn stamped_with(
    path: Seq<char>,
    text: Seq<char>,
    doc: crate::document::DocView,
    key: Seq<char>,
    value: Option<Seq<char>>,
) -> Outcome<Seq<char>> {
    match value {
        None => Ok(text),
        Some(value) => match crate::document::set_in(
            text,
            doc.carrier,
            key,
            MetaView::Text(value),
        ) {
            Some(out) => Ok(out),
            None => Err(Fault::Metadata(path)),
        },
    }
}

/// The field and the time of an update; none where the field has no name.
pub open spec fn update_of(updated: Option<(Seq<char>, Seq<char>)>) -> Option<
    (Seq<char>, Seq<char>),
> {
    match updated {
        Some((field, at)) => if field.len() > 0 {
            Some((field, at))
        } else {
            None
        },
        None => None,
    }
}

/// The text of a document with what a change of content implies; none where
/// nothing does.
pub open spec fn stamped_text(
    ws: WsView,
    path: Seq<char>,
    text: Seq<char>,
    doc: crate::document::DocView,
    updated: Option<(Seq<char>, Seq<char>)>,
) -> Outcome<Option<Seq<char>>> {
    match new_sum(ws, path, doc) {
        Err(e) => Err(e),
        Ok(sum) => match stamped_with(path, text, doc, "content_hash"@, sum) {
            Err(e) => Err(e),
            Ok(summed) => match update_of(updated) {
                None => if sum is Some {
                    Ok(Some(summed))
                } else {
                    Ok(None)
                },
                Some((field, at)) => match stamped_with(path, summed, doc, field, Some(at)) {
                    Err(e) => Err(e),
                    Ok(out) => Ok(Some(out)),
                },
            },
        },
    }
}

/// The changes that note a change of content that was made, and whether there are
/// any; or why there are none.
pub open spec fn content_update(
    ws: WsView,
    path: Seq<char>,
    updated: Option<(Seq<char>, Seq<char>)>,
) -> Outcome<(ChangeView, bool)> {
    let path = crate::path::normalized(path);
    match crate::workspace::loaded(ws.files, path) {
        Err(e) => Err(e),
        Ok((text, doc)) => match stamped_text(ws, path, text, doc, updated) {
            Err(e) => Err(e),
            Ok(None) => Ok((crate::change::no_change(ws), false)),
            Ok(Some(out)) => Ok(
                (crate::change::no_change(ws).with(crate::files::write_text(path, out)), true),
            ),
        },
    }
}

/// The changes that write a document with what that implies; or why there are
/// none.
pub open spec fn saving(
    ws: WsView,
    path: Seq<char>,
    text: Seq<char>,
    updated: Option<(Seq<char>, Seq<char>)>,
) -> Outcome<(ChangeView, ())> {
    let path = crate::path::normalized(path);
    if crate::path::escapes(path) {
        Err(Fault::Escape(path))
    } else {
        match crate::document::parsed(path, text) {
            None => Err(Fault::Metadata(path)),
            Some(doc) => match stamped_text(ws, path, text, doc, updated) {
                Err(e) => Err(e),
                Ok(stamped) => Ok(
                    (
                        crate::change::no_change(ws).with(
                            crate::files::write_text(
                                path,
                                match stamped {
                                    Some(out) => out,
                                    None => text,
                                },
                            ),
                        ),
                        (),
                    ),
                ),
            },
        }
    }
}

/// What the checksum of the document at `path` says of its content.
pub open spec fn state_of(ws: WsView, path: Seq<char>) -> Outcome<ContentState> {
    let path = crate::path::normalized(path);
    match crate::workspace::loaded(ws.files, path) {
        Err(e) => Err(e),
        Ok((_, doc)) => match recorded_sum(doc) {
            None => Ok(ContentState::Unrecorded),
            Some(recorded) => if !crate::fixity::is_recognized(recorded) {
                Ok(ContentState::Unverifiable)
            } else {
                match covered_sum(ws, path, doc) {
                    Err(e) => Err(e),
                    Ok(sum) => if sum == recorded {
                        Ok(ContentState::Intact)
                    } else {
                        Ok(ContentState::Drifted)
                    },
                }
            },
        },
    }
}

/// Of a document whose checksum is kept, drifted content is exactly what noting a
/// change writes, and of content that is intact nothing is written.
pub proof fn law_drift_is_stamped(ws: WsView, path: Seq<char>)
    requires
        ({
            let p = crate::path::normalized(path);
            crate::workspace::loaded(ws.files, p) matches Ok((_, doc)) && is_covered(ws, doc)
        }),
        state_of(ws, path) is Ok,
    ensures
        state_of(ws, path) == Ok::<ContentState, Fault<Seq<char>>>(ContentState::Drifted) ==> (
        match content_update(ws, path, None) {
            Ok((_, wrote)) => wrote,
            Err(e) => e == Fault::Metadata(crate::path::normalized(path)),
        }),
        state_of(ws, path) == Ok::<ContentState, Fault<Seq<char>>>(ContentState::Intact) ==> (
        content_update(ws, path, None) matches Ok((cs, wrote)) && !wrote && cs
            == crate::change::no_change(ws)),
{
}

/// The texts of an update.
pub open spec fn told_update(updated: Option<(&str, &str)>) -> Option<(Seq<char>, Seq<char>)> {
    match updated {
        Some((field, at)) => Some((field@, at@)),
        None => None,
    }
}

impl Workspace {
    /// The checksum of the content of a document: its content file, or its own
    /// body.
    pub fn covered_digest(&self, path: &str, doc: &Document) -> (r: Result<String, Error>)
        ensures
            crate::workspace::told(r) == covered_sum(self@, path@, doc@),
    {
        if doc.manifest_attr().is_some() {
            return Err(Fault::ManifestStamp(path.to_owned()));
        }
        match crate::maintain::content_target(doc, path) {
            Some(file) => match self.read_data(&file) {
                Ok(data) => Ok(crate::fixity::file_digest(&data)),
                Err(e) => Err(e),
            },
            None => Ok(crate::fixity::digest(doc.body.as_str().as_bytes())),
        }
    }

    fn fresh_sum(&self, path: &str, doc: &Document) -> (r: Result<Option<String>, Error>)
        ensures
            crate::workspace::told_opt(r) == new_sum(self@, path@, doc@),
    {
        if !self.settings.fixity || doc.content_attr().is_none() {
            return Ok(None);
        }
        match self.covered_digest(path, doc) {
            Err(e) => Err(e),
            Ok(sum) => match doc.meta.get_text("content_hash") {
                Some(recorded) => if same_text(&recorded, &sum) {
                    Ok(None)
                } else {
                    Ok(Some(sum))
                },
                None => Ok(Some(sum)),
            },
        }
    }

    /// The text of a document with what a change of content implies: its checksum
    /// where that is kept and has drifted, and the time of the update where one
    /// is given. None where nothing is implied.
    pub fn stamped(&self, path: &str, text: &str, doc: &Document, updated: Option<(&str, &str)>) -> (r:
        Result<Option<String>, Error>)
        ensures
            crate::workspace::told_opt(r) == stamped_text(
                self@,
                path@,
                text@,
                doc@,
                told_update(updated),
            ),
    {
        let sum = match self.fresh_sum(path, doc) {
            Ok(sum) => sum,
            Err(e) => {
                return Err(e);
            },
        };
        let changed = sum.is_some();
        let summed = match sum {
            None => text.to_owned(),
            Some(sum) => match crate::document::set_in_text(
                text,
                doc.carrier,
                "content_hash",
                &Meta::Text(sum),
            ) {
                Some(out) => out,
                None => {
                    return Err(Fault::Metadata(path.to_owned()));
                },
            },
        };
        match updated {
            Some((field, at)) => {
                proof {
                    reveal_strlit("");
                    assert(field@.len() == 0 ==> field@ =~= ""@);
                }
                if !same_text(field, "") {
                    return match crate::document::set_in_text(
                        &summed,
                        doc.carrier,
                        field,
                        &Meta::Text(at.to_owned()),
                    ) {
                        Some(out) => Ok(Some(out)),
                        None => Err(Fault::Metadata(path.to_owned())),
                    };
                }
            },
            None => {},
        }
        if changed {
            Ok(Some(summed))
        } else {
            Ok(None)
        }
    }

    /// The changes that note a change of content that was made, and whether there
    /// are any.
    pub fn plan_content_update(&self, path: &str, updated: Option<(&str, &str)>) -> (r: Result<
        (ChangeSet, bool),
        Error,
    >)
        ensures
            ({
                let plan = content_update(self@, path@, told_update(updated));
                match r {
                    Ok((cs, wrote)) => plan matches Ok((c, w)) && c == cs@ && w == wrote,
                    Err(e) => plan matches Err(f) && f == crate::error::fault(e),
                }
            }),
    {
        let path = crate::path::normalize(path);
        let (text, doc) = match self.load(&path) {
            Ok(read) => read,
            Err(e) => {
                return Err(e);
            },
        };
        match self.stamped(&path, &text, &doc, updated) {
            Err(e) => Err(e),
            Ok(None) => Ok((self.change(), false)),
            Ok(Some(out)) => {
                let mut cs = self.change();
                cs.write(&path, &out);
                Ok((cs, true))
            },
        }
    }

    /// Notes that the content of a document has changed: its checksum, where that
    /// is kept and has drifted, and the time of the update in a field, where one
    /// is given. Gives whether anything was written. A refusal changes nothing.
    pub fn record_content_update(&mut self, path: &str, updated: Option<(&str, &str)>) -> (r: Result<
        bool,
        Error,
    >)
        ensures
            ({
                let done = crate::change::carried_out(
                    old(self)@,
                    content_update(old(self)@, path@, told_update(updated)),
                );
                match r {
                    Ok(wrote) => done matches Ok((after, w)) && after == final(self)@ && w == wrote,
                    Err(e) => done matches Err(f) && f == crate::error::fault(e) && *final(self)
                        == *old(self),
                }
            }),
    {
        match self.plan_content_update(path, updated) {
            Ok((cs, wrote)) => match self.commit(cs) {
                Ok(_) => Ok(wrote),
                Err(e) => Err(e),
            },
            Err(e) => Err(e),
        }
    }

    /// Brings the checksum of a document in line with its content. Gives whether
    /// anything was written. A refusal changes nothing.
    pub fn restamp_fixity(&mut self, path: &str) -> (r: Result<bool, Error>)
        ensures
            ({
                let done = crate::change::carried_out(
                    old(self)@,
                    content_update(old(self)@, path@, None),
                );
                match r {
                    Ok(wrote) => done matches Ok((after, w)) && after == final(self)@ && w == wrote,
                    Err(e) => done matches Err(f) && f == crate::error::fault(e) && *final(self)
                        == *old(self),
                }
            }),
    {
        self.record_content_update(path, None)
    }

    /// The changes that write a document with what that implies.
    pub fn plan_save(&self, path: &str, text: &str, updated: Option<(&str, &str)>) -> (r: Result<
        ChangeSet,
        Error,
    >)
        ensures
            ({
                let plan = saving(self@, path@, text@, told_update(updated));
                match r {
                    Ok(cs) => plan matches Ok((c, _)) && c == cs@,
                    Err(e) => plan matches Err(f) && f == crate::error::fault(e),
                }
            }),
    {
        let path = crate::path::normalize(path);
        if crate::path::escapes_root(&path) {
            return Err(Fault::Escape(path));
        }
        let doc = match Document::parse(&path, text) {
            Some(doc) => doc,
            None => {
                return Err(Fault::Metadata(path));
            },
        };
        match self.stamped(&path, text, &doc, updated) {
            Err(e) => Err(e),
            Ok(stamped) => {
                let mut cs = self.change();
                match stamped {
                    Some(out) => {
                        cs.write(&path, &out);
                    },
                    None => {
                        cs.write(&path, text);
                    },
                }
                Ok(cs)
            },
        }
    }

    /// Writes a document, with its checksum where that is kept and has drifted,
    /// and the time of the update where one is given. A refusal changes nothing.
    pub fn save_document(&mut self, path: &str, text: &str, updated: Option<(&str, &str)>) -> (r:
        Result<(), Error>)
        ensures
            ({
                let done = crate::change::carried_out(
                    old(self)@,
                    saving(old(self)@, path@, text@, told_update(updated)),
                );
                match r {
                    Ok(_) => done matches Ok((after, _)) && after == final(self)@,
                    Err(e) => done matches Err(f) && f == crate::error::fault(e) && *final(self)
                        == *old(self),
                }
            }),
    {
        match self.plan_save(path, text, updated) {
            Ok(cs) => self.commit(cs),
            Err(e) => Err(e),
        }
    }

    /// What the checksum of the document at `path` says of its content.
    pub fn content_state(&self, path: &str) -> (r: Result<ContentState, Error>)
        ensures
            match r {
                Ok(state) => state_of(self@, path@) matches Ok(s) && s == state,
                Err(e) => state_of(self@, path@) matches Err(f) && f == crate::error::fault(e),
            },
    {
        let path = crate::path::normalize(path);
        let doc = match self.load(&path) {
            Ok((_, doc)) => doc,
            Err(e) => {
                return Err(e);
            },
        };
        let recorded = match doc.meta.get_text("content_hash") {
            Some(recorded) => recorded,
            None => {
                return Ok(ContentState::Unrecorded);
            },
        };
        if !crate::fixity::recognized(&recorded) {
            return Ok(ContentState::Unverifiable);
        }
        match self.covered_digest(&path, &doc) {
            Err(e) => Err(e),
            Ok(sum) => if same_text(&sum, &recorded) {
                Ok(ContentState::Intact)
            } else {
                Ok(ContentState::Drifted)
            },
        }
    }
}

/// The edits that a change of content implies: its checksum where that is kept and is
/// not the one that is recorded, and the time of the update in its field.
pub open spec fn content_edits(
    sum: Option<Seq<char>>,
    updated: Option<(Seq<char>, Seq<char>)>,
) -> Seq<crate::reading::Touch> {
    let summed = match sum {
        Some(sum) => seq![
            crate::reading::Touch::Open(crate::codec::Fence::Frontmatter),
            crate::reading::Touch::Value("content_hash"@, MetaView::Text(sum)),
        ],
        None => Seq::empty(),
    };
    match updated {
        Some((key, at)) => if key.len() > 0 {
            summed.push(crate::reading::Touch::Open(crate::codec::Fence::Frontmatter)).push(
                crate::reading::Touch::Value(key, MetaView::Text(at)),
            )
        } else {
            summed
        },
        None => summed,
    }
}

/// Whether a document reads as one whose content was changed: with the time of the update
/// in its field, whatever that held, with the checksum of its content where that is kept,
/// with every other entry as it was, and with its body.
pub open spec fn reads_updated(
    doc: crate::document::DocView,
    now: crate::document::DocView,
    sum: Option<Seq<char>>,
    updated: Option<(Seq<char>, Seq<char>)>,
) -> bool {
    let stamps = updated matches Some((key, _)) && key.len() > 0;
    &&& stamps ==> crate::meta::field(now.meta, updated->Some_0.0) == Some(
        MetaView::Text(updated->Some_0.1),
    )
    &&& sum matches Some(sum) ==> (stamps && updated->Some_0.0 == "content_hash"@)
        || crate::meta::field(now.meta, "content_hash"@) == Some(MetaView::Text(sum))
    &&& forall|key: Seq<char>|
        !(stamps && updated->Some_0.0 == key) && !(sum is Some && key == "content_hash"@)
            ==> #[trigger] crate::meta::field(now.meta, key) == crate::meta::field(doc.meta, key)
    &&& now.body == doc.body
}

/// The checksum that the content of a document has, where that is kept: of the file that
/// the document names as its content, in these files.
pub open spec fn kept_sum(ws: WsView, path: Seq<char>, doc: crate::document::DocView) -> Option<
    Seq<char>,
> {
    match crate::meta::text_field(doc.meta, "content"@) {
        Some(raw) => if ws.settings.fixity {
            match crate::files::lookup(
                ws.files,
                crate::path::under(crate::path::parent_of(path), raw),
            ) {
                Some(data) => Some(crate::fixity::checksum(crate::fixity::bytes_of(data))),
                None => None,
            }
        } else {
            None
        },
        None => None,
    }
}

/// The checksum that is to be written: the one that the content has, where another one is
/// recorded or none.
pub open spec fn owed_sum(ws: WsView, path: Seq<char>, doc: crate::document::DocView) -> Option<
    Seq<char>,
> {
    match kept_sum(ws, path, doc) {
        Some(sum) => if crate::meta::field(doc.meta, "content_hash"@) == Some(
            MetaView::Text(sum),
        ) {
            None
        } else {
            Some(sum)
        },
        None => None,
    }
}

proof fn lemma_stamped(
    ws: WsView,
    path: Seq<char>,
    text: Seq<char>,
    doc: crate::document::DocView,
    updated: Option<(Seq<char>, Seq<char>)>,
)
    requires
        stamped_text(ws, path, text, doc, updated) is Ok,
        crate::document::parsed(path, text) == Some(doc),
        doc.meta is Mapping || doc.meta is Null,
    ensures
        ({
            let sum = owed_sum(ws, path, doc);
            let out = match stamped_text(ws, path, text, doc, updated)->Ok_0 {
                Some(out) => out,
                None => text,
            };
            &&& crate::reading::all_touched(text, doc.carrier, content_edits(sum, updated))
                == Some(out)
            &&& crate::reading::reads_through(path, text, content_edits(sum, updated)) ==> (
            crate::document::parsed(path, out) matches Some(now) && reads_updated(
                doc,
                now,
                sum,
                updated,
            ))
            &&& stamped_text(ws, path, text, doc, updated)->Ok_0 is Some <==> sum is Some || (
            updated matches Some((key, _)) && key.len() > 0)
        }),
{
    let sum = owed_sum(ws, path, doc);
    let touches = content_edits(sum, updated);
    let open = crate::reading::Touch::Open(crate::codec::Fence::Frontmatter);
    let none = Seq::<crate::reading::Touch>::empty();
    let hashed = match sum {
        Some(sum) => {
            let a = none.push(open);
            let value = crate::reading::Touch::Value("content_hash"@, MetaView::Text(sum));
            crate::reading::lemma_touch_push(text, doc.carrier, doc, none, open);
            crate::reading::lemma_touch_push(text, doc.carrier, doc, a, value);
            assert(a.push(value) =~= content_edits(Some(sum), None));
            a.push(value)
        },
        None => none,
    };
    let first = crate::reading::all_meant(doc, hashed);
    match sum {
        Some(sum) => {
            assert(first.meta == crate::reading::with_value(
                doc.meta,
                "content_hash"@,
                MetaView::Text(sum),
            ));
            assert forall|key: Seq<char>| key != "content_hash"@ implies #[trigger] crate::meta::field(
                first.meta,
                key,
            ) == crate::meta::field(doc.meta, key) by {
                crate::reading::law_value_reads(
                    doc.meta,
                    "content_hash"@,
                    MetaView::Text(sum),
                    key,
                );
            }
            crate::reading::law_value_reads(
                doc.meta,
                "content_hash"@,
                MetaView::Text(sum),
                "content_hash"@,
            );
        },
        None => {},
    }
    match updated {
        Some((key, at)) => {
            if key.len() > 0 {
                let value = crate::reading::Touch::Value(key, MetaView::Text(at));
                crate::reading::lemma_touch_push(text, doc.carrier, doc, hashed, open);
                crate::reading::lemma_touch_push(text, doc.carrier, doc, hashed.push(open), value);
                assert(touches =~= hashed.push(open).push(value));
                assert forall|other: Seq<char>| other != key implies #[trigger] crate::meta::field(
                    crate::reading::with_value(first.meta, key, MetaView::Text(at)),
                    other,
                ) == crate::meta::field(first.meta, other) by {
                    crate::reading::law_value_reads(first.meta, key, MetaView::Text(at), other);
                }
                crate::reading::law_value_reads(first.meta, key, MetaView::Text(at), key);
            } else {
                assert(touches =~= hashed);
            }
        },
        None => {
            assert(touches =~= hashed);
        },
    }
    if crate::reading::reads_through(path, text, touches) {
        crate::reading::law_touched_reads(path, text, touches);
    }
}

proof fn lemma_one_write(ws: WsView, path: Seq<char>, text: Seq<char>, after: WsView)
    requires
        crate::change::landed(
            ws,
            crate::change::no_change(ws).with(crate::files::write_text(path, text)),
        ) matches Ok(w) && w == after,
    ensures
        crate::files::lookup(after.files, path) == Some(crate::files::FileView::Text(text)),
        forall|q: Seq<char>|
            q != path ==> #[trigger] crate::files::lookup(after.files, q) == crate::files::lookup(
                ws.files,
                q,
            ),
{
    let none = Seq::<crate::files::OpView>::empty();
    let op = crate::files::write_text(path, text);
    let data = crate::files::FileView::Text(text);
    let cs = crate::change::no_change(ws).with(op);
    assert(cs.ops =~= none.push(op));
    crate::landing::lemma_changed_push(ws.files, none, op);
    assert forall|q: Seq<char>| q != path implies #[trigger] crate::files::lookup(after.files, q)
        == crate::files::lookup(ws.files, q) by {
        crate::files::law_stored(ws.files, path, data, q);
    }
    crate::files::law_stored(ws.files, path, data, path);
}

/// A document that is saved reads with the time of the update in its field, whatever the
/// field held, with the checksum of its content where that is kept, and else as the text
/// that is saved: with its other entries, and with its body. No other file changes. The
/// edits read back.
pub proof fn law_saved_reads(
    ws: WsView,
    path: Seq<char>,
    text: Seq<char>,
    updated: Option<(Seq<char>, Seq<char>)>,
    after: WsView,
)
    requires
        saving(ws, path, text, updated) matches Ok((cs, _)) && crate::change::landed(
            ws,
            cs,
        ) matches Ok(w) && w == after,
        ({
            let p = crate::path::normalized(path);
            crate::document::parsed(p, text) matches Some(doc) && (doc.meta is Mapping
                || doc.meta is Null) && crate::reading::reads_through(
                p,
                text,
                content_edits(owed_sum(ws, p, doc), updated),
            )
        }),
    ensures
        ({
            let p = crate::path::normalized(path);
            let doc = crate::document::parsed(p, text)->Some_0;
            &&& crate::workspace::loaded(after.files, p) matches Ok((_, now)) && reads_updated(
                doc,
                now,
                owed_sum(ws, p, doc),
                updated,
            )
            &&& forall|q: Seq<char>|
                q != p ==> #[trigger] crate::files::lookup(after.files, q)
                    == crate::files::lookup(ws.files, q)
        }),
{
    let p = crate::path::normalized(path);
    let doc = crate::document::parsed(p, text)->Some_0;
    lemma_stamped(ws, p, text, doc, updated);
    let out = match stamped_text(ws, p, text, doc, updated)->Ok_0 {
        Some(out) => out,
        None => text,
    };
    lemma_one_write(ws, p, out, after);
}

/// A document whose change of content is noted reads with the time of the update in its
/// field, with the checksum of its content where that is kept, and else as it did; it is
/// told whether anything was to be noted, and no other file changes. The edits read back.
pub proof fn law_recorded_reads(
    ws: WsView,
    path: Seq<char>,
    updated: Option<(Seq<char>, Seq<char>)>,
    after: WsView,
)
    requires
        content_update(ws, path, updated) matches Ok((cs, _)) && crate::change::landed(
            ws,
            cs,
        ) matches Ok(w) && w == after,
        ({
            let p = crate::path::normalized(path);
            crate::workspace::loaded(ws.files, p) matches Ok((text, doc)) && (doc.meta is Mapping
                || doc.meta is Null) && crate::reading::reads_through(
                p,
                text,
                content_edits(owed_sum(ws, p, doc), updated),
            )
        }),
    ensures
        ({
            let p = crate::path::normalized(path);
            let (_, doc) = crate::workspace::loaded(ws.files, p)->Ok_0;
            &&& crate::workspace::loaded(after.files, p) matches Ok((_, now)) && reads_updated(
                doc,
                now,
                owed_sum(ws, p, doc),
                updated,
            )
            &&& content_update(ws, path, updated)->Ok_0.1 <==> owed_sum(ws, p, doc) is Some || (
            updated matches Some((key, _)) && key.len() > 0)
            &&& forall|q: Seq<char>|
                q != p ==> #[trigger] crate::files::lookup(after.files, q)
                    == crate::files::lookup(ws.files, q)
        }),
{
    let p = crate::path::normalized(path);
    let (text, doc) = crate::workspace::loaded(ws.files, p)->Ok_0;
    lemma_stamped(ws, p, text, doc, updated);
    match stamped_text(ws, p, text, doc, updated)->Ok_0 {
        Some(out) => {
            lemma_one_write(ws, p, out, after);
        },
        None => {
            assert(crate::change::no_change(ws).ops =~= Seq::empty());
        },
    }
}

/// To save a document is to write its text and then to note that its content changed: the
/// same files hold the same. The document is not its own content.
pub proof fn law_save_is_write_and_record(
    ws: WsView,
    path: Seq<char>,
    text: Seq<char>,
    updated: Option<(Seq<char>, Seq<char>)>,
    after: WsView,
    recorded: WsView,
    q: Seq<char>,
)
    requires
        saving(ws, path, text, updated) matches Ok((cs, _)) && crate::change::landed(
            ws,
            cs,
        ) matches Ok(w) && w == after,
        ({
            let p = crate::path::normalized(path);
            let written = WsView {
                files: crate::files::stored(ws.files, p, crate::files::FileView::Text(text)),
                ..ws
            };
            &&& crate::document::parsed(p, text) matches Some(doc)
                && crate::maintain::content_file(doc, p) != Some(p)
            &&& content_update(written, path, updated) matches Ok((cs, _))
                && crate::change::landed(written, cs) matches Ok(w) && w == recorded
        }),
    ensures
        crate::files::lookup(after.files, q) == crate::files::lookup(recorded.files, q),
{
    let p = crate::path::normalized(path);
    let data = crate::files::FileView::Text(text);
    let written = WsView { files: crate::files::stored(ws.files, p, data), ..ws };
    let doc = crate::document::parsed(p, text)->Some_0;
    crate::files::law_stored(ws.files, p, data, p);
    crate::files::law_stored(ws.files, p, data, q);
    match crate::maintain::content_file(doc, p) {
        Some(file) => {
            crate::files::law_stored(ws.files, p, data, file);
        },
        None => {},
    }
    assert(stamped_text(written, p, text, doc, updated) == stamped_text(
        ws,
        p,
        text,
        doc,
        updated,
    ));
    match stamped_text(ws, p, text, doc, updated)->Ok_0 {
        Some(out) => {
            lemma_one_write(ws, p, out, after);
            lemma_one_write(written, p, out, recorded);
        },
        None => {
            lemma_one_write(ws, p, text, after);
            assert(crate::change::no_change(written).ops =~= Seq::empty());
        },
    }
}

} // verus!
