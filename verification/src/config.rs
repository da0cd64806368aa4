//! What the documents of a workspace say of it: its configuration, and the
//! identifiers that they carry themselves.

use crate::error::Error;
use crate::files::FileSeq;
use crate::meta::Meta;
use crate::path::opt_text;
use crate::workspace::{Outcome, Workspace, WsView};
use vstd::prelude::*;

verus! {

/// The configuration that the root points at.
pub open spec fn config_of(ws: WsView, root: Seq<char>) -> Outcome<Option<Seq<char>>> {
    match crate::workspace::loaded(ws.files, root) {
        Err(e) => Err(e),
        Ok((_, doc)) => match ws.relations.config {
            None => Ok(None),
            Some(relation) => Ok(crate::workspace::single_path(ws, doc, relation, root)),
        },
    }
}

/// A setting of the configuration.
pub open spec fn setting_of(ws: WsView, root: Seq<char>, key: Seq<char>) -> Outcome<
    Option<crate::meta::MetaView>,
> {
    match config_of(ws, root) {
        Err(e) => Err(e),
        Ok(None) => Ok(None),
        Ok(Some(path)) => match crate::workspace::loaded(ws.files, path) {
            Err(e) => Err(e),
            Ok((_, doc)) => Ok(crate::meta::field(doc.meta, key)),
        },
    }
}

/// The identifier that the file at `path` carries itself.
pub open spec fn carried_id(files: FileSeq, path: Seq<char>) -> Option<Seq<char>> {
    if !crate::walk::is_nameable(path) {
        None
    } else {
        match crate::workspace::loaded(files, path) {
            Err(_) => None,
            Ok((_, doc)) => match crate::meta::text_field(doc.meta, "id"@) {
                Some(id) => if crate::text::trimmed(id).len() > 0 {
                    Some(crate::text::trimmed(id))
                } else {
                    None
                },
                None => None,
            },
        }
    }
}

/// The identifiers that the first `n` files carry themselves.
pub open spec fn carried_ids(files: FileSeq, n: int) -> Seq<(Seq<char>, Seq<char>)>
    decreases n,
{
    if n <= 0 {
        Seq::empty()
    } else {
        let rest = carried_ids(files, n - 1);
        match carried_id(files, files[n - 1].0) {
            Some(id) => rest.push((id, files[n - 1].0)),
            None => rest,
        }
    }
}

/// What an optional setting holds.
pub open spec fn told_setting(r: Result<Option<Meta>, Error>) -> Outcome<
    Option<crate::meta::MetaView>,
> {
    match r {
        Ok(v) => Ok(crate::codec::meta_opt(v)),
        Err(e) => Err(crate::error::fault(e)),
    }
}

impl Workspace {
    /// The configuration that the document at `root` points at.
    pub fn config_path(&self, root: &str) -> (r: Result<Option<String>, Error>)
        ensures
            crate::workspace::told_opt(r) == config_of(self@, root@),
    {
        let doc = match self.load(root) {
            Ok((_, doc)) => doc,
            Err(e) => {
                return Err(e);
            },
        };
        match &self.relations.config {
            None => Ok(None),
            Some(relation) => Ok(self.single_target(&doc, relation, root)),
        }
    }

    /// A setting of the configuration; none where it is not set.
    pub fn config_get(&self, root: &str, key: &str) -> (r: Result<Option<Meta>, Error>)
        ensures
            told_setting(r) == setting_of(self@, root@, key@),
    {
        match self.config_path(root) {
            Err(e) => Err(e),
            Ok(None) => Ok(None),
            Ok(Some(path)) => match self.load(&path) {
                Err(e) => Err(e),
                Ok((_, doc)) => match doc.meta.get(key) {
                    Some(value) => Ok(Some(value.copy())),
                    None => Ok(None),
                },
            },
        }
    }

    fn read_id(&self, path: &str) -> (r: Option<String>)
        ensures
            opt_text(r) == carried_id(self@.files, path@),
    {
        if crate::walk::hidden(path) || crate::document::is_opaque_payload(path) {
            return None;
        }
        match self.load(path) {
            Err(_) => None,
            Ok((_, doc)) => match doc.meta.get_text("id") {
                Some(id) => {
                    let bare = crate::link::trim(&id);
                    proof {
                        reveal_strlit("");
                        assert(bare@.len() == 0 ==> bare@ =~= ""@);
                    }
                    if crate::text::same_text(&bare, "") {
                        None
                    } else {
                        Some(bare)
                    }
                },
                None => None,
            },
        }
    }

    /// The identifiers that documents carry themselves, with their paths.
    pub fn scan_ids(&self) -> (r: Vec<(String, String)>)
        ensures
            crate::maintain::pair_texts(r@) == carried_ids(
                self@.files,
                self@.files.len() as int,
            ),
    {
        let ghost files = self@.files;
        let mut out: Vec<(String, String)> = Vec::new();
        let mut i: usize = 0;
        proof {
            assert(crate::maintain::pair_texts(out@) =~= Seq::empty());
        }
        while i < self.files.entries.len()
            invariant
                i <= self.files.entries@.len(),
                files == self@.files,
                files.len() == self.files.entries@.len(),
                crate::maintain::pair_texts(out@) == carried_ids(files, i as int),
            decreases self.files.entries@.len() - i,
        {
            let path = &self.files.entries[i].0;
            proof {
                assert(files[i as int].0 == path@);
            }
            match self.read_id(path) {
                Some(id) => {
                    let ghost before = crate::maintain::pair_texts(out@);
                    let pair = (id, path.clone());
                    out.push(pair);
                    proof {
                        assert(crate::maintain::pair_texts(out@) =~= before.push(
                            (pair.0@, pair.1@),
                        ));
                    }
                },
                None => {},
            }
            i = i + 1;
        }
        out
    }
}

} // verus!
