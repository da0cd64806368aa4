//! The files of a workspace, and changes to them that land as one.

use crate::error::{Error, Fault};
use crate::text::same_text;
use vstd::prelude::*;

verus! {

/// What a file holds.
#[derive(Debug, PartialEq, Eq)]
pub enum FileData {
    /// Text.
    Text(String),
    /// Bytes that are not text.
    Bytes(Vec<u8>),
}

/// What a [`FileData`] holds.
pub enum FileView {
    Text(Seq<char>),
    Bytes(Seq<u8>),
}

impl View for FileData {
    type V = FileView;

    open spec fn view(&self) -> FileView {
        match self {
            FileData::Text(s) => FileView::Text(s@),
            FileData::Bytes(b) => FileView::Bytes(b@),
        }
    }
}

impl FileData {
    /// A copy of this data.
    pub fn copy(&self) -> (r: FileData)
        ensures
            r@ == self@,
    {
        match self {
            FileData::Text(s) => FileData::Text(s.clone()),
            FileData::Bytes(b) => {
                let mut v: Vec<u8> = Vec::new();
                let mut i: usize = 0;
                while i < b.len()
                    invariant
                        i <= b@.len(),
                        v@ == b@.take(i as int),
                    decreases b@.len() - i,
                {
                    v.push(b[i]);
                    i = i + 1;
                }
                proof {
                    assert(v@ =~= b@);
                }
                FileData::Bytes(v)
            },
        }
    }
}

/// Files by path, in the order they were added.
pub type FileSeq = Seq<(Seq<char>, FileView)>;

/// What is at `path`.
pub open spec fn lookup<V>(files: Seq<(Seq<char>, V)>, path: Seq<char>) -> Option<V>
    decreases files.len(),
{
    if files.len() == 0 {
        None
    } else if files.last().0 == path {
        Some(files.last().1)
    } else {
        lookup(files.drop_last(), path)
    }
}

/// The files without the one at `path`.
pub open spec fn without<V>(files: Seq<(Seq<char>, V)>, path: Seq<char>) -> Seq<(Seq<char>, V)>
    decreases files.len(),
{
    if files.len() == 0 {
        Seq::empty()
    } else if files.last().0 == path {
        without(files.drop_last(), path)
    } else {
        without(files.drop_last(), path).push(files.last())
    }
}

/// The files with the one at `path` replaced, at the end.
pub open spec fn stored<V>(files: Seq<(Seq<char>, V)>, path: Seq<char>, data: V) -> Seq<
    (Seq<char>, V),
> {
    without(files, path).push((path, data))
}

/// Whether there is a file at `path`, or one below it.
pub open spec fn occupied(files: FileSeq, path: Seq<char>) -> bool {
    exists|i: int| 0 <= i < files.len() && crate::path::is_within((#[trigger] files[i]).0, path)
}

/// A removed file is gone, and no other file is.
pub proof fn law_without<V>(files: Seq<(Seq<char>, V)>, path: Seq<char>, other: Seq<char>)
    ensures
        lookup(without(files, path), path) is None,
        other != path ==> lookup(without(files, path), other) == lookup(files, other),
    decreases files.len(),
{
    if files.len() > 0 {
        law_without(files.drop_last(), path, other);
        let rest = without(files.drop_last(), path);
        if files.last().0 != path {
            assert(rest.push(files.last()).drop_last() =~= rest);
        }
    }
}

/// A stored file is read back, and no other file changes.
pub proof fn law_stored<V>(files: Seq<(Seq<char>, V)>, path: Seq<char>, data: V, other: Seq<char>)
    ensures
        lookup(stored(files, path, data), path) == Some(data),
        other != path ==> lookup(stored(files, path, data), other) == lookup(files, other),
{
    law_without(files, path, other);
    let rest = without(files, path);
    assert(rest.push((path, data)).drop_last() =~= rest);
}

/// The files of a workspace by path.
#[derive(Debug, PartialEq, Eq)]
pub struct Files {
    /// The files, with their paths.
    pub entries: Vec<(String, FileData)>,
}

impl View for Files {
    type V = FileSeq;

    open spec fn view(&self) -> FileSeq {
        self.entries@.map_values(|e: (String, FileData)| (e.0@, e.1@))
    }
}

impl Files {
    /// No files.
    pub fn new() -> (r: Files)
        ensures
            r@ == Seq::<(Seq<char>, FileView)>::empty(),
    {
        let r = Files { entries: Vec::new() };
        proof {
            assert(r@ =~= Seq::empty());
        }
        r
    }

    /// What is at `path`.
    pub fn get(&self, path: &str) -> (r: Option<&FileData>)
        ensures
            match r {
                Some(d) => lookup(self@, path@) == Some(d@),
                None => lookup(self@, path@) is None,
            },
    {
        let mut i: usize = self.entries.len();
        proof {
            assert(self@.take(i as int) =~= self@);
        }
        while i > 0
            invariant
                i <= self.entries@.len(),
                lookup(self@, path@) == lookup(self@.take(i as int), path@),
            decreases i,
        {
            proof {
                assert(self@.take(i as int).last() == self@[i - 1]);
                assert(self@.take(i as int).drop_last() =~= self@.take(i - 1));
            }
            if same_text(&self.entries[i - 1].0, path) {
                return Some(&self.entries[i - 1].1);
            }
            i = i - 1;
        }
        None
    }

    /// Whether there is a file at `path`.
    pub fn holds(&self, path: &str) -> (r: bool)
        ensures
            r == (lookup(self@, path@) is Some),
    {
        self.get(path).is_some()
    }

    /// Whether there is a file at `path`, or one below it.
    pub fn occupies(&self, path: &str) -> (r: bool)
        ensures
            r == occupied(self@, path@),
    {
        let mut i: usize = 0;
        while i < self.entries.len()
            invariant
                i <= self.entries@.len(),
                forall|j: int| 0 <= j < i ==> !crate::path::is_within((#[trigger] self@[j]).0, path@),
            decreases self.entries@.len() - i,
        {
            proof {
                assert(self@[i as int].0 == self.entries@[i as int].0@);
            }
            if crate::path::lies_within(&self.entries[i].0, path) {
                return true;
            }
            i = i + 1;
        }
        false
    }

    /// Removes the file at `path`.
    pub fn remove(&mut self, path: &str)
        ensures
            final(self)@ == without(old(self)@, path@),
    {
        let ghost all = self@;
        let mut kept: Vec<(String, FileData)> = Vec::new();
        let mut i: usize = 0;
        proof {
            assert(all.take(0) =~= Seq::empty());
            assert(Files { entries: kept }@ =~= Seq::empty());
        }
        while i < self.entries.len()
            invariant
                i <= self.entries@.len(),
                all == self@,
                kept@.map_values(|e: (String, FileData)| (e.0@, e.1@)) == without(
                    all.take(i as int),
                    path@,
                ),
            decreases self.entries@.len() - i,
        {
            let ghost done = kept@;
            proof {
                assert(all.take(i + 1).drop_last() =~= all.take(i as int));
                assert(all.take(i + 1).last() == all[i as int]);
                assert(all[i as int] == (self.entries@[i as int].0@, self.entries@[i as int].1@));
            }
            if !same_text(&self.entries[i].0, path) {
                let entry = (self.entries[i].0.clone(), self.entries[i].1.copy());
                kept.push(entry);
                proof {
                    assert(kept@.map_values(|e: (String, FileData)| (e.0@, e.1@))
                        =~= done.map_values(|e: (String, FileData)| (e.0@, e.1@)).push(
                        (entry.0@, entry.1@),
                    ));
                }
            }
            i = i + 1;
        }
        proof {
            assert(all.take(i as int) =~= all);
        }
        self.entries = kept;
    }

    /// Stores a file at `path`, in place of the one that is there.
    pub fn store(&mut self, path: &str, data: FileData)
        ensures
            final(self)@ == stored(old(self)@, path@, data@),
    {
        self.remove(path);
        let ghost rest = self@;
        self.entries.push((path.to_owned(), data));
        proof {
            assert(self@ =~= rest.push((path@, data@)));
        }
    }

    /// A copy of these files.
    pub fn copy(&self) -> (r: Files)
        ensures
            r@ == self@,
    {
        let mut v: Vec<(String, FileData)> = Vec::new();
        let mut i: usize = 0;
        while i < self.entries.len()
            invariant
                i <= self.entries@.len(),
                v@.len() == i,
                forall|j: int|
                    0 <= j < i ==> (#[trigger] v@[j]).0@ == self.entries@[j].0@ && v@[j].1@
                        == self.entries@[j].1@,
            decreases self.entries@.len() - i,
        {
            v.push((self.entries[i].0.clone(), self.entries[i].1.copy()));
            i = i + 1;
        }
        let r = Files { entries: v };
        proof {
            assert(r@ =~= self@);
        }
        r
    }
}

/// One change to the files, or a condition on them.
#[derive(Debug, PartialEq, Eq)]
pub enum Op {
    /// The file must hold this text before anything is changed.
    Expect(String, String),
    /// There must be no file here before anything is changed.
    ExpectAbsent(String),
    /// A file is written.
    Write(String, FileData),
    /// A file is renamed.
    Rename(String, String),
    /// A file is removed.
    Remove(String),
}

/// What an [`Op`] holds.
pub enum OpView {
    Expect(Seq<char>, Seq<char>),
    ExpectAbsent(Seq<char>),
    Write(Seq<char>, FileView),
    Rename(Seq<char>, Seq<char>),
    Remove(Seq<char>),
}

impl View for Op {
    type V = OpView;

    open spec fn view(&self) -> OpView {
        match self {
            Op::Expect(p, t) => OpView::Expect(p@, t@),
            Op::ExpectAbsent(p) => OpView::ExpectAbsent(p@),
            Op::Write(p, d) => OpView::Write(p@, d@),
            Op::Rename(a, b) => OpView::Rename(a@, b@),
            Op::Remove(p) => OpView::Remove(p@),
        }
    }
}

/// What a list of changes holds.
pub open spec fn ops_view(ops: Seq<Op>) -> Seq<OpView> {
    ops.map_values(|o: Op| o@)
}

/// A write of text.
pub open spec fn write_text(path: Seq<char>, text: Seq<char>) -> OpView {
    OpView::Write(path, FileView::Text(text))
}

/// A path of a change that leaves the workspace.
pub open spec fn escaping(op: OpView) -> Option<Seq<char>> {
    match op {
        OpView::Expect(p, _) | OpView::ExpectAbsent(p) | OpView::Write(p, _) | OpView::Remove(
            p,
        ) => if crate::path::escapes(p) {
            Some(p)
        } else {
            None
        },
        OpView::Rename(a, b) => if crate::path::escapes(a) {
            Some(a)
        } else if crate::path::escapes(b) {
            Some(b)
        } else {
            None
        },
    }
}

/// Why a change cannot be made over `files`: a path that leaves the workspace,
/// or a condition that does not hold.
pub open spec fn objection(files: FileSeq, op: OpView) -> Option<Fault<Seq<char>>> {
    match escaping(op) {
        Some(p) => Some(Fault::Escape(p)),
        None => match op {
            OpView::Expect(p, t) => if lookup(files, p) == Some(FileView::Text(t)) {
                None
            } else {
                Some(Fault::Drifted(p))
            },
            OpView::ExpectAbsent(p) => if lookup(files, p) is None {
                None
            } else {
                Some(Fault::Drifted(p))
            },
            _ => None,
        },
    }
}

/// The first objection to any of the changes.
pub open spec fn first_objection(files: FileSeq, ops: Seq<OpView>) -> Option<Fault<Seq<char>>>
    decreases ops.len(),
{
    if ops.len() == 0 {
        None
    } else {
        match first_objection(files, ops.drop_last()) {
            Some(e) => Some(e),
            None => objection(files, ops.last()),
        }
    }
}

/// The files after one change.
pub open spec fn changed(files: FileSeq, op: OpView) -> Result<FileSeq, Fault<Seq<char>>> {
    match op {
        OpView::Expect(_, _) | OpView::ExpectAbsent(_) => Ok(files),
        OpView::Write(p, d) => Ok(stored(files, p, d)),
        OpView::Rename(a, b) => match lookup(files, a) {
            Some(d) => Ok(stored(without(files, a), b, d)),
            None => Err(Fault::NotFound(a)),
        },
        OpView::Remove(p) => match lookup(files, p) {
            Some(_) => Ok(without(files, p)),
            None => Err(Fault::NotFound(p)),
        },
    }
}

/// The files after the changes, one after another.
pub open spec fn changed_all(files: FileSeq, ops: Seq<OpView>) -> Result<FileSeq, Fault<Seq<char>>>
    decreases ops.len(),
{
    if ops.len() == 0 {
        Ok(files)
    } else {
        match changed_all(files, ops.drop_last()) {
            Ok(f) => changed(f, ops.last()),
            Err(e) => Err(e),
        }
    }
}

/// The files after a set of changes, or why none of them is made.
pub open spec fn applied(files: FileSeq, ops: Seq<OpView>) -> Result<FileSeq, Fault<Seq<char>>> {
    match first_objection(files, ops) {
        Some(e) => Err(e),
        None => changed_all(files, ops),
    }
}

fn find_escape(op: &Op) -> (r: Option<String>)
    ensures
        crate::path::opt_text(r) == escaping(op@),
{
    match op {
        Op::Expect(p, _) | Op::ExpectAbsent(p) | Op::Write(p, _) | Op::Remove(
            p,
        ) => if crate::path::escapes_root(p) {
            Some(p.clone())
        } else {
            None
        },
        Op::Rename(a, b) => if crate::path::escapes_root(a) {
            Some(a.clone())
        } else if crate::path::escapes_root(b) {
            Some(b.clone())
        } else {
            None
        },
    }
}

/// What an optional fault says.
pub open spec fn fault_opt(e: Option<Error>) -> Option<Fault<Seq<char>>> {
    match e {
        Some(e) => Some(crate::error::fault(e)),
        None => None,
    }
}

impl Files {
    fn object(&self, op: &Op) -> (r: Option<Error>)
        ensures
            fault_opt(r) == objection(self@, op@),
    {
        match find_escape(op) {
            Some(p) => {
                return Some(Fault::Escape(p));
            },
            None => {},
        }
        match op {
            Op::Expect(p, t) => match self.get(p) {
                Some(FileData::Text(s)) => if same_text(s, t) {
                    None
                } else {
                    Some(Fault::Drifted(p.clone()))
                },
                _ => Some(Fault::Drifted(p.clone())),
            },
            Op::ExpectAbsent(p) => match self.get(p) {
                Some(_) => Some(Fault::Drifted(p.clone())),
                None => None,
            },
            _ => None,
        }
    }

    fn change(&mut self, op: &Op) -> (r: Result<(), Error>)
        ensures
            match r {
                Ok(_) => changed(old(self)@, op@) == Ok::<FileSeq, Fault<Seq<char>>>(
                    final(self)@,
                ),
                Err(e) => changed(old(self)@, op@) == Err::<FileSeq, Fault<Seq<char>>>(
                    crate::error::fault(e),
                ) && final(self)@ == old(self)@,
            },
    {
        match op {
            Op::Expect(_, _) | Op::ExpectAbsent(_) => Ok(()),
            Op::Write(p, d) => {
                self.store(p, d.copy());
                Ok(())
            },
            Op::Rename(a, b) => {
                let data = match self.get(a) {
                    Some(d) => d.copy(),
                    None => {
                        return Err(Fault::NotFound(a.clone()));
                    },
                };
                self.remove(a);
                self.store(b, data);
                Ok(())
            },
            Op::Remove(p) => {
                if !self.holds(p) {
                    return Err(Fault::NotFound(p.clone()));
                }
                self.remove(p);
                Ok(())
            },
        }
    }

    /// Makes all of the changes, or none: every condition is tested, and every
    /// path, before the first of them.
    pub fn apply(&mut self, ops: &Vec<Op>) -> (r: Result<(), Error>)
        ensures
            match r {
                Ok(_) => applied(old(self)@, ops_view(ops@)) == Ok::<FileSeq, Fault<Seq<char>>>(
                    final(self)@,
                ),
                Err(e) => applied(old(self)@, ops_view(ops@)) == Err::<FileSeq, Fault<Seq<char>>>(
                    crate::error::fault(e),
                ) && *final(self) == *old(self),
            },
    {
        let ghost all = ops_view(ops@);
        let ghost start = self@;
        let mut i: usize = 0;
        proof {
            assert(all.take(0) =~= Seq::empty());
        }
        while i < ops.len()
            invariant
                i <= ops@.len(),
                all == ops_view(ops@),
                start == self@,
                *self == *old(self),
                first_objection(start, all.take(i as int)) is None,
            decreases ops@.len() - i,
        {
            proof {
                assert(all.take(i + 1).drop_last() =~= all.take(i as int));
                assert(all.take(i + 1).last() == all[i as int]);
                assert(all[i as int] == ops@[i as int]@);
            }
            match self.object(&ops[i]) {
                Some(e) => {
                    proof {
                        lemma_objection_stays(start, all, i + 1);
                    }
                    return Err(e);
                },
                None => {},
            }
            i = i + 1;
        }
        let mut work = self.copy();
        let mut k: usize = 0;
        proof {
            assert(all.take(i as int) =~= all);
        }
        while k < ops.len()
            invariant
                k <= ops@.len(),
                all == ops_view(ops@),
                start == self@,
                *self == *old(self),
                first_objection(start, all) is None,
                changed_all(start, all.take(k as int)) == Ok::<FileSeq, Fault<Seq<char>>>(work@),
            decreases ops@.len() - k,
        {
            proof {
                assert(all.take(k + 1).drop_last() =~= all.take(k as int));
                assert(all.take(k + 1).last() == all[k as int]);
                assert(all[k as int] == ops@[k as int]@);
            }
            match work.change(&ops[k]) {
                Ok(_) => {},
                Err(e) => {
                    proof {
                        lemma_failure_stays(start, all, k + 1);
                    }
                    return Err(e);
                },
            }
            k = k + 1;
        }
        proof {
            assert(all.take(k as int) =~= all);
        }
        self.entries = work.entries;
        Ok(())
    }
}

proof fn lemma_objection_stays(files: FileSeq, ops: Seq<OpView>, n: int)
    requires
        0 <= n <= ops.len(),
        first_objection(files, ops.take(n)) is Some,
    ensures
        first_objection(files, ops) == first_objection(files, ops.take(n)),
    decreases ops.len(),
{
    if n == ops.len() {
        assert(ops.take(n) =~= ops);
    } else {
        assert(ops.drop_last().take(n) =~= ops.take(n));
        lemma_objection_stays(files, ops.drop_last(), n);
    }
}

proof fn lemma_failure_stays(files: FileSeq, ops: Seq<OpView>, n: int)
    requires
        0 <= n <= ops.len(),
        changed_all(files, ops.take(n)) is Err,
    ensures
        changed_all(files, ops) == changed_all(files, ops.take(n)),
    decreases ops.len(),
{
    if n == ops.len() {
        assert(ops.take(n) =~= ops);
    } else {
        assert(ops.drop_last().take(n) =~= ops.take(n));
        lemma_failure_stays(files, ops.drop_last(), n);
    }
}

/// A file that is found is one of the files.
pub proof fn lemma_lookup_at(files: FileSeq, path: Seq<char>) -> (m: int)
    requires
        lookup(files, path) is Some,
    ensures
        0 <= m < files.len(),
        files[m].0 == path,
    decreases files.len(),
{
    if files.last().0 == path {
        files.len() - 1
    } else {
        lemma_lookup_at(files.drop_last(), path)
    }
}

} // verus!
