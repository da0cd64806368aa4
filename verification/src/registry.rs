//! Identifiers: when they are issued, and which documents carry them.

use crate::path::opt_text;
use crate::text::same_text;
use vstd::prelude::*;

verus! {

/// The identifier that moid's minter gives for a seed: six symbols and a check
/// symbol.
pub uninterp spec fn minted(seed: u64) -> Seq<char>;

/// `moid::Minter::mint_seeded` of six symbols of `moid::Alphabet::noid_xdigit`
/// and their check symbol, drawn from `moid::SeededRng::new(seed)`: the
/// identifier is a function of the seed, and one that `moid::Minter::validate`
/// passes.
#[verifier::external_body]
fn mint(seed: u64) -> (r: String)
    ensures
        r@ == minted(seed),
        is_identifier(r@),
{
    moid::Minter::new(moid::Alphabet::noid_xdigit(), 6).mint_seeded(
        &mut moid::SeededRng::new(seed),
    )
}

/// The symbols that identifiers are made of, in order.
pub open spec fn symbols() -> Seq<char> {
    "0123456789bcdfghjkmnpqrstvwxz"@
}

/// The symbols of a text, each by its place among the symbols times its place in the
/// text, added up.
pub open spec fn weighed(text: Seq<char>) -> int
    decreases text.len(),
{
    if text.len() == 0 {
        0
    } else {
        weighed(text.drop_last()) + symbols().index_of(text.last()) * text.len()
    }
}

/// Whether a text is an identifier: six symbols, and a seventh that checks them.
pub open spec fn is_identifier(text: Seq<char>) -> bool {
    &&& text.len() == 7
    &&& forall|i: int| 0 <= i < text.len() ==> symbols().contains(#[trigger] text[i])
    &&& text[6] == symbols()[weighed(text.take(6)) % (symbols().len() as int)]
}

/// `moid::Minter::validate` of the minter that issues the identifiers: a text passes
/// where it is six symbols of `moid::Alphabet::noid_xdigit` and their
/// `moid::Alphabet::check_char`.
#[verifier::external_body]
fn validate(text: &str) -> (r: bool)
    ensures
        r == is_identifier(text@),
{
    moid::Minter::new(moid::Alphabet::noid_xdigit(), 6).validate(text).is_ok()
}

/// Whether a text is an identifier.
pub fn verify(text: &str) -> (r: bool)
    ensures
        r == is_identifier(text@),
{
    validate(text)
}

/// An occasion on which a document may get an identifier.
#[derive(Debug, Clone, Copy, PartialEq, Eq, Structural)]
pub enum Trigger {
    /// A document is created.
    Create,
    /// A document is linked to.
    Link,
    /// A document is published.
    Publish,
}

/// The occasions on which documents get identifiers.
#[derive(Debug, Clone, Copy, PartialEq, Eq, Structural)]
pub struct Registration {
    /// On creation.
    pub on_create: bool,
    /// When it is linked to.
    pub on_link: bool,
    /// When it is published.
    pub on_publish: bool,
}

impl Registration {
    /// No document gets one.
    pub fn off() -> (r: Registration)
        ensures
            r == (Registration { on_create: false, on_link: false, on_publish: false }),
    {
        Registration { on_create: false, on_link: false, on_publish: false }
    }

    /// A document gets one when something needs it.
    pub fn lazy() -> (r: Registration)
        ensures
            r == (Registration { on_create: false, on_link: true, on_publish: true }),
    {
        Registration { on_create: false, on_link: true, on_publish: true }
    }

    /// Every document gets one.
    pub fn eager() -> (r: Registration)
        ensures
            r == (Registration { on_create: true, on_link: true, on_publish: true }),
    {
        Registration { on_create: true, on_link: true, on_publish: true }
    }

    /// Whether a document gets one on this occasion.
    pub open spec fn fires(self, event: Trigger) -> bool {
        match event {
            Trigger::Create => self.on_create,
            Trigger::Link => self.on_link,
            Trigger::Publish => self.on_publish,
        }
    }

    /// Whether a document gets one on this occasion.
    pub fn fires_on(&self, event: Trigger) -> (r: bool)
        ensures
            r == self.fires(event),
    {
        match event {
            Trigger::Create => self.on_create,
            Trigger::Link => self.on_link,
            Trigger::Publish => self.on_publish,
        }
    }
}

/// Where the identifier of a document is kept.
#[derive(Debug, Clone, Copy, PartialEq, Eq, Structural)]
pub enum IdStorage {
    /// In the registry.
    Registry,
    /// In the registry, and in the document.
    Frontmatter,
    /// In the document.
    FrontmatterOnly,
}

impl IdStorage {
    /// Whether the document itself carries its identifier.
    pub open spec fn stamps(self) -> bool {
        self != IdStorage::Registry
    }

    /// Whether the document itself carries its identifier.
    pub fn writes_frontmatter(&self) -> (r: bool)
        ensures
            r == self.stamps(),
    {
        match self {
            IdStorage::Registry => false,
            _ => true,
        }
    }
}

/// Identifiers with the paths that carry them; none for a retired one.
pub type IdSeq = Seq<(Seq<char>, Option<Seq<char>>)>;

/// The path that carries `id`.
pub open spec fn path_of(ids: IdSeq, id: Seq<char>) -> Option<Seq<char>> {
    match crate::files::lookup(ids, id) {
        Some(path) => path,
        None => None,
    }
}

/// Whether `id` was ever issued.
pub open spec fn is_known(ids: IdSeq, id: Seq<char>) -> bool {
    crate::files::lookup(ids, id) is Some
}

/// The identifier that `path` carries.
pub open spec fn id_at(ids: IdSeq, path: Seq<char>) -> Option<Seq<char>>
    decreases ids.len(),
{
    if ids.len() == 0 {
        None
    } else if ids.last().1 == Some(path) {
        Some(ids.last().0)
    } else {
        id_at(ids.drop_last(), path)
    }
}

/// The identifiers with those that `path` carries retired.
pub open spec fn vacated(ids: IdSeq, path: Seq<char>) -> IdSeq
    decreases ids.len(),
{
    if ids.len() == 0 {
        Seq::empty()
    } else if ids.last().1 == Some(path) {
        vacated(ids.drop_last(), path).push((ids.last().0, None))
    } else {
        vacated(ids.drop_last(), path).push(ids.last())
    }
}

/// The identifiers with `id` carried by `path`, and no other one.
pub open spec fn bound(ids: IdSeq, id: Seq<char>, path: Seq<char>) -> IdSeq {
    crate::files::stored(vacated(ids, path), id, Some(path))
}

/// The identifiers with `id` retired.
pub open spec fn retired(ids: IdSeq, id: Seq<char>) -> IdSeq {
    crate::files::stored(ids, id, None)
}

proof fn lemma_vacated(ids: IdSeq, path: Seq<char>, id: Seq<char>)
    ensures
        vacated(ids, path).len() == ids.len(),
        id_at(vacated(ids, path), path) is None,
        path_of(vacated(ids, path), id) == (if path_of(ids, id) == Some(path) {
            None
        } else {
            path_of(ids, id)
        }),
        is_known(vacated(ids, path), id) == is_known(ids, id),
    decreases ids.len(),
{
    if ids.len() > 0 {
        lemma_vacated(ids.drop_last(), path, id);
        let v = vacated(ids, path);
        assert(v.drop_last() =~= vacated(ids.drop_last(), path));
    }
}

/// A registered identifier and its path find each other, every other identifier
/// keeps its path unless it was this one, and no identifier is forgotten.
pub proof fn law_bound(ids: IdSeq, id: Seq<char>, path: Seq<char>, other: Seq<char>)
    ensures
        path_of(bound(ids, id, path), id) == Some(path),
        id_at(bound(ids, id, path), path) == Some(id),
        other != id && path_of(ids, other) != Some(path) ==> path_of(bound(ids, id, path), other)
            == path_of(ids, other),
        other != id && path_of(ids, other) == Some(path) ==> path_of(
            bound(ids, id, path),
            other,
        ) is None,
        is_known(ids, other) ==> is_known(bound(ids, id, path), other),
{
    lemma_vacated(ids, path, other);
    crate::files::law_stored(vacated(ids, path), id, Some(path), other);
    let rest = crate::files::without(vacated(ids, path), id);
    assert(rest.push((id, Some(path))).drop_last() =~= rest);
}

/// A retired identifier is carried by nothing and still known; every other one
/// is as it was.
pub proof fn law_retired(ids: IdSeq, id: Seq<char>, other: Seq<char>)
    ensures
        path_of(retired(ids, id), id) is None,
        is_known(retired(ids, id), id),
        other != id ==> path_of(retired(ids, id), other) == path_of(ids, other),
        is_known(ids, other) ==> is_known(retired(ids, id), other),
{
    crate::files::law_stored(ids, id, None::<Seq<char>>, other);
}

/// Which identifiers were issued, and what carries them.
#[derive(Debug, PartialEq, Eq)]
pub struct Registry {
    /// The identifiers with their paths; none for a retired one.
    pub entries: Vec<(String, Option<String>)>,
}

impl View for Registry {
    type V = IdSeq;

    open spec fn view(&self) -> IdSeq {
        self.entries@.map_values(|e: (String, Option<String>)| (e.0@, opt_text(e.1)))
    }
}

/// A copy of an optional text.
pub fn copy_opt(s: &Option<String>) -> (r: Option<String>)
    ensures
        opt_text(r) == opt_text(*s),
{
    match s {
        Some(t) => Some(t.clone()),
        None => None,
    }
}

impl Registry {
    /// No identifiers.
    pub fn new() -> (r: Registry)
        ensures
            r@ == Seq::<(Seq<char>, Option<Seq<char>>)>::empty(),
    {
        let r = Registry { entries: Vec::new() };
        proof {
            assert(r@ =~= Seq::empty());
        }
        r
    }

    fn find(&self, id: &str) -> (r: Option<usize>)
        ensures
            match r {
                Some(i) => i < self.entries@.len() && crate::files::lookup(self@, id@) == Some(
                    opt_text(self.entries@[i as int].1),
                ),
                None => crate::files::lookup(self@, id@) is None,
            },
    {
        let mut i: usize = self.entries.len();
        proof {
            assert(self@.take(i as int) =~= self@);
        }
        while i > 0
            invariant
                i <= self.entries@.len(),
                crate::files::lookup(self@, id@) == crate::files::lookup(self@.take(i as int), id@),
            decreases i,
        {
            proof {
                assert(self@.take(i as int).last() == self@[i - 1]);
                assert(self@.take(i as int).drop_last() =~= self@.take(i - 1));
            }
            if same_text(&self.entries[i - 1].0, id) {
                return Some(i - 1);
            }
            i = i - 1;
        }
        None
    }

    /// The path that carries `id`.
    pub fn resolve(&self, id: &str) -> (r: Option<String>)
        ensures
            opt_text(r) == path_of(self@, id@),
    {
        match self.find(id) {
            Some(i) => copy_opt(&self.entries[i].1),
            None => None,
        }
    }

    /// Whether `id` was ever issued.
    pub fn knows(&self, id: &str) -> (r: bool)
        ensures
            r == is_known(self@, id@),
    {
        self.find(id).is_some()
    }

    /// The identifier that `path` carries.
    pub fn id_for_path(&self, path: &str) -> (r: Option<String>)
        ensures
            opt_text(r) == id_at(self@, path@),
    {
        let mut i: usize = self.entries.len();
        proof {
            assert(self@.take(i as int) =~= self@);
        }
        while i > 0
            invariant
                i <= self.entries@.len(),
                id_at(self@, path@) == id_at(self@.take(i as int), path@),
            decreases i,
        {
            proof {
                assert(self@.take(i as int).last() == self@[i - 1]);
                assert(self@.take(i as int).drop_last() =~= self@.take(i - 1));
            }
            match &self.entries[i - 1].1 {
                Some(p) => if same_text(p, path) {
                    return Some(self.entries[i - 1].0.clone());
                },
                None => {},
            }
            i = i - 1;
        }
        None
    }

    fn vacate(&mut self, path: &str)
        ensures
            final(self)@ == vacated(old(self)@, path@),
    {
        let ghost all = self@;
        let mut kept: Vec<(String, Option<String>)> = Vec::new();
        let mut i: usize = 0;
        proof {
            assert(all.take(0) =~= Seq::empty());
            assert(Registry { entries: kept }@ =~= Seq::empty());
        }
        while i < self.entries.len()
            invariant
                i <= self.entries@.len(),
                all == self@,
                (Registry { entries: kept })@ == vacated(all.take(i as int), path@),
            decreases self.entries@.len() - i,
        {
            let ghost done = kept;
            proof {
                assert(all.take(i + 1).drop_last() =~= all.take(i as int));
                assert(all.take(i + 1).last() == all[i as int]);
            }
            let id = self.entries[i].0.clone();
            let at = match &self.entries[i].1 {
                Some(p) => if same_text(p, path) {
                    None
                } else {
                    Some(p.clone())
                },
                None => None,
            };
            kept.push((id, at));
            proof {
                assert((Registry { entries: kept })@ =~= (Registry { entries: done })@.push(
                    (id@, opt_text(at)),
                ));
            }
            i = i + 1;
        }
        proof {
            assert(all.take(i as int) =~= all);
        }
        self.entries = kept;
    }

    fn store(&mut self, id: &str, at: Option<String>)
        ensures
            final(self)@ == crate::files::stored(old(self)@, id@, opt_text(at)),
    {
        let ghost all = self@;
        let mut kept: Vec<(String, Option<String>)> = Vec::new();
        let mut i: usize = 0;
        proof {
            assert(all.take(0) =~= Seq::empty());
            assert(Registry { entries: kept }@ =~= Seq::empty());
        }
        while i < self.entries.len()
            invariant
                i <= self.entries@.len(),
                all == self@,
                (Registry { entries: kept })@ == crate::files::without(all.take(i as int), id@),
            decreases self.entries@.len() - i,
        {
            let ghost done = kept;
            proof {
                assert(all.take(i + 1).drop_last() =~= all.take(i as int));
                assert(all.take(i + 1).last() == all[i as int]);
            }
            if !same_text(&self.entries[i].0, id) {
                let entry = (self.entries[i].0.clone(), copy_opt(&self.entries[i].1));
                kept.push(entry);
                proof {
                    assert((Registry { entries: kept })@ =~= (Registry { entries: done })@.push(
                        (entry.0@, opt_text(entry.1)),
                    ));
                }
            }
            i = i + 1;
        }
        proof {
            assert(all.take(i as int) =~= all);
        }
        let ghost done = kept;
        kept.push((id.to_owned(), at));
        proof {
            assert((Registry { entries: kept })@ =~= (Registry { entries: done })@.push(
                (id@, opt_text(at)),
            ));
        }
        self.entries = kept;
    }

    /// Has `path` carry `id`, and nothing else.
    pub fn register(&mut self, id: &str, path: &str)
        ensures
            final(self)@ == bound(old(self)@, id@, path@),
    {
        self.vacate(path);
        self.store(id, Some(path.to_owned()));
    }

    /// Retires `id`: it stays known, and nothing carries it.
    pub fn unregister(&mut self, id: &str)
        ensures
            final(self)@ == retired(old(self)@, id@),
    {
        self.store(id, None);
    }

    /// A copy of this registry.
    pub fn copy(&self) -> (r: Registry)
        ensures
            r@ == self@,
    {
        let mut v: Vec<(String, Option<String>)> = Vec::new();
        let mut i: usize = 0;
        while i < self.entries.len()
            invariant
                i <= self.entries@.len(),
                v@.len() == i,
                forall|j: int|
                    0 <= j < i ==> (#[trigger] v@[j]).0@ == self.entries@[j].0@ && opt_text(v@[j].1)
                        == opt_text(self.entries@[j].1),
            decreases self.entries@.len() - i,
        {
            v.push((self.entries[i].0.clone(), copy_opt(&self.entries[i].1)));
            i = i + 1;
        }
        let r = Registry { entries: v };
        proof {
            assert(r@ =~= self@);
        }
        r
    }
}

/// The seed of the `n`th identifier that a policy issues.
pub open spec fn nth_seed(seed: u64, n: u64) -> u64 {
    ((seed + n * 0x9E37_79B9_7F4A_7C15) % 0x1_0000_0000_0000_0000) as u64
}

/// The number of the first identifier from the `n`th on that was not issued
/// before.
pub open spec fn fresh_from(ids: IdSeq, seed: u64, n: u64) -> Option<u64>
    decreases u64::MAX - n,
{
    if n == u64::MAX {
        None
    } else if !is_known(ids, minted(nth_seed(seed, n))) {
        Some(n)
    } else {
        fresh_from(ids, seed, (n + 1) as u64)
    }
}

fn seed_at(seed: u64, n: u64) -> (r: u64)
    ensures
        r == nth_seed(seed, n),
{
    let k: u64 = 0x9E37_79B9_7F4A_7C15;
    let m: u64 = n.wrapping_mul(k);
    proof {
        vstd::arithmetic::div_mod::lemma_add_mod_noop(
            seed as int,
            n * k,
            0x1_0000_0000_0000_0000,
        );
        vstd::arithmetic::div_mod::lemma_add_mod_noop(
            seed as int,
            m as int,
            0x1_0000_0000_0000_0000,
        );
    }
    seed.wrapping_add(m)
}

/// The first identifier from the `n`th on that was not issued before, and the
/// number of the one after it.
pub fn issue(ids: &Registry, seed: u64, n: u64) -> (r: Option<(String, u64)>)
    ensures
        match (r, fresh_from(ids@, seed, n)) {
            (Some((id, next)), Some(k)) => id@ == minted(nth_seed(seed, k)) && next == k + 1
                && is_identifier(id@),
            (None, None) => true,
            _ => false,
        },
{
    let mut k: u64 = n;
    while k < u64::MAX
        invariant
            n <= k <= u64::MAX,
            fresh_from(ids@, seed, n) == fresh_from(ids@, seed, k),
        decreases u64::MAX - k,
    {
        let id = mint(seed_at(seed, k));
        if !ids.knows(&id) {
            return Some((id, k + 1));
        }
        k = k + 1;
    }
    None
}

/// An issued identifier was never issued before.
pub proof fn law_fresh(ids: IdSeq, seed: u64, n: u64)
    ensures
        match fresh_from(ids, seed, n) {
            Some(k) => n <= k && !is_known(ids, minted(nth_seed(seed, k))),
            None => true,
        },
    decreases u64::MAX - n,
{
    if n < u64::MAX && is_known(ids, minted(nth_seed(seed, n))) {
        law_fresh(ids, seed, (n + 1) as u64);
    }
}

/// Identifiers that stand once each, no two of them carried by the same path.
pub open spec fn is_sound(ids: IdSeq) -> bool {
    forall|i: int, j: int|
        0 <= i < j < ids.len() ==> (#[trigger] ids[i]).0 != (#[trigger] ids[j]).0 && (
        ids[i].1 is Some ==> ids[i].1 != ids[j].1)
}

proof fn lemma_sound_drop(ids: IdSeq)
    requires
        is_sound(ids),
        ids.len() > 0,
    ensures
        is_sound(ids.drop_last()),
        forall|i: int|
            0 <= i < ids.len() - 1 ==> (#[trigger] ids[i]).0 != ids.last().0 && (ids[i].1 is Some
                ==> ids[i].1 != ids.last().1),
{
    let rest = ids.drop_last();
    let n = ids.len() - 1;
    assert forall|i: int, j: int| 0 <= i < j < rest.len() implies (#[trigger] rest[i]).0 != (
    #[trigger] rest[j]).0 && (rest[i].1 is Some ==> rest[i].1 != rest[j].1) by {
        assert(ids[i].0 != ids[j].0);
    }
    assert forall|i: int| 0 <= i < n implies (#[trigger] ids[i]).0 != ids.last().0 && (
    ids[i].1 is Some ==> ids[i].1 != ids.last().1) by {
        assert(ids[n] == ids.last());
    }
}

proof fn lemma_sound_push(ids: IdSeq, entry: (Seq<char>, Option<Seq<char>>))
    requires
        is_sound(ids),
        forall|i: int|
            0 <= i < ids.len() ==> (#[trigger] ids[i]).0 != entry.0 && (ids[i].1 is Some
                ==> ids[i].1 != entry.1),
    ensures
        is_sound(ids.push(entry)),
{
    let more = ids.push(entry);
    assert forall|i: int, j: int| 0 <= i < j < more.len() implies (#[trigger] more[i]).0 != (
    #[trigger] more[j]).0 && (more[i].1 is Some ==> more[i].1 != more[j].1) by {
        assert(more[i] == ids[i]);
        if j < ids.len() {
            assert(more[j] == ids[j]);
        }
    }
}

proof fn lemma_sound_without(ids: IdSeq, id: Seq<char>)
    requires
        is_sound(ids),
    ensures
        is_sound(crate::files::without(ids, id)),
        forall|i: int|
            0 <= i < crate::files::without(ids, id).len() ==> ids.contains(
                #[trigger] crate::files::without(ids, id)[i],
            ) && crate::files::without(ids, id)[i].0 != id,
    decreases ids.len(),
{
    if ids.len() > 0 {
        let rest = ids.drop_last();
        let last = ids.last();
        let n = ids.len() - 1;
        lemma_sound_drop(ids);
        lemma_sound_without(rest, id);
        let before = crate::files::without(rest, id);
        let after = crate::files::without(ids, id);
        assert(ids[n] == last);
        assert forall|i: int| 0 <= i < before.len() implies ids.contains(#[trigger] before[i])
            && before[i].0 != last.0 && (before[i].1 is Some ==> before[i].1 != last.1) by {
            let k = choose|k: int| 0 <= k < rest.len() && rest[k] == before[i];
            assert(ids[k] == before[i]);
        }
        if last.0 != id {
            lemma_sound_push(before, last);
            assert forall|i: int| 0 <= i < after.len() implies ids.contains(#[trigger] after[i])
                && after[i].0 != id by {
                if i < before.len() {
                    assert(after[i] == before[i]);
                } else {
                    assert(after[i] == ids[n]);
                }
            }
        }
    }
}

proof fn lemma_sound_vacated(ids: IdSeq, path: Seq<char>)
    requires
        is_sound(ids),
    ensures
        is_sound(vacated(ids, path)),
        vacated(ids, path).len() == ids.len(),
        forall|i: int|
            0 <= i < ids.len() ==> (#[trigger] vacated(ids, path)[i]).0 == ids[i].0 && vacated(
                ids,
                path,
            )[i].1 != Some(path) && (vacated(ids, path)[i].1 is Some ==> vacated(ids, path)[i].1
                == ids[i].1),
    decreases ids.len(),
{
    if ids.len() > 0 {
        let rest = ids.drop_last();
        lemma_sound_drop(ids);
        lemma_sound_vacated(rest, path);
        let before = vacated(rest, path);
        let last = vacated(ids, path).last();
        assert forall|i: int| 0 <= i < before.len() implies (#[trigger] before[i]).0 != last.0 && (
        before[i].1 is Some ==> before[i].1 != last.1) by {
            assert(rest[i] == ids[i]);
        }
        lemma_sound_push(before, last);
        assert forall|i: int| 0 <= i < ids.len() implies (#[trigger] vacated(ids, path)[i]).0
            == ids[i].0 && vacated(ids, path)[i].1 != Some(path) && (vacated(ids, path)[i].1 is Some
            ==> vacated(ids, path)[i].1 == ids[i].1) by {
            if i < rest.len() {
                assert(vacated(ids, path)[i] == before[i]);
                assert(rest[i] == ids[i]);
            }
        }
    }
}

/// No identifiers are sound, and registering one or retiring one keeps them so.
pub proof fn law_sound_kept(ids: IdSeq, id: Seq<char>, path: Seq<char>)
    ensures
        is_sound(Seq::<(Seq<char>, Option<Seq<char>>)>::empty()),
        is_sound(ids) ==> is_sound(bound(ids, id, path)) && is_sound(retired(ids, id)),
{
    if is_sound(ids) {
        lemma_sound_vacated(ids, path);
        let free = vacated(ids, path);
        lemma_sound_without(free, id);
        let rest = crate::files::without(free, id);
        assert forall|i: int| 0 <= i < rest.len() implies (#[trigger] rest[i]).0 != id && (
        rest[i].1 is Some ==> rest[i].1 != Some(path)) by {
            let k = choose|k: int| 0 <= k < free.len() && free[k] == rest[i];
            assert(free[k].1 != Some(path));
        }
        lemma_sound_push(rest, (id, Some(path)));
        lemma_sound_without(ids, id);
        lemma_sound_push(crate::files::without(ids, id), (id, None));
    }
}

/// Of sound identifiers, a path carries an identifier exactly where the identifier
/// leads to the path.
pub proof fn law_sound_agrees(ids: IdSeq, id: Seq<char>, path: Seq<char>)
    requires
        is_sound(ids),
    ensures
        id_at(ids, path) == Some(id) <==> path_of(ids, id) == Some(path),
    decreases ids.len(),
{
    if ids.len() > 0 {
        let rest = ids.drop_last();
        let last = ids.last();
        lemma_sound_drop(ids);
        law_sound_agrees(rest, id, path);
        if last.1 == Some(path) && last.0 != id {
            lemma_absent_path(rest, path);
            law_sound_agrees(rest, id, path);
        }
        if last.0 == id && last.1 != Some(path) {
            lemma_absent_id(rest, id);
            law_sound_agrees(rest, id, path);
        }
    }
}

proof fn lemma_absent_path(ids: IdSeq, path: Seq<char>)
    requires
        forall|i: int| 0 <= i < ids.len() ==> (#[trigger] ids[i]).1 != Some(path),
    ensures
        id_at(ids, path) is None,
    decreases ids.len(),
{
    if ids.len() > 0 {
        let rest = ids.drop_last();
        assert forall|i: int| 0 <= i < rest.len() implies (#[trigger] rest[i]).1 != Some(path) by {
            assert(ids[i].1 != Some(path));
        }
        lemma_absent_path(rest, path);
        assert(ids[ids.len() - 1].1 != Some(path));
    }
}

proof fn lemma_absent_id(ids: IdSeq, id: Seq<char>)
    requires
        forall|i: int| 0 <= i < ids.len() ==> (#[trigger] ids[i]).0 != id,
    ensures
        path_of(ids, id) is None,
    decreases ids.len(),
{
    if ids.len() > 0 {
        let rest = ids.drop_last();
        assert forall|i: int| 0 <= i < rest.len() implies (#[trigger] rest[i]).0 != id by {
            assert(ids[i].0 != id);
        }
        lemma_absent_id(rest, id);
        assert(ids[ids.len() - 1].0 != id);
    }
}

/// Whether every identifier that led to a path leads there still.
pub open spec fn keeps_paths(before: IdSeq, after: IdSeq) -> bool {
    forall|id: Seq<char>|
        #[trigger] path_of(before, id) is Some ==> path_of(after, id) == path_of(before, id)
}

proof fn lemma_path_is_known(ids: IdSeq, id: Seq<char>)
    requires
        path_of(ids, id) is Some,
    ensures
        is_known(ids, id),
{
}

/// A path that gets an identifier which was not known takes none from another one.
pub proof fn law_fresh_keeps_paths(ids: IdSeq, seed: u64, n: u64, path: Seq<char>)
    requires
        is_sound(ids),
        id_at(ids, path) is None,
        fresh_from(ids, seed, n) is Some,
    ensures
        ({
            let id = minted(nth_seed(seed, fresh_from(ids, seed, n)->Some_0));
            keeps_paths(ids, bound(ids, id, path)) && is_sound(bound(ids, id, path))
        }),
{
    let id = minted(nth_seed(seed, fresh_from(ids, seed, n)->Some_0));
    law_fresh(ids, seed, n);
    law_sound_kept(ids, id, path);
    assert forall|other: Seq<char>| #[trigger] path_of(ids, other) is Some implies path_of(
        bound(ids, id, path),
        other,
    ) == path_of(ids, other) by {
        lemma_path_is_known(ids, other);
        law_sound_agrees(ids, other, path);
        law_bound(ids, id, path, other);
    }
}

} // verus!
