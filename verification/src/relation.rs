//! The vocabulary of a workspace: which metadata fields are links, which pairs
//! of them are inverses, and which one spans the workspace.

use crate::link::ReferenceStyle;
use crate::path::opt_text;
use crate::text::same_text;
use vstd::prelude::*;

verus! {

/// A metadata field whose values are links.
#[derive(Debug, PartialEq, Eq)]
pub struct Relation {
    /// The field.
    pub name: String,
    /// The field that holds the same links seen from the other end.
    pub inverse: Option<String>,
    /// How links of this relation are authored, where that is its own.
    pub style: Option<ReferenceStyle>,
}

/// What a [`Relation`] holds.
pub struct RelationView {
    pub name: Seq<char>,
    pub inverse: Option<Seq<char>>,
    pub style: Option<ReferenceStyle>,
}

impl View for Relation {
    type V = RelationView;

    open spec fn view(&self) -> RelationView {
        RelationView {
            name: self.name@,
            inverse: opt_text(self.inverse),
            style: self.style,
        }
    }
}

impl Relation {
    /// A relation without an inverse.
    pub fn named(name: &str) -> (r: Relation)
        ensures
            r@ == (RelationView { name: name@, inverse: None, style: None }),
    {
        Relation { name: name.to_owned(), inverse: None, style: None }
    }

    /// A relation with an inverse.
    pub fn paired(name: &str, inverse: &str) -> (r: Relation)
        ensures
            r@ == (RelationView { name: name@, inverse: Some(inverse@), style: None }),
    {
        Relation { name: name.to_owned(), inverse: Some(inverse.to_owned()), style: None }
    }
}

/// The relations of a workspace.
#[derive(Debug, PartialEq, Eq)]
pub struct RelationSet {
    /// The relations, in the order they are gone through.
    pub relations: Vec<Relation>,
    /// The relation that contains every document of the workspace.
    pub spanning: Option<String>,
    /// The relation that points at the configuration.
    pub config: Option<String>,
    /// The relation that points at the recycle bin.
    pub recycle: Option<String>,
}

/// What a [`RelationSet`] holds.
pub struct RelationSetView {
    pub relations: Seq<RelationView>,
    pub spanning: Option<Seq<char>>,
    pub config: Option<Seq<char>>,
    pub recycle: Option<Seq<char>>,
}

impl View for RelationSet {
    type V = RelationSetView;

    open spec fn view(&self) -> RelationSetView {
        RelationSetView {
            relations: self.relations@.map_values(|r: Relation| r@),
            spanning: opt_text(self.spanning),
            config: opt_text(self.config),
            recycle: opt_text(self.recycle),
        }
    }
}

/// The first relation of this name.
pub open spec fn relation_named(relations: Seq<RelationView>, name: Seq<char>) -> Option<
    RelationView,
>
    decreases relations.len(),
{
    if relations.len() == 0 {
        None
    } else if relations[0].name == name {
        Some(relations[0])
    } else {
        relation_named(relations.drop_first(), name)
    }
}

/// The inverse of the relation of this name.
pub open spec fn inverse_of(relations: Seq<RelationView>, name: Seq<char>) -> Option<Seq<char>> {
    match relation_named(relations, name) {
        Some(r) => r.inverse,
        None => None,
    }
}

/// The style of the relation of this name.
pub open spec fn style_of_relation(relations: Seq<RelationView>, name: Seq<char>) -> Option<
    ReferenceStyle,
> {
    match relation_named(relations, name) {
        Some(r) => r.style,
        None => None,
    }
}

impl RelationSet {
    /// No relations.
    pub fn new() -> (r: RelationSet)
        ensures
            r@ == (RelationSetView {
                relations: Seq::empty(),
                spanning: None,
                config: None,
                recycle: None,
            }),
    {
        let r = RelationSet { relations: Vec::new(), spanning: None, config: None, recycle: None };
        proof {
            assert(r@.relations =~= Seq::empty());
        }
        r
    }

    /// The vocabulary of a journal: a tree of contents, cross-references,
    /// replacements and derivations, and the pointers of the root.
    pub fn diaryx() -> (r: RelationSet)
        ensures
            r@.spanning == Some("contents"@),
            r@.config == Some("config"@),
            r@.recycle == Some("recycle_bin"@),
            r@.relations =~= seq![
                RelationView { name: "contents"@, inverse: Some("part_of"@), style: None },
                RelationView { name: "part_of"@, inverse: Some("contents"@), style: None },
                RelationView { name: "links"@, inverse: Some("link_of"@), style: None },
                RelationView { name: "link_of"@, inverse: Some("links"@), style: None },
                RelationView { name: "replaces"@, inverse: Some("replaced_by"@), style: None },
                RelationView { name: "replaced_by"@, inverse: Some("replaces"@), style: None },
                RelationView { name: "derived_from"@, inverse: Some("derivations"@), style: None },
                RelationView { name: "derivations"@, inverse: Some("derived_from"@), style: None },
                RelationView { name: "registry"@, inverse: None, style: None },
                RelationView { name: "config"@, inverse: None, style: None },
                RelationView { name: "deletions"@, inverse: None, style: None },
                RelationView { name: "recycle_bin"@, inverse: None, style: None },
                RelationView { name: "history"@, inverse: None, style: None },
                RelationView { name: "about"@, inverse: None, style: None },
            ],
    {
        let mut v: Vec<Relation> = Vec::new();
        v.push(Relation::paired("contents", "part_of"));
        v.push(Relation::paired("part_of", "contents"));
        v.push(Relation::paired("links", "link_of"));
        v.push(Relation::paired("link_of", "links"));
        v.push(Relation::paired("replaces", "replaced_by"));
        v.push(Relation::paired("replaced_by", "replaces"));
        v.push(Relation::paired("derived_from", "derivations"));
        v.push(Relation::paired("derivations", "derived_from"));
        v.push(Relation::named("registry"));
        v.push(Relation::named("config"));
        v.push(Relation::named("deletions"));
        v.push(Relation::named("recycle_bin"));
        v.push(Relation::named("history"));
        v.push(Relation::named("about"));
        RelationSet {
            relations: v,
            spanning: Some("contents".to_owned()),
            config: Some("config".to_owned()),
            recycle: Some("recycle_bin".to_owned()),
        }
    }

    fn find(&self, name: &str) -> (r: Option<usize>)
        ensures
            match r {
                Some(i) => i < self.relations@.len() && relation_named(self@.relations, name@)
                    == Some(self.relations@[i as int]@),
                None => relation_named(self@.relations, name@) is None,
            },
    {
        let ghost all = self@.relations;
        let mut i: usize = 0;
        proof {
            assert(all.skip(0) =~= all);
        }
        while i < self.relations.len()
            invariant
                i <= self.relations@.len(),
                all == self@.relations,
                relation_named(all, name@) == relation_named(all.skip(i as int), name@),
            decreases self.relations@.len() - i,
        {
            proof {
                assert(all.skip(i as int)[0] == self.relations@[i as int]@);
                assert(all.skip(i as int).drop_first() =~= all.skip(i + 1));
            }
            if same_text(&self.relations[i].name, name) {
                return Some(i);
            }
            i = i + 1;
        }
        None
    }

    /// The inverse of the relation of this name.
    pub fn inverse_for(&self, name: &str) -> (r: Option<String>)
        ensures
            opt_text(r) == inverse_of(self@.relations, name@),
    {
        match self.find(name) {
            Some(i) => match &self.relations[i].inverse {
                Some(inverse) => Some(inverse.clone()),
                None => None,
            },
            None => None,
        }
    }

    /// The style of the relation of this name, where it has one of its own.
    pub fn style_for(&self, name: &str) -> (r: Option<ReferenceStyle>)
        ensures
            r == style_of_relation(self@.relations, name@),
    {
        match self.find(name) {
            Some(i) => self.relations[i].style,
            None => None,
        }
    }
}

} // verus!
