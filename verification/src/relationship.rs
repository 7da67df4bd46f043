//! Directed, typed links between two entities of the code graph.

use vstd::prelude::*;

use crate::node::{meta_insert, Metadata};

verus! {

/// The kind of link a relationship stands for.
#[derive(Clone, Copy, PartialEq, Eq, Structural, Debug, Hash)]
pub enum RelationshipType {
    Calls,
    Imports,
    Inherits,
    References,
    Implements,
    Contains,
    DependsOn,
}

/// The mathematical reading of a relationship.
pub ghost struct RelV {
    pub relationship_type: RelationshipType,
    pub from_id: Seq<char>,
    pub to_id: Seq<char>,
    pub metadata: Seq<(Seq<char>, Seq<char>)>,
}

/// The identifying triple of a relationship: source, target and kind.
/// Candidate edges are deduplicated by this triple during inference.
pub ghost struct EdgeT {
    pub from_id: Seq<char>,
    pub to_id: Seq<char>,
    pub relationship_type: RelationshipType,
}

/// The triple of one relationship reading.
pub open spec fn triple_of(r: RelV) -> EdgeT {
    EdgeT { from_id: r.from_id, to_id: r.to_id, relationship_type: r.relationship_type }
}

/// A directed, typed edge between two node identifiers.  Referential
/// integrity is not enforced: an edge may name identifiers that are not (or
/// not yet) present in any store; lookups simply miss.
#[derive(Debug)]
pub struct Relationship {
    pub relationship_type: RelationshipType,
    pub from_id: String,
    pub to_id: String,
    pub metadata: Metadata,
}

impl View for Relationship {
    type V = RelV;

    open spec fn view(&self) -> RelV {
        RelV {
            relationship_type: self.relationship_type,
            from_id: self.from_id@,
            to_id: self.to_id@,
            metadata: self.metadata@,
        }
    }
}

impl Relationship {
    /// An edge of the given kind with empty metadata.
    pub fn new(relationship_type: RelationshipType, from_id: String, to_id: String) -> (r:
        Relationship)
        ensures
            r@ == (RelV {
                relationship_type,
                from_id: from_id@,
                to_id: to_id@,
                metadata: Seq::<(Seq<char>, Seq<char>)>::empty(),
            }),
    {
        Relationship { relationship_type, from_id, to_id, metadata: Metadata::new() }
    }

    /// Adds one metadata entry, replacing the value of an existing key.
    pub fn add_metadata(&mut self, key: String, value: String)
        ensures
            final(self)@ == (RelV {
                metadata: meta_insert(old(self)@.metadata, key@, value@),
                ..old(self)@
            }),
    {
        self.metadata.insert(key, value);
    }

    /// The same edge with one metadata entry added.
    pub fn with_metadata(self, key: String, value: String) -> (r: Relationship)
        ensures
            r@ == (RelV { metadata: meta_insert(self@.metadata, key@, value@), ..self@ }),
    {
        let mut e = self;
        e.add_metadata(key, value);
        e
    }
}

impl Clone for Relationship {
    /// A clone reads the same under the view.
    fn clone(&self) -> (r: Self)
        ensures
            r@ == self@,
    {
        Relationship {
            relationship_type: self.relationship_type,
            from_id: self.from_id.clone(),
            to_id: self.to_id.clone(),
            metadata: self.metadata.clone(),
        }
    }
}

} // verus!
