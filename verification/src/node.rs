//! Entities of the code graph: a node is one indexed code construct.

use vstd::prelude::*;

verus! {

/// The kind of code construct a node stands for.
#[derive(Clone, Copy, PartialEq, Eq, Structural, Debug, Hash)]
pub enum NodeType {
    Function,
    Method,
    Class,
    Interface,
    Module,
    TypeDefinition,
    Unknown,
}

/// First index of `s` whose key equals `k`, if any.
pub open spec fn assoc_first<K, V>(s: Seq<(K, V)>, k: K) -> Option<int>
    decreases s.len(),
{
    if s.len() == 0 {
        None
    } else if s[0].0 == k {
        Some(0)
    } else {
        match assoc_first(s.drop_first(), k) {
            Some(i) => Some(i + 1),
            None => None,
        }
    }
}

/// Value stored under the first occurrence of key `k`, if any.
pub open spec fn assoc_get<K, V>(s: Seq<(K, V)>, k: K) -> Option<V> {
    match assoc_first(s, k) {
        Some(i) => Some(s[i].1),
        None => None,
    }
}

/// `assoc_first` finds the first matching key and nothing else.
pub proof fn lemma_assoc_first<K, V>(s: Seq<(K, V)>, k: K)
    ensures
        match assoc_first(s, k) {
            Some(i) => 0 <= i < s.len() && s[i].0 == k && (forall|j: int|
                0 <= j < i ==> s[j].0 != k),
            None => forall|j: int| 0 <= j < s.len() ==> s[j].0 != k,
        },
    decreases s.len(),
{
    if s.len() != 0 && s[0].0 != k {
        lemma_assoc_first(s.drop_first(), k);
        assert forall|j: int| 1 <= j < s.len() implies s[j] == s.drop_first()[j - 1] by {}
    }
}

/// The open string-to-string mapping carried by nodes and relationships.
/// Lookups and replacement go by the first occurrence of a key; the methods
/// never produce a second entry for the same key.
#[derive(Debug)]
pub struct Metadata {
    entries: Vec<(String, String)>,
}

impl View for Metadata {
    type V = Seq<(Seq<char>, Seq<char>)>;

    closed spec fn view(&self) -> Seq<(Seq<char>, Seq<char>)> {
        self.entries@.map_values(|p: (String, String)| (p.0@, p.1@))
    }
}

/// What `Metadata::insert` does to the entry sequence.
pub open spec fn meta_insert(
    s: Seq<(Seq<char>, Seq<char>)>,
    k: Seq<char>,
    v: Seq<char>,
) -> Seq<(Seq<char>, Seq<char>)> {
    match assoc_first(s, k) {
        Some(i) => s.update(i, (k, v)),
        None => s.push((k, v)),
    }
}

impl Metadata {
    /// An empty mapping.
    pub fn new() -> (r: Metadata)
        ensures
            r@ == Seq::<(Seq<char>, Seq<char>)>::empty(),
    {
        let r = Metadata { entries: Vec::new() };
        proof {
            assert(r@ =~= Seq::<(Seq<char>, Seq<char>)>::empty());
        }
        r
    }

    /// Index of the first entry whose key reads `key`, if any.
    fn first_index(&self, key: &String) -> (r: Option<usize>)
        ensures
            match r {
                Some(i) => i < self.entries.len() && assoc_first(self@, key@) == Some(i as int),
                None => assoc_first(self@, key@) is None,
            },
    {
        let n = self.entries.len();
        let mut i: usize = 0;
        while i < n
            invariant
                0 <= i <= n,
                n == self.entries.len(),
                forall|j: int| 0 <= j < i ==> (#[trigger] self@[j]).0 != key@,
            decreases n - i,
        {
            if self.entries[i].0 == *key {
                proof {
                    assert(self@[i as int].0 == key@);
                    lemma_assoc_first(self@, key@);
                    if let Some(f) = assoc_first(self@, key@) {
                        assert(!(f < i)) by {
                            if f < i {
                                assert(self@[f].0 != key@);
                            }
                        }
                        assert(!(f > i));
                    }
                }
                return Some(i);
            }
            i += 1;
        }
        proof {
            lemma_assoc_first(self@, key@);
        }
        None
    }

    /// Associates `value` with `key`, replacing the value of an existing key.
    pub fn insert(&mut self, key: String, value: String)
        ensures
            final(self)@ == meta_insert(old(self)@, key@, value@),
    {
        let idx = self.first_index(&key);
        match idx {
            Some(i) => {
                self.entries[i] = (key, value);
                proof {
                    assert(self@ =~= meta_insert(old(self)@, key@, value@));
                }
            },
            None => {
                self.entries.push((key, value));
                proof {
                    assert(self@ =~= meta_insert(old(self)@, key@, value@));
                }
            },
        }
    }

    /// The value stored under `key`, if any.
    pub fn get(&self, key: &String) -> (r: Option<&String>)
        ensures
            match r {
                Some(v) => assoc_get(self@, key@) == Some(v@),
                None => assoc_get(self@, key@) is None,
            },
    {
        match self.first_index(key) {
            Some(i) => Some(&self.entries[i].1),
            None => None,
        }
    }

    /// The entries in storage order, for callers that serialize the mapping.
    pub fn entries(&self) -> (r: &Vec<(String, String)>)
        ensures
            r@.map_values(|p: (String, String)| (p.0@, p.1@)) == self@,
    {
        &self.entries
    }

    /// Number of entries.
    pub fn len(&self) -> (r: usize)
        ensures
            r == self@.len(),
    {
        self.entries.len()
    }
}

impl Clone for Metadata {
    /// A clone reads the same under the view.
    fn clone(&self) -> (r: Self)
        ensures
            r@ == self@,
    {
        let n = self.entries.len();
        let mut out: Vec<(String, String)> = Vec::new();
        let mut i: usize = 0;
        while i < n
            invariant
                0 <= i <= n,
                n == self.entries.len(),
                out@.len() == i,
                forall|j: int|
                    0 <= j < i ==> (#[trigger] out@[j].0)@ == self.entries@[j].0@
                        && out@[j].1@ == self.entries@[j].1@,
            decreases n - i,
        {
            let k = self.entries[i].0.clone();
            let v = self.entries[i].1.clone();
            out.push((k, v));
            i += 1;
        }
        let r = Metadata { entries: out };
        proof {
            assert(r@ =~= self@);
        }
        r
    }
}

/// The mathematical reading of a node.
pub ghost struct NodeV {
    pub id: Seq<char>,
    pub node_type: NodeType,
    pub name: Seq<char>,
    pub file_path: Seq<char>,
    pub line_start: int,
    pub line_end: int,
    pub content: Seq<char>,
    pub summary: Option<Seq<char>>,
    pub metadata: Seq<(Seq<char>, Seq<char>)>,
}

/// One indexed code construct: immutable identity, mutable descriptive fields.
///
/// `line_range` is inclusive and 1-based, with start at most end.
#[derive(Debug)]
pub struct CodeNode {
    pub id: String,
    pub node_type: NodeType,
    pub name: String,
    pub file_path: String,
    pub line_range: (usize, usize),
    pub content: String,
    pub summary: Option<String>,
    pub metadata: Metadata,
}

impl View for CodeNode {
    type V = NodeV;

    open spec fn view(&self) -> NodeV {
        NodeV {
            id: self.id@,
            node_type: self.node_type,
            name: self.name@,
            file_path: self.file_path@,
            line_start: self.line_range.0 as int,
            line_end: self.line_range.1 as int,
            content: self.content@,
            summary: match self.summary {
                Some(s) => Some(s@),
                None => None,
            },
            metadata: self.metadata@,
        }
    }
}

impl CodeNode {
    /// A node with the given identity and descriptive fields, no summary and
    /// empty metadata.
    pub fn new(
        id: String,
        node_type: NodeType,
        name: String,
        file_path: String,
        line_range: (usize, usize),
        content: String,
    ) -> (r: CodeNode)
        requires
            1 <= line_range.0 <= line_range.1,
        ensures
            r@ == (NodeV {
                id: id@,
                node_type: node_type,
                name: name@,
                file_path: file_path@,
                line_start: line_range.0 as int,
                line_end: line_range.1 as int,
                content: content@,
                summary: None,
                metadata: Seq::<(Seq<char>, Seq<char>)>::empty(),
            }),
    {
        let r = CodeNode {
            id,
            node_type,
            name,
            file_path,
            line_range,
            content,
            summary: None,
            metadata: Metadata::new(),
        };
        r
    }

    /// The same node with its summary set.
    pub fn with_summary(self, summary: String) -> (r: CodeNode)
        ensures
            r@ == (NodeV { summary: Some(summary@), ..self@ }),
    {
        CodeNode { summary: Some(summary), ..self }
    }

    /// Adds one metadata entry, replacing the value of an existing key.
    pub fn add_metadata(&mut self, key: String, value: String)
        ensures
            final(self)@ == (NodeV {
                metadata: meta_insert(old(self)@.metadata, key@, value@),
                ..old(self)@
            }),
    {
        self.metadata.insert(key, value);
    }

    /// The same node with one metadata entry added.
    pub fn with_metadata(self, key: String, value: String) -> (r: CodeNode)
        ensures
            r@ == (NodeV { metadata: meta_insert(self@.metadata, key@, value@), ..self@ }),
    {
        let mut n = self;
        n.add_metadata(key, value);
        n
    }
}

/// Relies on `uuid::Uuid::new_v4` and its `Display` form: a freshly drawn
/// random identifier, rendered hyphenated as 36 characters.  The result
/// depends on the generator's randomness: nothing beyond its shape is
/// promised, and uniqueness holds only with overwhelming probability.
#[verifier::external_body]
fn fresh_node_id() -> (r: String)
    ensures
        r@.len() == 36,
{
    uuid::Uuid::new_v4().to_string()
}

/// A node under a freshly generated random identifier, with no summary and
/// empty metadata.
pub fn create_node(
    node_type: NodeType,
    name: String,
    file_path: &str,
    line_range: (usize, usize),
    content: String,
) -> (r: CodeNode)
    requires
        1 <= line_range.0 <= line_range.1,
    ensures
        r@.id.len() == 36,
        r@ == (NodeV {
            id: r@.id,
            node_type: node_type,
            name: name@,
            file_path: file_path@,
            line_start: line_range.0 as int,
            line_end: line_range.1 as int,
            content: content@,
            summary: None,
            metadata: Seq::<(Seq<char>, Seq<char>)>::empty(),
        }),
{
    CodeNode::new(fresh_node_id(), node_type, name, file_path.to_owned(), line_range, content)
}

impl Clone for CodeNode {
    /// A clone reads the same under the view.
    fn clone(&self) -> (r: Self)
        ensures
            r@ == self@,
    {
        CodeNode {
            id: self.id.clone(),
            node_type: self.node_type,
            name: self.name.clone(),
            file_path: self.file_path.clone(),
            line_range: self.line_range,
            content: self.content.clone(),
            summary: match &self.summary {
                Some(s) => Some(s.clone()),
                None => None,
            },
            metadata: self.metadata.clone(),
        }
    }
}

} // verus!
