//! The tree that a parse produces, and its mathematical model.
use vstd::prelude::*;

verus! {

/// The map that a sequence of `(name, value)` pairs denotes: a later pair wins over an earlier one.
pub open spec fn map_of(es: Seq<(Seq<char>, Seq<char>)>) -> Map<Seq<char>, Seq<char>>
    decreases es.len(),
{
    if es.len() == 0 {
        Map::empty()
    } else {
        map_of(es.drop_last()).insert(es.last().0, es.last().1)
    }
}

pub proof fn lemma_map_of_absent(es: Seq<(Seq<char>, Seq<char>)>, k: Seq<char>)
    requires
        forall|i: int| 0 <= i < es.len() ==> #[trigger] es[i].0 != k,
    ensures
        !map_of(es).contains_key(k),
    decreases es.len(),
{
    if es.len() > 0 {
        assert(es.last().0 == es[es.len() - 1].0);
        assert forall|i: int| 0 <= i < es.drop_last().len() implies #[trigger] es.drop_last()[i].0
            != k by {
            assert(es.drop_last()[i] == es[i]);
        }
        lemma_map_of_absent(es.drop_last(), k);
    }
}

/// The value of a name is the one of its last pair.
pub proof fn lemma_map_of_last(es: Seq<(Seq<char>, Seq<char>)>, i: int)
    requires
        0 <= i < es.len(),
        forall|j: int| i < j < es.len() ==> #[trigger] es[j].0 != es[i].0,
    ensures
        map_of(es).contains_key(es[i].0),
        map_of(es)[es[i].0] == es[i].1,
    decreases es.len(),
{
    if i < es.len() - 1 {
        let d = es.drop_last();
        assert(d[i] == es[i]);
        assert forall|j: int| i < j < d.len() implies #[trigger] d[j].0 != d[i].0 by {
            assert(d[j] == es[j]);
        }
        lemma_map_of_last(d, i);
        assert(es[es.len() - 1].0 != es[i].0);
    }
}

/// Setting the value of the last pair of a name, in place, is an insert into the map.
pub proof fn lemma_map_of_update(es: Seq<(Seq<char>, Seq<char>)>, i: int, v: Seq<char>)
    requires
        0 <= i < es.len(),
        forall|j: int| i < j < es.len() ==> #[trigger] es[j].0 != es[i].0,
    ensures
        map_of(es.update(i, (es[i].0, v))) == map_of(es).insert(es[i].0, v),
    decreases es.len(),
{
    let k = es[i].0;
    let u = es.update(i, (k, v));
    if i == es.len() - 1 {
        assert(u.drop_last() =~= es.drop_last());
        assert(map_of(u) =~= map_of(es).insert(k, v));
    } else {
        let d = es.drop_last();
        assert(u.drop_last() =~= d.update(i, (k, v)));
        assert(d[i] == es[i]);
        assert forall|j: int| i < j < d.len() implies #[trigger] d[j].0 != d[i].0 by {
            assert(d[j] == es[j]);
        }
        lemma_map_of_update(d, i, v);
        assert(es[es.len() - 1].0 != k);
        assert(u.last() == es.last());
        assert(map_of(u) =~= map_of(es).insert(k, v));
    }
}

/// Attribute names with their values. Inserting a name that is present replaces its value in
/// place, so each name is stored once; the order of the entries is no part of the map's meaning.
#[derive(Clone, Debug)]
pub struct AttrMap {
    entries: Vec<(String, String)>,
}

impl AttrMap {
    pub closed spec fn pairs(&self) -> Seq<(Seq<char>, Seq<char>)> {
        self.entries@.map_values(|e: (String, String)| (e.0@, e.1@))
    }

    pub fn new() -> (r: AttrMap)
        ensures
            r@ == Map::<Seq<char>, Seq<char>>::empty(),
            r.pairs().len() == 0,
    {
        let r = AttrMap { entries: Vec::new() };
        assert(r.pairs() =~= Seq::<(Seq<char>, Seq<char>)>::empty());
        r
    }

    /// Position of the last entry named `key`, if any.
    fn find(&self, key: &String) -> (r: Option<usize>)
        ensures
            match r {
                Some(i) => i < self.pairs().len() && self.pairs()[i as int].0 == key@ && forall|j: int|
                    i < j < self.pairs().len() ==> #[trigger] self.pairs()[j].0 != key@,
                None => forall|j: int| 0 <= j < self.pairs().len() ==> #[trigger] self.pairs()[j].0
                    != key@,
            },
    {
        let mut i: usize = self.entries.len();
        while i > 0
            invariant
                i <= self.entries.len(),
                forall|j: int| i <= j < self.pairs().len() ==> #[trigger] self.pairs()[j].0 != key@,
            decreases i,
        {
            if self.entries[i - 1].0 == *key {
                return Some(i - 1);
            }
            i = i - 1;
        }
        None
    }

    /// The value of `key`, if the map has that name.
    pub fn get(&self, key: &String) -> (r: Option<&String>)
        ensures
            r is Some <==> self@.contains_key(key@),
            r is Some ==> r->0@ == self@[key@],
    {
        match self.find(key) {
            Some(i) => {
                proof {
                    lemma_map_of_last(self.pairs(), i as int);
                }
                Some(&self.entries[i].1)
            },
            None => {
                proof {
                    lemma_map_of_absent(self.pairs(), key@);
                }
                None
            },
        }
    }

    /// Sets `key` to `value`; a value that the name already had is replaced.
    pub fn insert(&mut self, key: String, value: String)
        ensures
            final(self)@ == old(self)@.insert(key@, value@),
    {
        let ghost before = self.pairs();
        let ghost k = key@;
        match self.find(&key) {
            Some(i) => {
                self.entries.set(i, (key, value));
                proof {
                    assert(self.pairs() =~= before.update(i as int, (before[i as int].0, value@)));
                    lemma_map_of_update(before, i as int, value@);
                }
            },
            None => {
                self.entries.push((key, value));
                proof {
                    assert(self.pairs() =~= before.push((k, value@)));
                    assert(self.pairs().drop_last() =~= before);
                }
            },
        }
    }
}

impl View for AttrMap {
    type V = Map<Seq<char>, Seq<char>>;

    open spec fn view(&self) -> Map<Seq<char>, Seq<char>> {
        map_of(self.pairs())
    }
}

impl PartialEq for AttrMap {
    /// Two maps are equal when they have the same names with the same values.
    fn eq(&self, other: &AttrMap) -> (r: bool) {
        let mut i: usize = 0;
        while i < self.entries.len()
            invariant
                i <= self.entries.len(),
                forall|j: int|
                    0 <= j < i ==> #[trigger] other@.contains_key(self.pairs()[j].0)
                        && other@[self.pairs()[j].0] == self@[self.pairs()[j].0],
            decreases self.entries.len() - i,
        {
            let key = &self.entries[i].0;
            proof {
                lemma_map_of_domain(self.pairs(), key@);
                assert(self.pairs()[i as int].0 == key@);
            }
            match (other.get(key), self.get(key)) {
                (Some(v), Some(w)) => {
                    if !(*v == *w) {
                        return false;
                    }
                    proof {
                        let k = self.pairs()[i as int].0;
                        assert(k == key@);
                        assert(v@ == w@);
                        assert(other@.contains_key(k) && other@[k] == v@);
                        assert(self@.contains_key(k) && self@[k] == w@);
                    }
                },
                _ => {
                    return false;
                },
            }
            assert forall|j: int|
                0 <= j < i + 1 implies #[trigger] other@.contains_key(self.pairs()[j].0)
                && other@[self.pairs()[j].0] == self@[self.pairs()[j].0] by {
                if j == i {
                    assert(self.pairs()[j].0 == key@);
                }
            }
            i = i + 1;
        }
        let mut j: usize = 0;
        while j < other.entries.len()
            invariant
                j <= other.entries.len(),
                forall|a: int|
                    0 <= a < self.pairs().len() ==> #[trigger] other@.contains_key(self.pairs()[a].0)
                        && other@[self.pairs()[a].0] == self@[self.pairs()[a].0],
                forall|a: int| 0 <= a < j ==> self@.contains_key(#[trigger] other.pairs()[a].0),
            decreases other.entries.len() - j,
        {
            let key = &other.entries[j].0;
            proof {
                lemma_map_of_domain(other.pairs(), key@);
                assert(other.pairs()[j as int].0 == key@);
            }
            if self.get(key).is_none() {
                return false;
            }
            j = j + 1;
        }
        proof {
            assert forall|k: Seq<char>| #[trigger] self@.contains_key(k) implies other@.contains_key(k)
                && other@[k] == self@[k] by {
                lemma_map_of_domain(self.pairs(), k);
            }
            assert forall|k: Seq<char>| #[trigger] other@.contains_key(k) implies self@.contains_key(k) by {
                lemma_map_of_domain(other.pairs(), k);
            }
            assert(self@ =~= other@);
        }
        true
    }
}

impl vstd::std_specs::cmp::PartialEqSpecImpl for AttrMap {
    open spec fn obeys_eq_spec() -> bool {
        true
    }

    open spec fn eq_spec(&self, other: &AttrMap) -> bool {
        self@ == other@
    }
}

/// A name is in the map exactly when some pair carries it.
pub proof fn lemma_map_of_domain(es: Seq<(Seq<char>, Seq<char>)>, k: Seq<char>)
    ensures
        map_of(es).contains_key(k) <==> exists|a: int| 0 <= a < es.len() && #[trigger] es[a].0 == k,
    decreases es.len(),
{
    if es.len() > 0 {
        let d = es.drop_last();
        lemma_map_of_domain(d, k);
        if exists|a: int| 0 <= a < d.len() && #[trigger] d[a].0 == k {
            let a = choose|a: int| 0 <= a < d.len() && #[trigger] d[a].0 == k;
            assert(es[a] == d[a]);
        }
        if exists|a: int| 0 <= a < es.len() && #[trigger] es[a].0 == k {
            let a = choose|a: int| 0 <= a < es.len() && #[trigger] es[a].0 == k;
            if a < d.len() {
                assert(d[a] == es[a]);
            }
        }
    }
}

/// What a node is, apart from its children, over plain values.
pub enum Kind {
    Root,
    Text(Seq<char>),
    Element(Seq<char>, Map<Seq<char>, Seq<char>>),
    Comment(Seq<char>),
    Document(Seq<char>),
}

/// The mathematical model of a node: its kind and its children, in order.
pub struct Tree {
    pub kind: Kind,
    pub children: Seq<Tree>,
}

/// One node of the tree; it owns its children.
#[derive(Debug, PartialEq)]
pub struct Node {
    pub children: Vec<Node>,
    pub node_type: NodeType,
}

#[derive(Debug, PartialEq)]
pub enum NodeType {
    Root,
    Text(String),
    Element(ElementType),
    Comment(String),
    Document(DocumentType),
}

#[derive(Debug, PartialEq)]
pub struct ElementType {
    pub tag_name: String,
    pub attributes: AttrMap,
}

#[derive(Debug, PartialEq)]
pub struct DocumentType {
    pub doctype: String,
}

impl NodeType {
    pub open spec fn kind(&self) -> Kind {
        match self {
            NodeType::Root => Kind::Root,
            NodeType::Text(t) => Kind::Text(t@),
            NodeType::Element(e) => Kind::Element(e.tag_name@, e.attributes@),
            NodeType::Comment(t) => Kind::Comment(t@),
            NodeType::Document(d) => Kind::Document(d.doctype@),
        }
    }
}

/// The model of a node, children included.
pub open spec fn tree_of(n: Node) -> Tree
    decreases n,
{
    Tree {
        kind: n.node_type.kind(),
        children: Seq::new(
            n.children.len() as nat,
            |i: int|
                if 0 <= i < n.children.len() {
                    tree_of(n.children[i])
                } else {
                    Tree { kind: Kind::Root, children: Seq::empty() }
                },
        ),
    }
}

impl View for Node {
    type V = Tree;

    open spec fn view(&self) -> Tree {
        tree_of(*self)
    }
}

/// The root of a document, with no children yet.
pub fn root() -> (r: Node)
    ensures
        r.node_type == NodeType::Root,
        r.children@.len() == 0,
{
    Node { children: Vec::new(), node_type: NodeType::Root }
}

/// A text node holding `data`.
pub fn text(data: String) -> (r: Node)
    ensures
        r.node_type == NodeType::Text(data),
        r.children@.len() == 0,
{
    Node { children: Vec::new(), node_type: NodeType::Text(data) }
}

/// An element named `name` with the attributes `attrs` and the children `children`.
pub fn elem(name: String, attrs: AttrMap, children: Vec<Node>) -> (r: Node)
    ensures
        r.node_type == NodeType::Element(ElementType { tag_name: name, attributes: attrs }),
        r.children == children,
{
    Node {
        children,
        node_type: NodeType::Element(ElementType { tag_name: name, attributes: attrs }),
    }
}

/// A document declaration of type `doctype`.
pub fn document(doctype: String, children: Vec<Node>) -> (r: Node)
    ensures
        r.node_type == NodeType::Document(DocumentType { doctype }),
        r.children == children,
{
    Node { children, node_type: NodeType::Document(DocumentType { doctype }) }
}

/// A comment node holding `data`.
pub fn comment(data: String) -> (r: Node)
    ensures
        r.node_type == NodeType::Comment(data),
        r.children@.len() == 0,
{
    Node { children: Vec::new(), node_type: NodeType::Comment(data) }
}

/// The attributes as `name_value` words joined by ` , `, in the order of the entries.
pub open spec fn attr_words(es: Seq<(Seq<char>, Seq<char>)>) -> Seq<char>
    decreases es.len(),
{
    if es.len() == 0 {
        seq![]
    } else if es.len() == 1 {
        es[0].0 + "_"@ + es[0].1
    } else {
        attr_words(es.drop_last()) + " , "@ + es.last().0 + "_"@ + es.last().1
    }
}

impl ElementType {
    /// The line that describes the element.
    pub open spec fn line(&self) -> Seq<char> {
        "ElementType : tag_name - "@ + self.tag_name@ + ", attributes - "@ + attr_words(
            self.attributes.pairs(),
        )
    }

    pub fn to_string(&self) -> (r: String)
        ensures
            r@ == self.line(),
    {
        let mut words = String::new();
        let mut k: usize = 0;
        let entries = &self.attributes.entries;
        assert(self.attributes.pairs().take(0) =~= seq![]);
        while k < entries.len()
            invariant
                k <= entries.len(),
                entries == &self.attributes.entries,
                words@ == attr_words(self.attributes.pairs().take(k as int)),
            decreases entries.len() - k,
        {
            proof {
                assert(self.attributes.pairs().take(k + 1).drop_last() =~= self.attributes.pairs().take(
                    k as int,
                ));
            }
            if k > 0 {
                words.append(" , ");
            }
            words.append(entries[k].0.as_str());
            words.append("_");
            words.append(entries[k].1.as_str());
            proof {
                if k == 0 {
                    assert(words@ =~= attr_words(self.attributes.pairs().take(1)));
                }
            }
            k = k + 1;
        }
        assert(self.attributes.pairs().take(k as int) =~= self.attributes.pairs());
        let mut r = String::from_str("ElementType : tag_name - ");
        r.append(self.tag_name.as_str());
        r.append(", attributes - ");
        r.append(words.as_str());
        r
    }
}

impl DocumentType {
    /// The line that describes the declaration.
    pub open spec fn line(&self) -> Seq<char> {
        "DocumentType doctype - "@ + self.doctype@
    }

    pub fn to_string(&self) -> (r: String)
        ensures
            r@ == self.line(),
    {
        let mut r = String::from_str("DocumentType doctype - ");
        r.append(self.doctype.as_str());
        r
    }
}

} // verus!
