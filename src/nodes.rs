//! The value tree: scalars, arrays, dictionaries, comments and documents.

use vstd::prelude::*;

verus! {

/// A number held by a [`Node`]. Exactly one representation is populated.
///
/// A floating-point number is kept as the decimal literal it was read from
/// (for instance `3.14`, `-2.5E10`, `inf`), which is what a reader of the tree
/// converts to its own float type.
#[derive(Clone, Debug, PartialEq)]
pub enum Numeric {
    Integer(i64),
    Float(String),
    UInteger(u64),
    Byte(u8),
    Int32(i32),
    UInt32(u32),
    Int16(i16),
    UInt16(u16),
    Int8(i8),
}

/// The mathematical value of a [`Numeric`].
pub enum NumericView {
    Integer(i64),
    Float(Seq<char>),
    UInteger(u64),
    Byte(u8),
    Int32(i32),
    UInt32(u32),
    Int16(i16),
    UInt16(u16),
    Int8(i8),
}

impl View for Numeric {
    type V = NumericView;

    open spec fn view(&self) -> NumericView {
        match self {
            Numeric::Integer(v) => NumericView::Integer(*v),
            Numeric::Float(t) => NumericView::Float(t@),
            Numeric::UInteger(v) => NumericView::UInteger(*v),
            Numeric::Byte(v) => NumericView::Byte(*v),
            Numeric::Int32(v) => NumericView::Int32(*v),
            Numeric::UInt32(v) => NumericView::UInt32(*v),
            Numeric::Int16(v) => NumericView::Int16(*v),
            Numeric::UInt16(v) => NumericView::UInt16(*v),
            Numeric::Int8(v) => NumericView::Int8(*v),
        }
    }
}

/// A node of the value tree. Every node owns its children.
#[derive(Debug, PartialEq)]
pub enum Node {
    Boolean(bool),
    Number(Numeric),
    Str(String),
    /// An ordered sequence of nodes.
    Array(Vec<Node>),
    /// Text keys, each mapped to one node.
    Dictionary(Dict),
    /// Documentation text; it carries no data.
    Comment(String),
    /// The top-level values of a text holding several documents.
    Document(Vec<Node>),
    /// An explicit absence of value.
    Null,
}

/// The tree a [`Node`] stands for: strings as character sequences, arrays as
/// sequences and dictionaries as maps.
pub enum NodeView {
    Boolean(bool),
    Number(NumericView),
    Str(Seq<char>),
    Array(Seq<NodeView>),
    Dictionary(Map<Seq<char>, NodeView>),
    Comment(Seq<char>),
    Document(Seq<NodeView>),
    Null,
}

impl Node {
    /// The tree this node stands for, children included.
    pub open spec fn tree(self) -> NodeView
        decreases self,
    {
        match self {
            Node::Boolean(b) => NodeView::Boolean(b),
            Node::Number(n) => NodeView::Number(n@),
            Node::Str(s) => NodeView::Str(s@),
            Node::Array(v) => NodeView::Array(trees(v@)),
            Node::Dictionary(d) => NodeView::Dictionary(d.tree()),
            Node::Comment(s) => NodeView::Comment(s@),
            Node::Document(v) => NodeView::Document(trees(v@)),
            Node::Null => NodeView::Null,
        }
    }
}

/// The trees of a sequence of nodes, in order.
pub open spec fn trees(s: Seq<Node>) -> Seq<NodeView>
    decreases s,
{
    if s.len() == 0 {
        Seq::empty()
    } else {
        trees(s.drop_last()).push(s.last().tree())
    }
}

/// The map that a list of entries describes when they are inserted in order,
/// a later entry replacing an earlier one with the same key.
pub open spec fn entries_map(s: Seq<(String, Node)>) -> Map<Seq<char>, Node>
    decreases s.len(),
{
    if s.len() == 0 {
        Map::empty()
    } else {
        entries_map(s.drop_last()).insert(s.last().0@, s.last().1)
    }
}

/// As [`entries_map`], with each node replaced by its tree.
pub open spec fn entries_tree(s: Seq<(String, Node)>) -> Map<Seq<char>, NodeView>
    decreases s,
{
    if s.len() == 0 {
        Map::empty()
    } else {
        entries_tree(s.drop_last()).insert(s.last().0@, s.last().1.tree())
    }
}

/// Whether `i` is the last position of key `k` in `s`.
pub open spec fn is_last_key(s: Seq<(String, Node)>, i: int, k: Seq<char>) -> bool {
    &&& 0 <= i < s.len()
    &&& s[i].0@ == k
    &&& forall|j: int| i < j < s.len() ==> s[j].0@ != k
}

proof fn lemma_entries_last(s: Seq<(String, Node)>, i: int, k: Seq<char>)
    requires
        is_last_key(s, i, k),
    ensures
        entries_map(s).contains_key(k),
        entries_map(s)[k] == s[i].1,
    decreases s.len(),
{
    if i < s.len() - 1 {
        lemma_entries_last(s.drop_last(), i, k);
    }
}

proof fn lemma_entries_absent(s: Seq<(String, Node)>, k: Seq<char>)
    requires
        forall|j: int| 0 <= j < s.len() ==> s[j].0@ != k,
    ensures
        !entries_map(s).contains_key(k),
    decreases s.len(),
{
    if s.len() > 0 {
        lemma_entries_absent(s.drop_last(), k);
    }
}

proof fn lemma_entries_update(s: Seq<(String, Node)>, i: int, p: (String, Node))
    requires
        is_last_key(s, i, p.0@),
    ensures
        entries_map(s.update(i, p)) == entries_map(s).insert(p.0@, p.1),
    decreases s.len(),
{
    let t = s.update(i, p);
    if i == s.len() - 1 {
        assert(t.drop_last() =~= s.drop_last());
        assert(entries_map(t) =~= entries_map(s).insert(p.0@, p.1));
    } else {
        assert(t.drop_last() =~= s.drop_last().update(i, p));
        lemma_entries_update(s.drop_last(), i, p);
        assert(entries_map(t) =~= entries_map(s).insert(p.0@, p.1));
    }
}

proof fn lemma_entries_push(s: Seq<(String, Node)>, p: (String, Node))
    ensures
        entries_map(s.push(p)) == entries_map(s).insert(p.0@, p.1),
        entries_tree(s.push(p)) == entries_tree(s).insert(p.0@, p.1.tree()),
{
    assert(s.push(p).drop_last() =~= s);
}

/// The tree map holds the same keys as the entry map, each with the tree of
/// its node.
proof fn lemma_entries_tree(s: Seq<(String, Node)>)
    ensures
        entries_tree(s).dom() == entries_map(s).dom(),
        forall|k: Seq<char>| #[trigger]
            entries_tree(s).contains_key(k) ==> entries_tree(s)[k] == entries_map(s)[k].tree(),
    decreases s.len(),
{
    if s.len() > 0 {
        lemma_entries_tree(s.drop_last());
        assert(entries_tree(s).dom() =~= entries_map(s).dom());
    }
}

/// The texts of a sequence of strings.
pub open spec fn key_views(r: Seq<String>) -> Seq<Seq<char>> {
    r.map_values(|k: String| k@)
}

/// A key that occurs in `s` has a last position.
proof fn lemma_has_last(s: Seq<(String, Node)>, j: int)
    requires
        0 <= j < s.len(),
    ensures
        exists|i: int| is_last_key(s, i, s[j].0@),
    decreases s.len() - j,
{
    let k = s[j].0@;
    if exists|m: int| j < m < s.len() && s[m].0@ == k {
        let m = choose|m: int| j < m < s.len() && s[m].0@ == k;
        lemma_has_last(s, m);
    } else {
        assert(is_last_key(s, j, k));
    }
}

/// A mapping from text keys to nodes: each key maps to one node, and
/// inserting a key again replaces its node.
///
/// The entries are kept in the order their keys were first inserted, and
/// `==` compares them in that order: two dictionaries with the same keys
/// and nodes but built in another order compare unequal. Contracts speak of
/// the map, in which no order is seen.
#[derive(Debug, PartialEq)]
pub struct Dict {
    entries: Vec<(String, Node)>,
}

impl View for Dict {
    type V = Map<Seq<char>, Node>;

    closed spec fn view(&self) -> Map<Seq<char>, Node> {
        entries_map(self.entries@)
    }
}

impl Dict {
    /// The keys mapped to the trees of their nodes.
    pub closed spec fn tree(self) -> Map<Seq<char>, NodeView>
        decreases self,
    {
        entries_tree(self.entries@)
    }

    /// The tree of a dictionary holds the same keys, each with the tree of
    /// its node.
    pub proof fn lemma_tree(self)
        ensures
            self.tree().dom() == self@.dom(),
            forall|k: Seq<char>| #[trigger]
                self.tree().contains_key(k) ==> self.tree()[k] == self@[k].tree(),
    {
        lemma_entries_tree(self.entries@);
    }

    /// An empty dictionary.
    pub fn new() -> (r: Dict)
        ensures
            r@ == Map::<Seq<char>, Node>::empty(),
            r.tree() == Map::<Seq<char>, NodeView>::empty(),
    {
        Dict { entries: Vec::new() }
    }

    /// The last position of `key`, if it is there.
    fn find(&self, key: &String) -> (r: Option<usize>)
        ensures
            match r {
                Some(i) => is_last_key(self.entries@, i as int, key@),
                None => forall|j: int| 0 <= j < self.entries@.len() ==> self.entries@[j].0@ != key@,
            },
    {
        let mut i: usize = self.entries.len();
        while i > 0
            invariant
                i <= self.entries@.len(),
                forall|j: int| i <= j < self.entries@.len() ==> self.entries@[j].0@ != key@,
            decreases i,
        {
            i = i - 1;
            if self.entries[i].0 == *key {
                return Some(i);
            }
        }
        None
    }

    /// Whether no later entry than `i` has the key of entry `i`.
    fn is_last(&self, i: usize) -> (r: bool)
        requires
            i < self.entries@.len(),
        ensures
            r == is_last_key(self.entries@, i as int, self.entries@[i as int].0@),
    {
        let n = self.entries.len();
        let mut j: usize = i + 1;
        while j < n
            invariant
                n == self.entries@.len(),
                i < j <= n,
                forall|m: int| i < m < j ==> self.entries@[m].0@ != self.entries@[i as int].0@,
            decreases n - j,
        {
            if self.entries[j].0 == self.entries[i].0 {
                return false;
            }
            j = j + 1;
        }
        true
    }

    /// The keys, each once.
    pub fn keys(&self) -> (r: Vec<String>)
        ensures
            key_views(r@).no_duplicates(),
            key_views(r@).to_set() == self@.dom(),
    {
        let ghost s = self.entries@;
        let mut r: Vec<String> = Vec::new();
        let ghost mut at: Seq<int> = Seq::empty();
        let mut i: usize = 0;
        while i < self.entries.len()
            invariant
                s == self.entries@,
                i <= s.len(),
                at.len() == r@.len(),
                forall|a: int| 0 <= a < at.len() ==> 0 <= #[trigger] at[a] < i,
                forall|a: int, b: int| 0 <= a < b < at.len() ==> at[a] < at[b],
                forall|a: int|
                    0 <= a < at.len() ==> r@[a]@ == s[#[trigger] at[a]].0@ && is_last_key(
                        s,
                        at[a],
                        s[at[a]].0@,
                    ),
                forall|j: int|
                    0 <= j < i && is_last_key(s, j, s[j].0@) ==> exists|a: int|
                        0 <= a < at.len() && #[trigger] at[a] == j,
            decreases s.len() - i,
        {
            if self.is_last(i) {
                let k = self.entries[i].0.clone();
                r.push(k);
                proof {
                    let old_at = at;
                    at = at.push(i as int);
                    assert(at[at.len() - 1] == i);
                    assert forall|j: int|
                        0 <= j < i && is_last_key(s, j, s[j].0@) implies exists|a: int|
                        0 <= a < at.len() && #[trigger] at[a] == j by {
                        let a = choose|a: int| 0 <= a < old_at.len() && #[trigger] old_at[a] == j;
                        assert(at[a] == old_at[a]);
                    }
                }
            }
            i = i + 1;
        }
        let ghost kv = key_views(r@);
        assert forall|a: int, b: int| 0 <= a < kv.len() && 0 <= b < kv.len() && a != b implies kv[a]
            != kv[b] by {
            if a < b {
                assert(at[a] < at[b]);
            } else {
                assert(at[b] < at[a]);
            }
        }
        assert forall|k: Seq<char>| kv.to_set().contains(k) <==> self@.contains_key(k) by {
            if kv.to_set().contains(k) {
                let a = choose|a: int| 0 <= a < kv.len() && kv[a] == k;
                lemma_entries_last(s, at[a], k);
            }
            if self@.contains_key(k) {
                if forall|j: int| 0 <= j < s.len() ==> s[j].0@ != k {
                    lemma_entries_absent(s, k);
                }
                let j = choose|j: int| 0 <= j < s.len() && s[j].0@ == k;
                lemma_has_last(s, j);
                let l = choose|l: int| is_last_key(s, l, k);
                let a = choose|a: int| 0 <= a < at.len() && #[trigger] at[a] == l;
                assert(kv[a] == k);
            }
        }
        assert(kv.to_set() =~= self@.dom());
        r
    }

    /// The number of keys.
    pub fn len(&self) -> (r: usize)
        ensures
            r == self@.dom().len(),
    {
        let k = self.keys();
        proof {
            key_views(k@).unique_seq_to_set();
        }
        k.len()
    }

    /// Whether `key` is mapped.
    pub fn contains_key(&self, key: &str) -> (r: bool)
        ensures
            r == self@.contains_key(key@),
    {
        let k = key.to_owned();
        match self.find(&k) {
            Some(i) => {
                proof {
                    lemma_entries_last(self.entries@, i as int, k@);
                }
                true
            },
            None => {
                proof {
                    lemma_entries_absent(self.entries@, k@);
                }
                false
            },
        }
    }

    /// Maps `key` to `value`, replacing what `key` was mapped to before.
    pub fn insert(&mut self, key: String, value: Node)
        ensures
            final(self)@ == old(self)@.insert(key@, value),
            final(self).tree() == old(self).tree().insert(key@, value.tree()),
    {
        let ghost k = key@;
        let ghost v = value;
        match self.find(&key) {
            Some(i) => {
                proof {
                    lemma_entries_update(self.entries@, i as int, (key, value));
                    lemma_entries_tree(self.entries@);
                }
                self.entries.set(i, (key, value));
                proof {
                    lemma_entries_tree(self.entries@);
                    assert(self.tree() =~= old(self).tree().insert(k, v.tree()));
                }
            },
            None => {
                proof {
                    lemma_entries_push(self.entries@, (key, value));
                }
                self.entries.push((key, value));
            },
        }
    }

    /// The node that `key` is mapped to, to be changed in place.
    pub fn at_mut(&mut self, key: &str) -> (r: &mut Node)
        requires
            old(self)@.contains_key(key@),
        ensures
            *r == old(self)@[key@],
            final(self)@ == old(self)@.insert(key@, *final(r)),
    {
        let k = key.to_owned();
        match self.find(&k) {
            Some(i) => {
                proof {
                    lemma_entries_last(self.entries@, i as int, k@);
                    assert forall|v: Node| #[trigger]
                        entries_map(self.entries@.update(i as int, (self.entries@[i as int].0, v)))
                            == entries_map(self.entries@).insert(k@, v) by {
                        lemma_entries_update(self.entries@, i as int, (self.entries@[i as int].0, v));
                    }
                }
                &mut self.entries[i].1
            },
            None => {
                proof {
                    lemma_entries_absent(self.entries@, k@);
                }
                vstd::pervasive::unreached()
            },
        }
    }

    /// The node that `key` is mapped to.
    pub fn at(&self, key: &str) -> (r: &Node)
        requires
            self@.contains_key(key@),
        ensures
            *r == self@[key@],
    {
        let k = key.to_owned();
        match self.find(&k) {
            Some(i) => {
                proof {
                    lemma_entries_last(self.entries@, i as int, k@);
                }
                &self.entries[i].1
            },
            None => {
                proof {
                    lemma_entries_absent(self.entries@, k@);
                }
                vstd::pervasive::unreached()
            },
        }
    }
}

impl Node {
    /// The element at `index` if this is an array that long; `None` for any
    /// other node or index.
    pub fn get(&self, index: usize) -> (r: Option<&Node>)
        ensures
            r is None <==> !(*self is Array && index < self->Array_0@.len()),
            r is Some ==> *r->Some_0 == self->Array_0@[index as int],
    {
        match self {
            Node::Array(arr) => {
                if index < arr.len() {
                    Some(&arr[index])
                } else {
                    None
                }
            },
            _ => None,
        }
    }

    /// The node that `key` is mapped to if this is a dictionary that maps
    /// it; `None` for any other node or key.
    pub fn get_key(&self, key: &str) -> (r: Option<&Node>)
        ensures
            r is None <==> !(*self is Dictionary && self->Dictionary_0@.contains_key(key@)),
            r is Some ==> *r->Some_0 == self->Dictionary_0@[key@],
    {
        match self {
            Node::Dictionary(map) => {
                if map.contains_key(key) {
                    Some(map.at(key))
                } else {
                    None
                }
            },
            _ => None,
        }
    }

    /// The element at `index` of an array node.
    pub fn index(&self, index: usize) -> (r: &Node)
        requires
            self is Array,
            index < self->Array_0@.len(),
        ensures
            *r == self->Array_0@[index as int],
    {
        match self {
            Node::Array(arr) => &arr[index],
            _ => vstd::pervasive::unreached(),
        }
    }

    /// The element at `index` of an array node, to be changed in place.
    pub fn index_mut(&mut self, index: usize) -> (r: &mut Node)
        requires
            *old(self) is Array,
            index < old(self)->Array_0@.len(),
        ensures
            *r == old(self)->Array_0@[index as int],
            *final(self) is Array,
            final(self)->Array_0@ == old(self)->Array_0@.update(index as int, *final(r)),
    {
        match self {
            Node::Array(arr) => &mut arr[index],
            _ => vstd::pervasive::unreached(),
        }
    }

    /// The node that `key` is mapped to in a dictionary node.
    pub fn index_key(&self, key: &str) -> (r: &Node)
        requires
            self is Dictionary,
            self->Dictionary_0@.contains_key(key@),
        ensures
            *r == self->Dictionary_0@[key@],
    {
        match self {
            Node::Dictionary(map) => map.at(key),
            _ => vstd::pervasive::unreached(),
        }
    }

    /// The node that `key` is mapped to in a dictionary node, to be changed
    /// in place.
    pub fn index_key_mut(&mut self, key: &str) -> (r: &mut Node)
        requires
            *old(self) is Dictionary,
            old(self)->Dictionary_0@.contains_key(key@),
        ensures
            *r == old(self)->Dictionary_0@[key@],
            *final(self) is Dictionary,
            final(self)->Dictionary_0@ == old(self)->Dictionary_0@.insert(key@, *final(r)),
    {
        match self {
            Node::Dictionary(map) => map.at_mut(key),
            _ => vstd::pervasive::unreached(),
        }
    }
}

impl From<i64> for Numeric {
    fn from(value: i64) -> Numeric {
        Numeric::Integer(value)
    }
}

impl vstd::std_specs::convert::FromSpecImpl<i64> for Numeric {
    open spec fn obeys_from_spec() -> bool {
        true
    }

    open spec fn from_spec(v: i64) -> Numeric {
        Numeric::Integer(v)
    }
}

impl From<u64> for Numeric {
    fn from(value: u64) -> Numeric {
        Numeric::UInteger(value)
    }
}

impl vstd::std_specs::convert::FromSpecImpl<u64> for Numeric {
    open spec fn obeys_from_spec() -> bool {
        true
    }

    open spec fn from_spec(v: u64) -> Numeric {
        Numeric::UInteger(v)
    }
}

impl From<u8> for Numeric {
    fn from(value: u8) -> Numeric {
        Numeric::Byte(value)
    }
}

impl vstd::std_specs::convert::FromSpecImpl<u8> for Numeric {
    open spec fn obeys_from_spec() -> bool {
        true
    }

    open spec fn from_spec(v: u8) -> Numeric {
        Numeric::Byte(v)
    }
}

impl From<i32> for Numeric {
    fn from(value: i32) -> Numeric {
        Numeric::Int32(value)
    }
}

impl vstd::std_specs::convert::FromSpecImpl<i32> for Numeric {
    open spec fn obeys_from_spec() -> bool {
        true
    }

    open spec fn from_spec(v: i32) -> Numeric {
        Numeric::Int32(v)
    }
}

impl From<u32> for Numeric {
    fn from(value: u32) -> Numeric {
        Numeric::UInt32(value)
    }
}

impl vstd::std_specs::convert::FromSpecImpl<u32> for Numeric {
    open spec fn obeys_from_spec() -> bool {
        true
    }

    open spec fn from_spec(v: u32) -> Numeric {
        Numeric::UInt32(v)
    }
}

impl From<i16> for Numeric {
    fn from(value: i16) -> Numeric {
        Numeric::Int16(value)
    }
}

impl vstd::std_specs::convert::FromSpecImpl<i16> for Numeric {
    open spec fn obeys_from_spec() -> bool {
        true
    }

    open spec fn from_spec(v: i16) -> Numeric {
        Numeric::Int16(v)
    }
}

impl From<u16> for Numeric {
    fn from(value: u16) -> Numeric {
        Numeric::UInt16(value)
    }
}

impl vstd::std_specs::convert::FromSpecImpl<u16> for Numeric {
    open spec fn obeys_from_spec() -> bool {
        true
    }

    open spec fn from_spec(v: u16) -> Numeric {
        Numeric::UInt16(v)
    }
}

impl From<i8> for Numeric {
    fn from(value: i8) -> Numeric {
        Numeric::Int8(value)
    }
}

impl vstd::std_specs::convert::FromSpecImpl<i8> for Numeric {
    open spec fn obeys_from_spec() -> bool {
        true
    }

    open spec fn from_spec(v: i8) -> Numeric {
        Numeric::Int8(v)
    }
}

impl From<i64> for Node {
    fn from(value: i64) -> Node {
        Node::Number(Numeric::Integer(value))
    }
}

impl vstd::std_specs::convert::FromSpecImpl<i64> for Node {
    open spec fn obeys_from_spec() -> bool {
        true
    }

    open spec fn from_spec(v: i64) -> Node {
        Node::Number(Numeric::Integer(v))
    }
}

impl From<u64> for Node {
    fn from(value: u64) -> Node {
        Node::Number(Numeric::UInteger(value))
    }
}

impl vstd::std_specs::convert::FromSpecImpl<u64> for Node {
    open spec fn obeys_from_spec() -> bool {
        true
    }

    open spec fn from_spec(v: u64) -> Node {
        Node::Number(Numeric::UInteger(v))
    }
}

impl From<u8> for Node {
    fn from(value: u8) -> Node {
        Node::Number(Numeric::Byte(value))
    }
}

impl vstd::std_specs::convert::FromSpecImpl<u8> for Node {
    open spec fn obeys_from_spec() -> bool {
        true
    }

    open spec fn from_spec(v: u8) -> Node {
        Node::Number(Numeric::Byte(v))
    }
}

impl From<i32> for Node {
    fn from(value: i32) -> Node {
        Node::Number(Numeric::Int32(value))
    }
}

impl vstd::std_specs::convert::FromSpecImpl<i32> for Node {
    open spec fn obeys_from_spec() -> bool {
        true
    }

    open spec fn from_spec(v: i32) -> Node {
        Node::Number(Numeric::Int32(v))
    }
}

impl From<u32> for Node {
    fn from(value: u32) -> Node {
        Node::Number(Numeric::UInt32(value))
    }
}

impl vstd::std_specs::convert::FromSpecImpl<u32> for Node {
    open spec fn obeys_from_spec() -> bool {
        true
    }

    open spec fn from_spec(v: u32) -> Node {
        Node::Number(Numeric::UInt32(v))
    }
}

impl From<i16> for Node {
    fn from(value: i16) -> Node {
        Node::Number(Numeric::Int16(value))
    }
}

impl vstd::std_specs::convert::FromSpecImpl<i16> for Node {
    open spec fn obeys_from_spec() -> bool {
        true
    }

    open spec fn from_spec(v: i16) -> Node {
        Node::Number(Numeric::Int16(v))
    }
}

impl From<u16> for Node {
    fn from(value: u16) -> Node {
        Node::Number(Numeric::UInt16(value))
    }
}

impl vstd::std_specs::convert::FromSpecImpl<u16> for Node {
    open spec fn obeys_from_spec() -> bool {
        true
    }

    open spec fn from_spec(v: u16) -> Node {
        Node::Number(Numeric::UInt16(v))
    }
}

impl From<i8> for Node {
    fn from(value: i8) -> Node {
        Node::Number(Numeric::Int8(value))
    }
}

impl vstd::std_specs::convert::FromSpecImpl<i8> for Node {
    open spec fn obeys_from_spec() -> bool {
        true
    }

    open spec fn from_spec(v: i8) -> Node {
        Node::Number(Numeric::Int8(v))
    }
}

impl From<bool> for Node {
    fn from(value: bool) -> Node {
        Node::Boolean(value)
    }
}

impl vstd::std_specs::convert::FromSpecImpl<bool> for Node {
    open spec fn obeys_from_spec() -> bool {
        true
    }

    open spec fn from_spec(v: bool) -> Node {
        Node::Boolean(v)
    }
}

impl From<String> for Node {
    fn from(value: String) -> Node {
        Node::Str(value)
    }
}

impl vstd::std_specs::convert::FromSpecImpl<String> for Node {
    open spec fn obeys_from_spec() -> bool {
        true
    }

    open spec fn from_spec(v: String) -> Node {
        Node::Str(v)
    }
}

/// A string node holds a copy of the text; no spec value of `Node` can name
/// that copy, so the contract is stated over the tree.
impl From<&str> for Node {
    fn from(value: &str) -> (r: Node)
        ensures
            r.tree() == NodeView::Str(value@),
    {
        Node::Str(value.to_owned())
    }
}

impl vstd::std_specs::convert::FromSpecImpl<&str> for Node {
    open spec fn obeys_from_spec() -> bool {
        false
    }

    open spec fn from_spec(v: &str) -> Node {
        vstd::pervasive::arbitrary()
    }
}

/// Converts each element, in order, into an array node.
impl<T: Into<Node>> From<Vec<T>> for Node {
    fn from(value: Vec<T>) -> (r: Node)
        ensures
            r is Array,
            r->Array_0@.len() == value@.len(),
            forall|i: int|
                0 <= i < value@.len() ==> call_ensures(
                    T::into,
                    (value@[i],),
                    #[trigger] r->Array_0@[i],
                ),
    {
        let ghost elems = value@;
        let mut rest = value;
        let mut reversed: Vec<Node> = Vec::new();
        while rest.len() > 0
            invariant
                rest@ == elems.subrange(0, rest@.len() as int),
                reversed@.len() + rest@.len() == elems.len(),
                forall|k: int|
                    0 <= k < reversed@.len() ==> call_ensures(
                        T::into,
                        (elems[elems.len() - 1 - k],),
                        #[trigger] reversed@[k],
                    ),
            decreases rest@.len(),
        {
            match rest.pop() {
                Some(x) => {
                    let n: Node = x.into();
                    reversed.push(n);
                },
                None => {},
            }
        }
        let mut out: Vec<Node> = Vec::new();
        while reversed.len() > 0
            invariant
                reversed@.len() + out@.len() == elems.len(),
                forall|k: int|
                    0 <= k < reversed@.len() ==> call_ensures(
                        T::into,
                        (elems[elems.len() - 1 - k],),
                        #[trigger] reversed@[k],
                    ),
                forall|i: int|
                    0 <= i < out@.len() ==> call_ensures(T::into, (elems[i],), #[trigger] out@[i]),
            decreases reversed@.len(),
        {
            match reversed.pop() {
                Some(n) => {
                    out.push(n);
                },
                None => {},
            }
        }
        Node::Array(out)
    }
}

impl<T: Into<Node>> vstd::std_specs::convert::FromSpecImpl<Vec<T>> for Node {
    open spec fn obeys_from_spec() -> bool {
        false
    }

    open spec fn from_spec(v: Vec<T>) -> Node {
        vstd::pervasive::arbitrary()
    }
}

/// Makes a node of any value that converts into one.
pub fn make_node<T: Into<Node>>(value: T) -> (r: Node)
    ensures
        call_ensures(T::into, (value,), r),
{
    value.into()
}

} // verus!
