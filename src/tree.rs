use vstd::prelude::*;

verus! {

/// A 2-3 tree, or a subtree of one.
///
/// `Empty` is the tree with no entries; in a well-formed tree it appears
/// only as the whole tree or as the (absent) children of a bottom node.
/// `Two` holds one entry and two children, `Three` two entries and three.
pub enum CTree<V> {
    Empty,
    Two { left: Box<CTree<V>>, key: u64, val: V, right: Box<CTree<V>> },
    Three {
        left: Box<CTree<V>>,
        key1: u64,
        val1: V,
        mid: Box<CTree<V>>,
        key2: u64,
        val2: V,
        right: Box<CTree<V>>,
    },
}

/// Whether `k` lies above the optional lower bound `lo`.
pub open spec fn above(lo: Option<u64>, k: u64) -> bool {
    match lo {
        Some(b) => b < k,
        None => true,
    }
}

/// Whether `k` lies below the optional upper bound `hi`.
pub open spec fn below(hi: Option<u64>, k: u64) -> bool {
    match hi {
        Some(b) => k < b,
        None => true,
    }
}

impl<V> View for CTree<V> {
    type V = Map<u64, V>;

    open spec fn view(&self) -> Map<u64, V> {
        self.as_map()
    }
}

impl<V> CTree<V> {
    /// The key/value pairs held anywhere in the tree.
    pub open spec fn as_map(self) -> Map<u64, V>
        decreases self,
    {
        match self {
            CTree::Empty => Map::empty(),
            CTree::Two { left, key, val, right } => left.as_map().union_prefer_right(
                right.as_map(),
            ).insert(key, val),
            CTree::Three { left, key1, val1, mid, key2, val2, right } => left.as_map().union_prefer_right(
                mid.as_map(),
            ).union_prefer_right(right.as_map()).insert(key1, val1).insert(key2, val2),
        }
    }

    /// Number of edges from this node down to a bottom node's (absent) children.
    pub open spec fn height(self) -> nat
        decreases self,
    {
        match self {
            CTree::Empty => 0,
            CTree::Two { left, .. } => left.height() + 1,
            CTree::Three { left, .. } => left.height() + 1,
        }
    }

    /// Every bottom node lies at the same depth: all children of a node have
    /// equal height.
    pub open spec fn balanced(self) -> bool
        decreases self,
    {
        match self {
            CTree::Empty => true,
            CTree::Two { left, right, .. } => {
                &&& left.balanced()
                &&& right.balanced()
                &&& left.height() == right.height()
            },
            CTree::Three { left, mid, right, .. } => {
                &&& left.balanced()
                &&& mid.balanced()
                &&& right.balanced()
                &&& left.height() == mid.height()
                &&& mid.height() == right.height()
            },
        }
    }

    /// Search-tree order: the entries of a node increase, and every key of a
    /// child lies strictly between the entries that surround it.
    pub open spec fn ordered(self) -> bool
        decreases self,
    {
        match self {
            CTree::Empty => true,
            CTree::Two { left, key, right, .. } => {
                &&& left.ordered()
                &&& right.ordered()
                &&& forall|k: u64| left.as_map().contains_key(k) ==> k < key
                &&& forall|k: u64| right.as_map().contains_key(k) ==> key < k
            },
            CTree::Three { left, key1, mid, key2, right, .. } => {
                &&& left.ordered()
                &&& mid.ordered()
                &&& right.ordered()
                &&& key1 < key2
                &&& forall|k: u64| left.as_map().contains_key(k) ==> k < key1
                &&& forall|k: u64| mid.as_map().contains_key(k) ==> key1 < k && k < key2
                &&& forall|k: u64| right.as_map().contains_key(k) ==> key2 < k
            },
        }
    }

    /// The keys met by an in-order walk: each child's keys before the entry
    /// that follows it.
    pub open spec fn inorder(self) -> Seq<u64>
        decreases self,
    {
        match self {
            CTree::Empty => Seq::empty(),
            CTree::Two { left, key, right, .. } => left.inorder() + seq![key] + right.inorder(),
            CTree::Three { left, key1, mid, key2, right, .. } => left.inorder() + seq![key1]
                + mid.inorder() + seq![key2] + right.inorder(),
        }
    }

    /// Every absent child lies at depth `d` below this node.
    pub open spec fn leaves_at(self, d: nat) -> bool
        decreases self,
    {
        match self {
            CTree::Empty => d == 0,
            CTree::Two { left, right, .. } => d > 0 && left.leaves_at((d - 1) as nat)
                && right.leaves_at((d - 1) as nat),
            CTree::Three { left, mid, right, .. } => d > 0 && left.leaves_at((d - 1) as nat)
                && mid.leaves_at((d - 1) as nat) && right.leaves_at((d - 1) as nat),
        }
    }

    /// The tree's invariant: ordered and balanced. Entry counts and the
    /// child-per-entry rule hold by the shape of the type, and key
    /// uniqueness follows from the order.
    pub open spec fn wf(self) -> bool {
        self.ordered() && self.balanced()
    }

    /// Number of entries held in this node itself (0, 1 or 2).
    pub open spec fn num_entries(self) -> nat {
        match self {
            CTree::Empty => 0,
            CTree::Two { .. } => 1,
            CTree::Three { .. } => 2,
        }
    }

    /// The key of this node's entry at index `i`.
    pub open spec fn entry_key(self, i: int) -> u64
        recommends
            0 <= i < self.num_entries(),
    {
        match self {
            CTree::Empty => 0,
            CTree::Two { key, .. } => key,
            CTree::Three { key1, key2, .. } => if i == 0 {
                key1
            } else {
                key2
            },
        }
    }

    /// Whether this node itself holds an entry with key `k`.
    pub open spec fn holds_key(self, k: u64) -> bool {
        exists|i: int| 0 <= i < self.num_entries() && self.entry_key(i) == k
    }

    /// No key of `m` lies strictly between `q` and an entry of this node,
    /// but this node's own: `q` falls in the gap this node covers.
    pub open spec fn covers(self, m: Map<u64, V>, q: u64) -> bool {
        forall|k: u64, i: int|
            #![trigger m.contains_key(k), self.entry_key(i)]
            m.contains_key(k) && 0 <= i < self.num_entries() && ((q < k && k < self.entry_key(i)) || (
            self.entry_key(i) < k && k < q)) ==> self.holds_key(k)
    }

    /// A bottom node: no entries, or entries whose children are all absent.
    pub open spec fn is_bottom(self) -> bool {
        self.height() <= 1
    }

    /// Builds the empty tree.
    pub fn new() -> (t: CTree<V>)
        ensures
            t.wf(),
            t@ == Map::<u64, V>::empty(),
            t.height() == 0,
    {
        CTree::Empty
    }

    /// The index of the entry of this node whose key is `query`, if any.
    pub fn find_key_in_entries(&self, query: &u64) -> (r: Option<usize>)
        ensures
            match r {
                Some(i) => i < self.num_entries() && self.entry_key(i as int) == *query,
                None => !self.holds_key(*query),
            },
    {
        match self {
            CTree::Empty => None,
            CTree::Two { key, .. } => {
                if *query == *key {
                    Some(0)
                } else {
                    None
                }
            },
            CTree::Three { key1, key2, .. } => {
                if *query == *key1 {
                    Some(0)
                } else if *query == *key2 {
                    Some(1)
                } else {
                    assert forall|i: int| 0 <= i < 2 implies self.entry_key(i) != *query by {}
                    None
                }
            },
        }
    }
}

impl<V> CTree<V> {
    /// In an ordered node each child's entries appear unchanged in the
    /// node's map, and a key of the node's map that differs from the node's
    /// own keys lies in the child that its position selects.
    pub proof fn lemma_children(self)
        requires
            self.ordered(),
        ensures
            match self {
                CTree::Empty => self@ == Map::<u64, V>::empty(),
                CTree::Two { left, key, val, right } => {
                    &&& left@.submap_of(self@)
                    &&& right@.submap_of(self@)
                    &&& self@.contains_key(key) && self@[key] == val
                    &&& forall|k: u64| #[trigger]
                        self@.contains_key(k) ==> (k == key || (k < key && left@.contains_key(k))
                            || (key < k && right@.contains_key(k)))
                },
                CTree::Three { left, key1, val1, mid, key2, val2, right } => {
                    &&& left@.submap_of(self@)
                    &&& mid@.submap_of(self@)
                    &&& right@.submap_of(self@)
                    &&& self@.contains_key(key1) && self@[key1] == val1
                    &&& self@.contains_key(key2) && self@[key2] == val2
                    &&& forall|k: u64| #[trigger]
                        self@.contains_key(k) ==> (k == key1 || k == key2 || (k < key1
                            && left@.contains_key(k)) || (key1 < k && k < key2 && mid@.contains_key(
                            k)) || (key2 < k && right@.contains_key(k)))
                },
            },
    {
        match self {
            CTree::Empty => {},
            CTree::Two { left, key, val, right } => {
                assert forall|k: u64| left@.contains_key(k) implies self@.contains_key(k)
                    && self@[k] == left@[k] by {
                    assert(!right@.contains_key(k));
                }
            },
            CTree::Three { left, key1, val1, mid, key2, val2, right } => {
                assert forall|k: u64| left@.contains_key(k) implies self@.contains_key(k)
                    && self@[k] == left@[k] by {
                    assert(!right@.contains_key(k));
                    assert(!mid@.contains_key(k));
                }
                assert forall|k: u64| mid@.contains_key(k) implies self@.contains_key(k)
                    && self@[k] == mid@[k] by {
                    assert(!right@.contains_key(k));
                }
            },
        }
    }

    /// Whether this is the tree with no entries.
    pub fn is_empty(&self) -> (r: bool)
        ensures
            r == (self.height() == 0),
            r ==> self@ == Map::<u64, V>::empty(),
    {
        match self {
            CTree::Empty => true,
            _ => false,
        }
    }

    /// Whether this node holds two entries.
    pub fn is_three(&self) -> (r: bool)
        ensures
            r == (self is Three),
    {
        match self {
            CTree::Three { .. } => true,
            _ => false,
        }
    }

    /// A node that covers `q` within a child's map also covers it within
    /// the parent's map, when the parent's keys between the bounds `lo`
    /// and `hi` (which hold `q` and the child's keys) are the child's.
    proof fn lemma_covers_lift(
        self,
        child: Map<u64, V>,
        parent: Map<u64, V>,
        q: u64,
        lo: Option<u64>,
        hi: Option<u64>,
    )
        requires
            self.ordered(),
            self.covers(child, q),
            self@.submap_of(child),
            above(lo, q) && below(hi, q),
            forall|k: u64| #[trigger] child.contains_key(k) ==> above(lo, k) && below(hi, k),
            forall|k: u64|
                #[trigger] parent.contains_key(k) && above(lo, k) && below(hi, k) ==> child.contains_key(k),
        ensures
            self.covers(parent, q),
    {
        self.lemma_children();
        assert forall|k: u64, i: int|
            parent.contains_key(k) && 0 <= i < self.num_entries() && ((q < k && k < self.entry_key(i))
                || (self.entry_key(i) < k && k < q)) implies self.holds_key(k) by {
            assert(self@.contains_key(self.entry_key(i)));
            assert(child.contains_key(self.entry_key(i)));
            assert(child.contains_key(k));
        }
    }

    /// A bottom node covers every query within its own map.
    proof fn lemma_bottom_covers(self, q: u64)
        requires
            self.wf(),
            self.is_bottom(),
        ensures
            self.covers(self@, q),
    {
        self.lemma_children();
        match self {
            CTree::Empty => {},
            CTree::Two { left, right, .. } => {
                assert(left@ == Map::<u64, V>::empty());
                assert(right@ == Map::<u64, V>::empty());
                assert forall|k: u64| self@.contains_key(k) implies self.holds_key(k) by {
                    assert(self.entry_key(0) == k);
                }
            },
            CTree::Three { left, mid, right, .. } => {
                assert(left@ == Map::<u64, V>::empty());
                assert(mid@ == Map::<u64, V>::empty());
                assert(right@ == Map::<u64, V>::empty());
                assert forall|k: u64| self@.contains_key(k) implies self.holds_key(k) by {
                    if self.entry_key(0) != k {
                        assert(self.entry_key(1) == k);
                    }
                }
            },
        }
    }

    /// The node that holds `query`, or, where no node does, the bottom node
    /// at which a search for it ends: the one whose gap `query` falls in.
    pub fn find_node_for_key(&self, query: &u64) -> (r: &CTree<V>)
        requires
            self.wf(),
        ensures
            r.wf(),
            r@.submap_of(self@),
            self@.contains_key(*query) <==> r.holds_key(*query),
            !self@.contains_key(*query) ==> r.is_bottom() && r.covers(self@, *query),
            self.height() > 0 ==> r.height() > 0,
        decreases self,
    {
        proof {
            self.lemma_children();
            if self.is_bottom() {
                self.lemma_bottom_covers(*query);
            }
        }
        match self {
            CTree::Empty => self,
            CTree::Two { left, key, right, .. } => {
                if *query == *key {
                    assert(self.entry_key(0) == *query);
                    self
                } else if *query < *key {
                    if left.is_empty() {
                        self
                    } else {
                        let r = left.find_node_for_key(query);
                        proof {
                            vstd::map_lib::lemma_submap_of_trans(r@, left@, self@);
                            if !self@.contains_key(*query) {
                                r.lemma_covers_lift(left@, self@, *query, None, Some(*key));
                            }
                        }
                        r
                    }
                } else {
                    if right.is_empty() {
                        self
                    } else {
                        let r = right.find_node_for_key(query);
                        proof {
                            vstd::map_lib::lemma_submap_of_trans(r@, right@, self@);
                            if !self@.contains_key(*query) {
                                r.lemma_covers_lift(right@, self@, *query, Some(*key), None);
                            }
                        }
                        r
                    }
                }
            },
            CTree::Three { left, key1, mid, key2, right, .. } => {
                if *query == *key1 {
                    assert(self.entry_key(0) == *query);
                    self
                } else if *query == *key2 {
                    assert(self.entry_key(1) == *query);
                    self
                } else if *query < *key1 {
                    if left.is_empty() {
                        self
                    } else {
                        let r = left.find_node_for_key(query);
                        proof {
                            vstd::map_lib::lemma_submap_of_trans(r@, left@, self@);
                            if !self@.contains_key(*query) {
                                r.lemma_covers_lift(left@, self@, *query, None, Some(*key1));
                            }
                        }
                        r
                    }
                } else if *query < *key2 {
                    if mid.is_empty() {
                        self
                    } else {
                        let r = mid.find_node_for_key(query);
                        proof {
                            vstd::map_lib::lemma_submap_of_trans(r@, mid@, self@);
                            if !self@.contains_key(*query) {
                                r.lemma_covers_lift(mid@, self@, *query, Some(*key1), Some(*key2));
                            }
                        }
                        r
                    }
                } else {
                    if right.is_empty() {
                        self
                    } else {
                        let r = right.find_node_for_key(query);
                        proof {
                            vstd::map_lib::lemma_submap_of_trans(r@, right@, self@);
                            if !self@.contains_key(*query) {
                                r.lemma_covers_lift(right@, self@, *query, Some(*key2), None);
                            }
                        }
                        r
                    }
                }
            },
        }
    }

    /// The value stored under `query`, if any entry has that key.
    pub fn search(&self, query: &u64) -> (r: Option<&V>)
        requires
            self.wf(),
        ensures
            r == (if self@.contains_key(*query) {
                Some(&self@[*query])
            } else {
                None
            }),
    {
        let node = self.find_node_for_key(query);
        proof {
            node.lemma_children();
        }
        match node.find_key_in_entries(query) {
            None => None,
            Some(i) => match node {
                CTree::Empty => None,
                CTree::Two { val, .. } => Some(val),
                CTree::Three { val1, val2, .. } => {
                    if i == 0 {
                        Some(val1)
                    } else {
                        Some(val2)
                    }
                },
            },
        }
    }
}

} // verus!
