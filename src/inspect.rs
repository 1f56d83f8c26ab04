use vstd::prelude::*;
use crate::tree::{CTree, above, below};

verus! {

impl<V> CTree<V> {
    /// Whether the two trees have the same height, found by walking down
    /// their leftmost paths together.
    pub fn same_height(a: &CTree<V>, b: &CTree<V>) -> (r: bool)
        ensures
            r == (a.height() == b.height()),
        decreases a,
    {
        match a {
            CTree::Empty => b.is_empty(),
            CTree::Two { left: al, .. } | CTree::Three { left: al, .. } => match b {
                CTree::Empty => false,
                CTree::Two { left: bl, .. } | CTree::Three { left: bl, .. } => CTree::same_height(al, bl),
            },
        }
    }

    /// Whether every bottom node lies at the same depth.
    pub fn is_balanced(&self) -> (r: bool)
        ensures
            r == self.balanced(),
        decreases self,
    {
        match self {
            CTree::Empty => true,
            CTree::Two { left, right, .. } => {
                left.is_balanced() && right.is_balanced() && CTree::same_height(left, right)
            },
            CTree::Three { left, mid, right, .. } => {
                left.is_balanced() && mid.is_balanced() && right.is_balanced() && CTree::same_height(
                    left,
                    mid,
                ) && CTree::same_height(mid, right)
            },
        }
    }

    /// Whether the tree is ordered with all its keys strictly between the
    /// optional bounds `lo` and `hi`.
    pub fn is_ordered_within(&self, lo: Option<u64>, hi: Option<u64>) -> (r: bool)
        ensures
            r == (self.ordered() && forall|k: u64| #[trigger]
                self.as_map().contains_key(k) ==> above(lo, k) && below(hi, k)),
        decreases self,
    {
        match self {
            CTree::Empty => true,
            CTree::Two { left, key, right, .. } => {
                let ok = match (lo, hi) {
                    (Some(l), _) if *key <= l => false,
                    (_, Some(h)) if h <= *key => false,
                    _ => true,
                };
                let lok = left.is_ordered_within(lo, Some(*key));
                let rok = right.is_ordered_within(Some(*key), hi);
                let r = ok && lok && rok;
                proof {
                    if r {
                        assert forall|k: u64| left.as_map().contains_key(k) implies k < *key by {
                            assert(left.as_map().contains_key(k));
                        }
                        assert forall|k: u64| right.as_map().contains_key(k) implies *key < k by {
                            assert(right.as_map().contains_key(k));
                        }
                        assert(self.ordered());
                        self.lemma_children();
                    }
                    if self.ordered() && forall|k: u64| self.as_map().contains_key(k) ==> above(lo, k) && below(hi, k) {
                        self.lemma_children();
                        assert(self.as_map().contains_key(*key));
                        assert forall|k: u64| left.as_map().contains_key(k) implies above(lo, k) by {
                            assert(self.as_map().contains_key(k));
                        }
                        assert forall|k: u64| right.as_map().contains_key(k) implies below(hi, k) by {
                            assert(self.as_map().contains_key(k));
                        }
                    }
                }
                r
            },
            CTree::Three { left, key1, mid, key2, right, .. } => {
                let ok = *key1 < *key2 && match (lo, hi) {
                    (Some(l), _) if *key1 <= l => false,
                    (_, Some(h)) if h <= *key2 => false,
                    _ => true,
                };
                let lok = left.is_ordered_within(lo, Some(*key1));
                let mok = mid.is_ordered_within(Some(*key1), Some(*key2));
                let rok = right.is_ordered_within(Some(*key2), hi);
                let r = ok && lok && mok && rok;
                proof {
                    if r {
                        assert forall|k: u64| left.as_map().contains_key(k) implies k < *key1 by {
                            assert(left.as_map().contains_key(k));
                        }
                        assert forall|k: u64| mid.as_map().contains_key(k) implies *key1 < k && k < *key2 by {
                            assert(mid.as_map().contains_key(k));
                        }
                        assert forall|k: u64| right.as_map().contains_key(k) implies *key2 < k by {
                            assert(right.as_map().contains_key(k));
                        }
                        assert(self.ordered());
                        self.lemma_children();
                    }
                    if self.ordered() && forall|k: u64| self.as_map().contains_key(k) ==> above(lo, k) && below(hi, k) {
                        self.lemma_children();
                        assert(self.as_map().contains_key(*key1));
                        assert(self.as_map().contains_key(*key2));
                        assert forall|k: u64| left.as_map().contains_key(k) implies above(lo, k) by {
                            assert(self.as_map().contains_key(k));
                        }
                        assert forall|k: u64| right.as_map().contains_key(k) implies below(hi, k) by {
                            assert(self.as_map().contains_key(k));
                        }
                    }
                }
                r
            },
        }
    }

    /// Full-tree validator: whether the tree is ordered and balanced.
    pub fn is_valid(&self) -> (r: bool)
        ensures
            r == self.wf(),
    {
        self.is_ordered_within(None, None) && self.is_balanced()
    }

    /// Appends the keys of an in-order walk to `out`.
    fn push_keys(&self, out: &mut Vec<u64>)
        ensures
            final(out)@ == old(out)@ + self.inorder(),
        decreases self,
    {
        match self {
            CTree::Empty => {
                assert(out@ =~= out@ + Seq::<u64>::empty());
            },
            CTree::Two { left, key, right, .. } => {
                let ghost start = out@;
                left.push_keys(out);
                out.push(*key);
                right.push_keys(out);
                assert(out@ =~= start + self.inorder());
            },
            CTree::Three { left, key1, mid, key2, right, .. } => {
                let ghost start = out@;
                left.push_keys(out);
                out.push(*key1);
                mid.push_keys(out);
                out.push(*key2);
                right.push_keys(out);
                assert(out@ =~= start + self.inorder());
            },
        }
    }

    /// The keys of the tree in in-order, that is ascending in a
    /// well-formed tree.
    pub fn in_order_keys(&self) -> (r: Vec<u64>)
        ensures
            r@ == self.inorder(),
    {
        let mut out: Vec<u64> = Vec::new();
        self.push_keys(&mut out);
        assert(out@ =~= self.inorder());
        out
    }
}

} // verus!
