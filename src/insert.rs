use vstd::prelude::*;
use crate::tree::CTree;

verus! {

/// What inserting into a subtree hands back to its parent.
pub enum Inserted<V> {
    /// The subtree took the entry and kept its height.
    Fits(CTree<V>),
    /// The subtree overflowed and split into two halves of its former
    /// height, with the middle entry promoted between them.
    Split(CTree<V>, u64, V, CTree<V>),
}

impl<V> Inserted<V> {
    /// The subtree this outcome stands for; a split reads as a two-node.
    pub open spec fn tree(self) -> CTree<V> {
        match self {
            Inserted::Fits(t) => t,
            Inserted::Split(l, k, v, r) => CTree::Two {
                left: Box::new(l),
                key: k,
                val: v,
                right: Box::new(r),
            },
        }
    }

    /// Height of the outcome as seen by the parent: that of a kept subtree,
    /// or that of each half of a split.
    pub open spec fn level(self) -> nat {
        match self {
            Inserted::Fits(t) => t.height(),
            Inserted::Split(l, _, _, _) => l.height(),
        }
    }

    /// Turns the outcome into a tree; a split grows a new root.
    pub fn into_tree(self) -> (t: CTree<V>)
        ensures
            t == self.tree(),
    {
        match self {
            Inserted::Fits(t) => t,
            Inserted::Split(l, k, v, r) => CTree::Two {
                left: Box::new(l),
                key: k,
                val: v,
                right: Box::new(r),
            },
        }
    }
}

/// The two-node with the entry `a`, `va` between the children `left` and
/// `right`.
pub open spec fn two<V>(left: CTree<V>, a: u64, va: V, right: CTree<V>) -> CTree<V> {
    CTree::Two { left: Box::new(left), key: a, val: va, right: Box::new(right) }
}

/// The three-node with the entries `a`, `va` and `b`, `vb` between the
/// children `left`, `mid` and `right`.
pub open spec fn three<V>(
    left: CTree<V>,
    a: u64,
    va: V,
    mid: CTree<V>,
    b: u64,
    vb: V,
    right: CTree<V>,
) -> CTree<V> {
    CTree::Three {
        left: Box::new(left),
        key1: a,
        val1: va,
        mid: Box::new(mid),
        key2: b,
        val2: vb,
        right: Box::new(right),
    }
}

/// Absorbs the outcome of inserting into the left child of a two-node.
fn two_left<V>(sub: Inserted<V>, a: u64, va: V, right: Box<CTree<V>>) -> (r: Inserted<V>)
    requires
        two(sub.tree(), a, va, *right).ordered(),
        sub.tree().balanced(),
        right.balanced(),
        sub.level() == right.height(),
    ensures
        r.tree().wf(),
        r.tree()@ == two(sub.tree(), a, va, *right)@,
        r.level() == right.height() + 1,
        sub is Fits ==> r is Fits,
{
    proof {
        assert(sub.tree().ordered());
        sub.tree().lemma_children();
    }
    match sub {
        Inserted::Fits(l) => Inserted::Fits(CTree::Two { left: Box::new(l), key: a, val: va, right }),
        Inserted::Split(l1, b, vb, l2) => {
            assert forall|k: u64| l2@.contains_key(k) implies b < k && k < a by {
                assert(sub.tree()@.contains_key(k));
            }
            let r = Inserted::Fits(
                CTree::Three {
                    left: Box::new(l1),
                    key1: b,
                    val1: vb,
                    mid: Box::new(l2),
                    key2: a,
                    val2: va,
                    right,
                },
            );
            assert(sub.tree()@ == l1@.union_prefer_right(l2@).insert(b, vb));
            assert(!right@.contains_key(b));
            assert(r.tree()@ =~= two(sub.tree(), a, va, *right)@);
            r
        },
    }
}

/// Absorbs the outcome of inserting into the right child of a two-node.
fn two_right<V>(left: Box<CTree<V>>, a: u64, va: V, sub: Inserted<V>) -> (r: Inserted<V>)
    requires
        two(*left, a, va, sub.tree()).ordered(),
        sub.tree().balanced(),
        left.balanced(),
        sub.level() == left.height(),
    ensures
        r.tree().wf(),
        r.tree()@ == two(*left, a, va, sub.tree())@,
        r.level() == left.height() + 1,
        sub is Fits ==> r is Fits,
{
    proof {
        assert(sub.tree().ordered());
        sub.tree().lemma_children();
    }
    match sub {
        Inserted::Fits(r0) => Inserted::Fits(CTree::Two { left, key: a, val: va, right: Box::new(r0) }),
        Inserted::Split(r1, b, vb, r2) => {
            assert forall|k: u64| r1@.contains_key(k) implies a < k && k < b by {
                assert(sub.tree()@.contains_key(k));
            }
            let r = Inserted::Fits(
                CTree::Three {
                    left,
                    key1: a,
                    val1: va,
                    mid: Box::new(r1),
                    key2: b,
                    val2: vb,
                    right: Box::new(r2),
                },
            );
            assert(sub.tree()@ == r1@.union_prefer_right(r2@).insert(b, vb));
            assert(!left@.contains_key(b));
            assert forall|k: u64| left@.contains_key(k) implies !r1@.contains_key(k) && !r2@.contains_key(k) by {
                assert(k < a);
            }
            assert(r.tree()@ =~= two(*left, a, va, sub.tree())@);
            r
        },
    }
}

/// Absorbs the outcome of inserting into the left child of a three-node;
/// a split there splits this node too.
fn three_left<V>(
    sub: Inserted<V>,
    a: u64,
    va: V,
    mid: Box<CTree<V>>,
    b: u64,
    vb: V,
    right: Box<CTree<V>>,
) -> (r: Inserted<V>)
    requires
        three(sub.tree(), a, va, *mid, b, vb, *right).ordered(),
        sub.tree().balanced(),
        mid.balanced(),
        right.balanced(),
        sub.level() == mid.height(),
        mid.height() == right.height(),
    ensures
        r.tree().wf(),
        r.tree()@ == three(sub.tree(), a, va, *mid, b, vb, *right)@,
        r.level() == mid.height() + 1,
        sub is Fits ==> r is Fits,
{
    proof {
        assert(sub.tree().ordered());
        sub.tree().lemma_children();
    }
    match sub {
        Inserted::Fits(l) => Inserted::Fits(
            CTree::Three { left: Box::new(l), key1: a, val1: va, mid, key2: b, val2: vb, right },
        ),
        Inserted::Split(l1, c, vc, l2) => {
            let lo = CTree::Two { left: Box::new(l1), key: c, val: vc, right: Box::new(l2) };
            let hi = CTree::Two { left: mid, key: b, val: vb, right };
            let r = Inserted::Split(lo, a, va, hi);
            assert(lo@ == sub.tree()@);
            assert(lo.wf());
            assert(hi.wf());
            assert(lo.height() == hi.height());
            assert(hi@ == mid@.union_prefer_right(right@).insert(b, vb));
            assert forall|k: u64| hi@.contains_key(k) implies a < k by {
                if mid@.contains_key(k) {
                } else if right@.contains_key(k) {
                }
            }
            assert(r.tree()@ == lo@.union_prefer_right(hi@).insert(a, va));
            assert(hi@ == mid@.union_prefer_right(right@).insert(b, vb));
            assert(three(sub.tree(), a, va, *mid, b, vb, *right)@ == sub.tree()@.union_prefer_right(mid@).union_prefer_right(right@).insert(a, va).insert(b, vb));
            assert(r.tree()@ =~= three(sub.tree(), a, va, *mid, b, vb, *right)@);
            r
        },
    }
}

/// Absorbs the outcome of inserting into the middle child of a three-node;
/// a split there splits this node too.
fn three_mid<V>(
    left: Box<CTree<V>>,
    a: u64,
    va: V,
    sub: Inserted<V>,
    b: u64,
    vb: V,
    right: Box<CTree<V>>,
) -> (r: Inserted<V>)
    requires
        three(*left, a, va, sub.tree(), b, vb, *right).ordered(),
        sub.tree().balanced(),
        left.balanced(),
        right.balanced(),
        sub.level() == left.height(),
        left.height() == right.height(),
    ensures
        r.tree().wf(),
        r.tree()@ == three(*left, a, va, sub.tree(), b, vb, *right)@,
        r.level() == left.height() + 1,
        sub is Fits ==> r is Fits,
{
    proof {
        assert(sub.tree().ordered());
        sub.tree().lemma_children();
    }
    match sub {
        Inserted::Fits(m) => Inserted::Fits(
            CTree::Three { left, key1: a, val1: va, mid: Box::new(m), key2: b, val2: vb, right },
        ),
        Inserted::Split(m1, c, vc, m2) => {
            let lo = CTree::Two { left, key: a, val: va, right: Box::new(m1) };
            let hi = CTree::Two { left: Box::new(m2), key: b, val: vb, right };
            let r = Inserted::Split(lo, c, vc, hi);
            assert(sub.tree()@ == m1@.union_prefer_right(m2@).insert(c, vc));
            assert(lo@ == left@.union_prefer_right(m1@).insert(a, va));
            assert(hi@ == m2@.union_prefer_right(right@).insert(b, vb));
            assert(a < c && c < b);
            assert forall|k: u64| m1@.contains_key(k) implies a < k by {
                assert(sub.tree()@.contains_key(k));
            }
            assert forall|k: u64| m2@.contains_key(k) implies k < b by {
                assert(sub.tree()@.contains_key(k));
            }
            assert forall|k: u64| lo@.contains_key(k) implies k < c by {
                if left@.contains_key(k) {
                } else if m1@.contains_key(k) {
                }
            }
            assert forall|k: u64| hi@.contains_key(k) implies c < k by {
                if m2@.contains_key(k) {
                } else if right@.contains_key(k) {
                }
            }
            assert(lo.wf());
            assert(hi.wf());
            assert(r.tree()@ == lo@.union_prefer_right(hi@).insert(c, vc));
            assert(three(*left, a, va, sub.tree(), b, vb, *right)@ == left@.union_prefer_right(sub.tree()@).union_prefer_right(right@).insert(a, va).insert(b, vb));
            assert(r.tree()@ =~= three(*left, a, va, sub.tree(), b, vb, *right)@);
            r
        },
    }
}

/// Absorbs the outcome of inserting into the right child of a three-node;
/// a split there splits this node too.
fn three_right<V>(
    left: Box<CTree<V>>,
    a: u64,
    va: V,
    mid: Box<CTree<V>>,
    b: u64,
    vb: V,
    sub: Inserted<V>,
) -> (r: Inserted<V>)
    requires
        three(*left, a, va, *mid, b, vb, sub.tree()).ordered(),
        sub.tree().balanced(),
        left.balanced(),
        mid.balanced(),
        sub.level() == left.height(),
        left.height() == mid.height(),
    ensures
        r.tree().wf(),
        r.tree()@ == three(*left, a, va, *mid, b, vb, sub.tree())@,
        r.level() == left.height() + 1,
        sub is Fits ==> r is Fits,
{
    proof {
        assert(sub.tree().ordered());
        sub.tree().lemma_children();
    }
    match sub {
        Inserted::Fits(r0) => Inserted::Fits(
            CTree::Three { left, key1: a, val1: va, mid, key2: b, val2: vb, right: Box::new(r0) },
        ),
        Inserted::Split(r1, c, vc, r2) => {
            let lo = CTree::Two { left, key: a, val: va, right: mid };
            let hi = CTree::Two { left: Box::new(r1), key: c, val: vc, right: Box::new(r2) };
            let r = Inserted::Split(lo, b, vb, hi);
            assert(hi@ == sub.tree()@);
            assert(lo@ == left@.union_prefer_right(mid@).insert(a, va));
            assert forall|k: u64| lo@.contains_key(k) implies k < b by {
                if left@.contains_key(k) {
                } else if mid@.contains_key(k) {
                }
            }
            assert(lo.wf());
            assert(hi.wf());
            assert(r.tree()@ == lo@.union_prefer_right(hi@).insert(b, vb));
            assert(three(*left, a, va, *mid, b, vb, sub.tree())@ == left@.union_prefer_right(mid@).union_prefer_right(sub.tree()@).insert(a, va).insert(b, vb));
            assert(r.tree()@ =~= three(*left, a, va, *mid, b, vb, sub.tree())@);
            r
        },
    }
}

/// Inserts `key` with `val` into the subtree `t`, splitting overfull nodes
/// on the way back up. An existing entry for `key` has its value replaced.
pub fn insert_into<V>(t: CTree<V>, key: u64, val: V) -> (r: Inserted<V>)
    requires
        t.wf(),
    ensures
        r.tree().wf(),
        r.tree()@ == t@.insert(key, val),
        r.level() == t.height(),
        t@.contains_key(key) ==> r is Fits,
    decreases t,
{
    proof {
        t.lemma_children();
    }
    match t {
        CTree::Empty => {
            let r = Inserted::Split(CTree::Empty, key, val, CTree::Empty);
            assert(r.tree()@ =~= t@.insert(key, val));
            r
        },
        CTree::Two { left, key: a, val: va, right } => {
            if key == a {
                let r = Inserted::Fits(CTree::Two { left, key, val, right });
                assert(r.tree()@ =~= t@.insert(key, val));
                r
            } else if key < a {
                let sub = insert_into(*left, key, val);
                assert(two(sub.tree(), a, va, *right)@ =~= t@.insert(key, val));
                two_left(sub, a, va, right)
            } else {
                let sub = insert_into(*right, key, val);
                assert(two(*left, a, va, sub.tree())@ =~= t@.insert(key, val));
                two_right(left, a, va, sub)
            }
        },
        CTree::Three { left, key1: a, val1: va, mid, key2: b, val2: vb, right } => {
            if key == a {
                let r = Inserted::Fits(
                    CTree::Three { left, key1: key, val1: val, mid, key2: b, val2: vb, right },
                );
                assert(r.tree()@ =~= t@.insert(key, val));
                r
            } else if key == b {
                let r = Inserted::Fits(
                    CTree::Three { left, key1: a, val1: va, mid, key2: key, val2: val, right },
                );
                assert(r.tree()@ =~= t@.insert(key, val));
                r
            } else if key < a {
                let sub = insert_into(*left, key, val);
                assert(three(sub.tree(), a, va, *mid, b, vb, *right)@ =~= t@.insert(key, val));
                three_left(sub, a, va, mid, b, vb, right)
            } else if key < b {
                let sub = insert_into(*mid, key, val);
                assert(three(*left, a, va, sub.tree(), b, vb, *right)@ =~= t@.insert(key, val));
                three_mid(left, a, va, sub, b, vb, right)
            } else {
                let sub = insert_into(*right, key, val);
                assert(three(*left, a, va, *mid, b, vb, sub.tree())@ =~= t@.insert(key, val));
                three_right(left, a, va, mid, b, vb, sub)
            }
        },
    }
}

impl<V> CTree<V> {
    /// Inserts `key` with `val`; an existing entry for `key` gets the new
    /// value. The tree stays ordered and balanced, and grows in height by at
    /// most one, at the root.
    pub fn insert(&mut self, key: u64, val: V)
        requires
            old(self).wf(),
        ensures
            final(self).wf(),
            final(self)@ == old(self)@.insert(key, val),
            final(self).height() == old(self).height() || final(self).height() == old(
                self,
            ).height() + 1,
            old(self)@.contains_key(key) ==> final(self).height() == old(self).height(),
    {
        let mut t = CTree::Empty;
        std::mem::swap(self, &mut t);
        let r = insert_into(t, key, val);
        *self = r.into_tree();
    }
}

} // verus!
