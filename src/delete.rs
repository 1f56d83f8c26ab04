use vstd::prelude::*;
use crate::tree::CTree;
use crate::insert::{two, three};

verus! {

/// What deleting from a subtree hands back to its parent.
pub enum Deleted<V> {
    /// The subtree kept its height.
    Kept(CTree<V>),
    /// The subtree lost a level (an underflow): the parent must borrow from
    /// or merge with a sibling.
    Under(CTree<V>),
}

impl<V> Deleted<V> {
    /// The subtree this outcome stands for.
    pub open spec fn tree(self) -> CTree<V> {
        match self {
            Deleted::Kept(t) => t,
            Deleted::Under(t) => t,
        }
    }

    /// The levels lost: 1 on underflow, else 0.
    pub open spec fn lost(self) -> nat {
        match self {
            Deleted::Kept(_) => 0,
            Deleted::Under(_) => 1,
        }
    }

    /// The subtree, whatever its height; at the root an underflow is the
    /// tree shrinking by one level.
    pub fn into_tree(self) -> (t: CTree<V>)
        ensures
            t == self.tree(),
    {
        match self {
            Deleted::Kept(t) => t,
            Deleted::Under(t) => t,
        }
    }
}

/// Repairs a two-node whose left child came back from a deletion: on
/// underflow, borrows from the right sibling when it holds two entries, and
/// merges with it otherwise.
fn fix_two_left<V>(sub: Deleted<V>, a: u64, va: V, right: Box<CTree<V>>) -> (r: Deleted<V>)
    requires
        two(sub.tree(), a, va, *right).ordered(),
        sub.tree().balanced(),
        right.balanced(),
        sub.tree().height() + sub.lost() == right.height(),
    ensures
        r.tree().wf(),
        r.tree()@ == two(sub.tree(), a, va, *right)@,
        r.tree().height() + r.lost() == right.height() + 1,
{
    proof {
        assert(sub.tree().ordered());
        assert(right.ordered());
        assert(right.balanced());
        right.lemma_children();
    }
    match sub {
        Deleted::Kept(l) => Deleted::Kept(CTree::Two { left: Box::new(l), key: a, val: va, right }),
        Deleted::Under(l) => {
            match *right {
                CTree::Empty => {
                    proof {
                        assert(false);
                    }
                    Deleted::Kept(l)
                },
                CTree::Two { left: r1, key: b, val: vb, right: r2 } => {
                    let t = CTree::Three {
                        left: Box::new(l),
                        key1: a,
                        val1: va,
                        mid: r1,
                        key2: b,
                        val2: vb,
                        right: r2,
                    };
                    assert(right@ == r1@.union_prefer_right(r2@).insert(b, vb));
                    assert(r1.ordered() && r2.ordered() && r1.balanced() && r2.balanced());
                    assert forall|k: u64| r1@.contains_key(k) implies a < k && k < b by {
                        assert(right@.contains_key(k));
                    }
                    assert forall|k: u64| r2@.contains_key(k) implies b < k by {}
                    assert(l.height() == r1.height() && r1.height() == r2.height());
                    assert(t@ == l@.union_prefer_right(r1@).union_prefer_right(r2@).insert(a, va).insert(b, vb));
                    assert(t.wf());
                    assert(t@ =~= two(sub.tree(), a, va, *right)@);
                    Deleted::Under(t)
                },
                CTree::Three { left: r1, key1: b, val1: vb, mid: r2, key2: c, val2: vc, right: r3 } => {
                    let lo = CTree::Two { left: Box::new(l), key: a, val: va, right: r1 };
                    let hi = CTree::Two { left: r2, key: c, val: vc, right: r3 };
                    assert(right@ == r1@.union_prefer_right(r2@).union_prefer_right(r3@).insert(b, vb).insert(c, vc));
                    assert(lo@ == l@.union_prefer_right(r1@).insert(a, va));
                    assert(hi@ == r2@.union_prefer_right(r3@).insert(c, vc));
                    assert(r1.ordered() && r2.ordered() && r3.ordered());
                    assert(r1.balanced() && r2.balanced() && r3.balanced());
                    assert forall|k: u64| r1@.contains_key(k) implies a < k && k < b by {
                        assert(right@.contains_key(k));
                    }
                    assert forall|k: u64| r2@.contains_key(k) implies b < k && k < c by {}
                    assert forall|k: u64| r3@.contains_key(k) implies c < k by {}
                    assert(l.height() == r1.height() && r1.height() == r2.height());
                    assert forall|k: u64| lo@.contains_key(k) implies k < b by {
                        if l@.contains_key(k) {
                        } else if r1@.contains_key(k) {
                        }
                    }
                    assert forall|k: u64| hi@.contains_key(k) implies b < k by {
                        if r2@.contains_key(k) {
                        } else if r3@.contains_key(k) {
                        }
                    }
                    assert(lo.wf());
                    assert(hi.wf());
                    let t = CTree::Two { left: Box::new(lo), key: b, val: vb, right: Box::new(hi) };
                    assert(t@ == lo@.union_prefer_right(hi@).insert(b, vb));
                    assert(t@ =~= two(sub.tree(), a, va, *right)@);
                    Deleted::Kept(t)
                },
            }
        },
    }
}

/// Repairs a two-node whose right child came back from a deletion: on
/// underflow, borrows from the left sibling when it holds two entries, and
/// merges with it otherwise.
fn fix_two_right<V>(left: Box<CTree<V>>, a: u64, va: V, sub: Deleted<V>) -> (r: Deleted<V>)
    requires
        two(*left, a, va, sub.tree()).ordered(),
        sub.tree().balanced(),
        left.balanced(),
        sub.tree().height() + sub.lost() == left.height(),
    ensures
        r.tree().wf(),
        r.tree()@ == two(*left, a, va, sub.tree())@,
        r.tree().height() + r.lost() == left.height() + 1,
{
    proof {
        assert(sub.tree().ordered());
        assert(left.ordered());
        assert(left.balanced());
        left.lemma_children();
    }
    match sub {
        Deleted::Kept(rr) => Deleted::Kept(CTree::Two { left, key: a, val: va, right: Box::new(rr) }),
        Deleted::Under(rr) => {
            match *left {
                CTree::Empty => {
                    proof {
                        assert(false);
                    }
                    Deleted::Kept(rr)
                },
                CTree::Two { left: l1, key: b, val: vb, right: l2 } => {
                    let t = CTree::Three {
                        left: l1,
                        key1: b,
                        val1: vb,
                        mid: l2,
                        key2: a,
                        val2: va,
                        right: Box::new(rr),
                    };
                    assert(left@ == l1@.union_prefer_right(l2@).insert(b, vb));
                    assert(l1.ordered() && l2.ordered() && l1.balanced() && l2.balanced());
                    assert forall|k: u64| l2@.contains_key(k) implies b < k && k < a by {
                        assert(left@.contains_key(k));
                    }
                    assert forall|k: u64| l1@.contains_key(k) implies k < b by {}
                    assert(b < a);
                    assert(rr.height() == l1.height() && l1.height() == l2.height());
                    assert(t@ == l1@.union_prefer_right(l2@).union_prefer_right(rr@).insert(b, vb).insert(a, va));
                    assert(t.wf());
                    assert(t@ =~= two(*left, a, va, sub.tree())@);
                    Deleted::Under(t)
                },
                CTree::Three { left: l1, key1: b, val1: vb, mid: l2, key2: c, val2: vc, right: l3 } => {
                    let lo = CTree::Two { left: l1, key: b, val: vb, right: l2 };
                    let hi = CTree::Two { left: l3, key: a, val: va, right: Box::new(rr) };
                    assert(left@ == l1@.union_prefer_right(l2@).union_prefer_right(l3@).insert(b, vb).insert(c, vc));
                    assert(lo@ == l1@.union_prefer_right(l2@).insert(b, vb));
                    assert(hi@ == l3@.union_prefer_right(rr@).insert(a, va));
                    assert(l1.ordered() && l2.ordered() && l3.ordered());
                    assert(l1.balanced() && l2.balanced() && l3.balanced());
                    assert forall|k: u64| l3@.contains_key(k) implies c < k && k < a by {
                        assert(left@.contains_key(k));
                    }
                    assert forall|k: u64| l2@.contains_key(k) implies b < k && k < c by {}
                    assert forall|k: u64| l1@.contains_key(k) implies k < b by {}
                    assert(c < a);
                    assert(rr.height() == l3.height() && l1.height() == l2.height());
                    assert forall|k: u64| lo@.contains_key(k) implies k < c by {
                        if l1@.contains_key(k) {
                        } else if l2@.contains_key(k) {
                        }
                    }
                    assert forall|k: u64| hi@.contains_key(k) implies c < k by {
                        if l3@.contains_key(k) {
                        } else if rr@.contains_key(k) {
                        }
                    }
                    assert(lo.wf());
                    assert(hi.wf());
                    let t = CTree::Two { left: Box::new(lo), key: c, val: vc, right: Box::new(hi) };
                    assert(t@ == lo@.union_prefer_right(hi@).insert(c, vc));
                    assert(t@ =~= two(*left, a, va, sub.tree())@);
                    Deleted::Kept(t)
                },
            }
        },
    }
}

/// Repairs a three-node whose left child came back from a deletion: on
/// underflow, borrows from the middle child when it holds two entries, and
/// merges with it otherwise.
fn fix_three_left<V>(
    sub: Deleted<V>,
    a: u64,
    va: V,
    mid: Box<CTree<V>>,
    b: u64,
    vb: V,
    right: Box<CTree<V>>,
) -> (r: Deleted<V>)
    requires
        three(sub.tree(), a, va, *mid, b, vb, *right).ordered(),
        sub.tree().balanced(),
        mid.balanced(),
        right.balanced(),
        sub.tree().height() + sub.lost() == mid.height(),
        mid.height() == right.height(),
    ensures
        r.tree().wf(),
        r.tree()@ == three(sub.tree(), a, va, *mid, b, vb, *right)@,
        r.tree().height() + r.lost() == mid.height() + 1,
{
    proof {
        assert(sub.tree().ordered());
        assert(mid.ordered());
        assert(mid.balanced());
        assert(right.ordered());
        mid.lemma_children();
    }
    match sub {
        Deleted::Kept(l) => Deleted::Kept(
            CTree::Three { left: Box::new(l), key1: a, val1: va, mid, key2: b, val2: vb, right },
        ),
        Deleted::Under(l) => {
            match *mid {
                CTree::Empty => {
                    proof {
                        assert(false);
                    }
                    Deleted::Kept(l)
                },
                CTree::Two { left: m1, key: c, val: vc, right: m2 } => {
                    let node = CTree::Three {
                        left: Box::new(l),
                        key1: a,
                        val1: va,
                        mid: m1,
                        key2: c,
                        val2: vc,
                        right: m2,
                    };
                    assert(mid@ == m1@.union_prefer_right(m2@).insert(c, vc));
                    assert(m1.ordered() && m2.ordered() && m1.balanced() && m2.balanced());
                    assert forall|k: u64| m1@.contains_key(k) implies a < k && k < c by {
                        assert(mid@.contains_key(k));
                    }
                    assert forall|k: u64| m2@.contains_key(k) implies c < k && k < b by {
                        assert(mid@.contains_key(k));
                    }
                    assert(a < c && c < b);
                    assert(l.height() == m1.height() && m1.height() == m2.height());
                    assert(node@ == l@.union_prefer_right(m1@).union_prefer_right(m2@).insert(a, va).insert(c, vc));
                    assert forall|k: u64| node@.contains_key(k) implies k < b by {
                        if l@.contains_key(k) {
                        } else if m1@.contains_key(k) {
                        } else if m2@.contains_key(k) {
                        }
                    }
                    assert(node.wf());
                    let t = CTree::Two { left: Box::new(node), key: b, val: vb, right };
                    assert(t@ == node@.union_prefer_right(right@).insert(b, vb));
                    assert(t.wf());
                    assert(t@ =~= three(sub.tree(), a, va, *mid, b, vb, *right)@);
                    Deleted::Kept(t)
                },
                CTree::Three { left: m1, key1: c, val1: vc, mid: m2, key2: d, val2: vd, right: m3 } => {
                    let lo = CTree::Two { left: Box::new(l), key: a, val: va, right: m1 };
                    let hi = CTree::Two { left: m2, key: d, val: vd, right: m3 };
                    assert(mid@ == m1@.union_prefer_right(m2@).union_prefer_right(m3@).insert(c, vc).insert(d, vd));
                    assert(lo@ == l@.union_prefer_right(m1@).insert(a, va));
                    assert(hi@ == m2@.union_prefer_right(m3@).insert(d, vd));
                    assert(m1.ordered() && m2.ordered() && m3.ordered());
                    assert(m1.balanced() && m2.balanced() && m3.balanced());
                    assert forall|k: u64| m1@.contains_key(k) implies a < k && k < c by {
                        assert(mid@.contains_key(k));
                    }
                    assert forall|k: u64| m2@.contains_key(k) implies c < k && k < d by {}
                    assert forall|k: u64| m3@.contains_key(k) implies d < k && k < b by {
                        assert(mid@.contains_key(k));
                    }
                    assert(a < c && c < d && d < b);
                    assert(l.height() == m1.height() && m2.height() == m3.height());
                    assert forall|k: u64| lo@.contains_key(k) implies k < c by {
                        if l@.contains_key(k) {
                        } else if m1@.contains_key(k) {
                        }
                    }
                    assert forall|k: u64| hi@.contains_key(k) implies c < k && k < b by {
                        if m2@.contains_key(k) {
                        } else if m3@.contains_key(k) {
                        }
                    }
                    assert(lo.wf());
                    assert(hi.wf());
                    let t = CTree::Three {
                        left: Box::new(lo),
                        key1: c,
                        val1: vc,
                        mid: Box::new(hi),
                        key2: b,
                        val2: vb,
                        right,
                    };
                    assert(t@ == lo@.union_prefer_right(hi@).union_prefer_right(right@).insert(c, vc).insert(b, vb));
                    assert(t.wf());
                    assert(t@ =~= three(sub.tree(), a, va, *mid, b, vb, *right)@);
                    Deleted::Kept(t)
                },
            }
        },
    }
}

/// Repairs a three-node whose middle child came back from a deletion: on
/// underflow, borrows from the right sibling when it holds two entries,
/// else from the left one when it does, and merges with the right sibling
/// otherwise.
fn fix_three_mid<V>(
    left: Box<CTree<V>>,
    a: u64,
    va: V,
    sub: Deleted<V>,
    b: u64,
    vb: V,
    right: Box<CTree<V>>,
) -> (r: Deleted<V>)
    requires
        three(*left, a, va, sub.tree(), b, vb, *right).ordered(),
        sub.tree().balanced(),
        left.balanced(),
        right.balanced(),
        sub.tree().height() + sub.lost() == left.height(),
        left.height() == right.height(),
    ensures
        r.tree().wf(),
        r.tree()@ == three(*left, a, va, sub.tree(), b, vb, *right)@,
        r.tree().height() + r.lost() == left.height() + 1,
{
    proof {
        assert(sub.tree().ordered());
        assert(left.ordered());
        assert(left.balanced());
        assert(right.ordered());
        assert(right.balanced());
        left.lemma_children();
        right.lemma_children();
    }
    let ghost target = three(*left, a, va, sub.tree(), b, vb, *right)@;
    match sub {
        Deleted::Kept(m) => Deleted::Kept(
            CTree::Three { left, key1: a, val1: va, mid: Box::new(m), key2: b, val2: vb, right },
        ),
        Deleted::Under(m) => {
            assert(target == left@.union_prefer_right(m@).union_prefer_right(right@).insert(a, va).insert(b, vb));
            assert forall|k: u64| m@.contains_key(k) implies a < k && k < b by {}
            if right.is_three() {
                match *right {
                    CTree::Three { left: r1, key1: c, val1: vc, mid: r2, key2: d, val2: vd, right: r3 } => {
                        let lo = CTree::Two { left: Box::new(m), key: b, val: vb, right: r1 };
                        let hi = CTree::Two { left: r2, key: d, val: vd, right: r3 };
                        assert(right@ == r1@.union_prefer_right(r2@).union_prefer_right(r3@).insert(c, vc).insert(d, vd));
                        assert(lo@ == m@.union_prefer_right(r1@).insert(b, vb));
                        assert(hi@ == r2@.union_prefer_right(r3@).insert(d, vd));
                        assert(r1.ordered() && r2.ordered() && r3.ordered());
                        assert(r1.balanced() && r2.balanced() && r3.balanced());
                        assert forall|k: u64| r1@.contains_key(k) implies b < k && k < c by {
                            assert(right@.contains_key(k));
                        }
                        assert forall|k: u64| r2@.contains_key(k) implies c < k && k < d by {}
                        assert forall|k: u64| r3@.contains_key(k) implies d < k by {}
                        assert(a < b && b < c && c < d);
                        assert(m.height() == r1.height() && r2.height() == r3.height());
                        assert forall|k: u64| lo@.contains_key(k) implies a < k && k < c by {
                            if m@.contains_key(k) {
                            } else if r1@.contains_key(k) {
                            }
                        }
                        assert forall|k: u64| hi@.contains_key(k) implies c < k by {
                            if r2@.contains_key(k) {
                            } else if r3@.contains_key(k) {
                            }
                        }
                        assert(lo.wf());
                        assert(hi.wf());
                        let t = CTree::Three {
                            left,
                            key1: a,
                            val1: va,
                            mid: Box::new(lo),
                            key2: c,
                            val2: vc,
                            right: Box::new(hi),
                        };
                        assert(t@ == left@.union_prefer_right(lo@).union_prefer_right(hi@).insert(a, va).insert(c, vc));
                        assert(t.wf());
                        assert(t@ =~= target);
                        Deleted::Kept(t)
                    },
                    _ => {
                        proof {
                            assert(false);
                        }
                        Deleted::Kept(m)
                    },
                }
            } else if left.is_three() {
                match *left {
                    CTree::Three { left: l1, key1: c, val1: vc, mid: l2, key2: d, val2: vd, right: l3 } => {
                        let lo = CTree::Two { left: l1, key: c, val: vc, right: l2 };
                        let hi = CTree::Two { left: l3, key: a, val: va, right: Box::new(m) };
                        assert(left@ == l1@.union_prefer_right(l2@).union_prefer_right(l3@).insert(c, vc).insert(d, vd));
                        assert(lo@ == l1@.union_prefer_right(l2@).insert(c, vc));
                        assert(hi@ == l3@.union_prefer_right(m@).insert(a, va));
                        assert(l1.ordered() && l2.ordered() && l3.ordered());
                        assert(l1.balanced() && l2.balanced() && l3.balanced());
                        assert forall|k: u64| l3@.contains_key(k) implies d < k && k < a by {
                            assert(left@.contains_key(k));
                        }
                        assert forall|k: u64| l2@.contains_key(k) implies c < k && k < d by {}
                        assert forall|k: u64| l1@.contains_key(k) implies k < c by {}
                        assert(c < d && d < a && a < b);
                        assert(l1.height() == l2.height() && l3.height() == m.height());
                        assert forall|k: u64| lo@.contains_key(k) implies k < d by {
                            if l1@.contains_key(k) {
                            } else if l2@.contains_key(k) {
                            }
                        }
                        assert forall|k: u64| hi@.contains_key(k) implies d < k && k < b by {
                            if l3@.contains_key(k) {
                            } else if m@.contains_key(k) {
                            }
                        }
                        assert(lo.wf());
                        assert(hi.wf());
                        let t = CTree::Three {
                            left: Box::new(lo),
                            key1: d,
                            val1: vd,
                            mid: Box::new(hi),
                            key2: b,
                            val2: vb,
                            right,
                        };
                        assert(t@ == lo@.union_prefer_right(hi@).union_prefer_right(right@).insert(d, vd).insert(b, vb));
                        assert(t.wf());
                        assert(t@ =~= target);
                        Deleted::Kept(t)
                    },
                    _ => {
                        proof {
                            assert(false);
                        }
                        Deleted::Kept(m)
                    },
                }
            } else {
                match *right {
                    CTree::Two { left: r1, key: c, val: vc, right: r2 } => {
                        let node = CTree::Three {
                            left: Box::new(m),
                            key1: b,
                            val1: vb,
                            mid: r1,
                            key2: c,
                            val2: vc,
                            right: r2,
                        };
                        assert(right@ == r1@.union_prefer_right(r2@).insert(c, vc));
                        assert(r1.ordered() && r2.ordered() && r1.balanced() && r2.balanced());
                        assert forall|k: u64| r1@.contains_key(k) implies b < k && k < c by {
                            assert(right@.contains_key(k));
                        }
                        assert forall|k: u64| r2@.contains_key(k) implies c < k by {}
                        assert(a < b && b < c);
                        assert(m.height() == r1.height() && r1.height() == r2.height());
                        assert(node@ == m@.union_prefer_right(r1@).union_prefer_right(r2@).insert(b, vb).insert(c, vc));
                        assert forall|k: u64| node@.contains_key(k) implies a < k by {
                            if m@.contains_key(k) {
                            } else if r1@.contains_key(k) {
                            } else if r2@.contains_key(k) {
                            }
                        }
                        assert(node.wf());
                        let t = CTree::Two { left, key: a, val: va, right: Box::new(node) };
                        assert(t@ == left@.union_prefer_right(node@).insert(a, va));
                        assert(t.wf());
                        assert(t@ =~= target);
                        Deleted::Kept(t)
                    },
                    _ => {
                        proof {
                            assert(false);
                        }
                        Deleted::Kept(m)
                    },
                }
            }
        },
    }
}

/// Repairs a three-node whose right child came back from a deletion: on
/// underflow, borrows from the middle child when it holds two entries, and
/// merges with it otherwise.
fn fix_three_right<V>(
    left: Box<CTree<V>>,
    a: u64,
    va: V,
    mid: Box<CTree<V>>,
    b: u64,
    vb: V,
    sub: Deleted<V>,
) -> (r: Deleted<V>)
    requires
        three(*left, a, va, *mid, b, vb, sub.tree()).ordered(),
        sub.tree().balanced(),
        left.balanced(),
        mid.balanced(),
        sub.tree().height() + sub.lost() == left.height(),
        left.height() == mid.height(),
    ensures
        r.tree().wf(),
        r.tree()@ == three(*left, a, va, *mid, b, vb, sub.tree())@,
        r.tree().height() + r.lost() == left.height() + 1,
{
    proof {
        assert(sub.tree().ordered());
        assert(left.ordered());
        assert(mid.ordered());
        assert(mid.balanced());
        mid.lemma_children();
    }
    let ghost target = three(*left, a, va, *mid, b, vb, sub.tree())@;
    match sub {
        Deleted::Kept(rr) => Deleted::Kept(
            CTree::Three { left, key1: a, val1: va, mid, key2: b, val2: vb, right: Box::new(rr) },
        ),
        Deleted::Under(rr) => {
            assert(target == left@.union_prefer_right(mid@).union_prefer_right(rr@).insert(a, va).insert(b, vb));
            match *mid {
                CTree::Empty => {
                    proof {
                        assert(false);
                    }
                    Deleted::Kept(rr)
                },
                CTree::Two { left: m1, key: c, val: vc, right: m2 } => {
                    let node = CTree::Three {
                        left: m1,
                        key1: c,
                        val1: vc,
                        mid: m2,
                        key2: b,
                        val2: vb,
                        right: Box::new(rr),
                    };
                    assert(mid@ == m1@.union_prefer_right(m2@).insert(c, vc));
                    assert(m1.ordered() && m2.ordered() && m1.balanced() && m2.balanced());
                    assert forall|k: u64| m1@.contains_key(k) implies a < k && k < c by {
                        assert(mid@.contains_key(k));
                    }
                    assert forall|k: u64| m2@.contains_key(k) implies c < k && k < b by {
                        assert(mid@.contains_key(k));
                    }
                    assert(a < c && c < b);
                    assert(rr.height() == m1.height() && m1.height() == m2.height());
                    assert(node@ == m1@.union_prefer_right(m2@).union_prefer_right(rr@).insert(c, vc).insert(b, vb));
                    assert forall|k: u64| node@.contains_key(k) implies a < k by {
                        if m1@.contains_key(k) {
                        } else if m2@.contains_key(k) {
                        } else if rr@.contains_key(k) {
                        }
                    }
                    assert(node.wf());
                    let t = CTree::Two { left, key: a, val: va, right: Box::new(node) };
                    assert(t@ == left@.union_prefer_right(node@).insert(a, va));
                    assert(t.wf());
                    assert(t@ =~= target);
                    Deleted::Kept(t)
                },
                CTree::Three { left: m1, key1: c, val1: vc, mid: m2, key2: d, val2: vd, right: m3 } => {
                    let lo = CTree::Two { left: m1, key: c, val: vc, right: m2 };
                    let hi = CTree::Two { left: m3, key: b, val: vb, right: Box::new(rr) };
                    assert(mid@ == m1@.union_prefer_right(m2@).union_prefer_right(m3@).insert(c, vc).insert(d, vd));
                    assert(lo@ == m1@.union_prefer_right(m2@).insert(c, vc));
                    assert(hi@ == m3@.union_prefer_right(rr@).insert(b, vb));
                    assert(m1.ordered() && m2.ordered() && m3.ordered());
                    assert(m1.balanced() && m2.balanced() && m3.balanced());
                    assert forall|k: u64| m1@.contains_key(k) implies a < k && k < c by {
                        assert(mid@.contains_key(k));
                    }
                    assert forall|k: u64| m2@.contains_key(k) implies c < k && k < d by {}
                    assert forall|k: u64| m3@.contains_key(k) implies d < k && k < b by {
                        assert(mid@.contains_key(k));
                    }
                    assert(a < c && c < d && d < b);
                    assert(m1.height() == m2.height() && m3.height() == rr.height());
                    assert forall|k: u64| lo@.contains_key(k) implies a < k && k < d by {
                        if m1@.contains_key(k) {
                        } else if m2@.contains_key(k) {
                        }
                    }
                    assert forall|k: u64| hi@.contains_key(k) implies d < k by {
                        if m3@.contains_key(k) {
                        } else if rr@.contains_key(k) {
                        }
                    }
                    assert(lo.wf());
                    assert(hi.wf());
                    let t = CTree::Three {
                        left,
                        key1: a,
                        val1: va,
                        mid: Box::new(lo),
                        key2: d,
                        val2: vd,
                        right: Box::new(hi),
                    };
                    assert(t@ == left@.union_prefer_right(lo@).union_prefer_right(hi@).insert(a, va).insert(d, vd));
                    assert(t.wf());
                    assert(t@ =~= target);
                    Deleted::Kept(t)
                },
            }
        },
    }
}

/// Removes the entry with the least key from the subtree `t` and returns
/// it, together with what is left of `t`; `None` only for the empty tree.
fn split_min<V>(t: CTree<V>) -> (res: Option<(u64, V, Deleted<V>)>)
    requires
        t.wf(),
    ensures
        res is None <==> t.height() == 0,
        res matches Some((x, vx, rest)) ==> {
            &&& t@.contains_key(x)
            &&& t@[x] == vx
            &&& forall|k: u64| t@.contains_key(k) ==> x <= k
            &&& rest.tree().wf()
            &&& rest.tree()@ == t@.remove(x)
            &&& rest.tree().height() + rest.lost() == t.height()
        },
    decreases t,
{
    proof {
        t.lemma_children();
    }
    match t {
        CTree::Empty => None,
        CTree::Two { left, key: a, val: va, right } => {
            if left.is_empty() {
                assert(right@ == Map::<u64, V>::empty());
                assert(right@ =~= t@.remove(a));
                Some((a, va, Deleted::Under(*right)))
            } else {
                assert(left.wf());
                match split_min(*left) {
                    Some((x, vx, sub)) => {
                        assert(two(sub.tree(), a, va, *right)@ =~= t@.remove(x));
                        Some((x, vx, fix_two_left(sub, a, va, right)))
                    },
                    None => None,
                }
            }
        },
        CTree::Three { left, key1: a, val1: va, mid, key2: b, val2: vb, right } => {
            if left.is_empty() {
                let rest = CTree::Two { left: mid, key: b, val: vb, right };
                assert(rest@ =~= t@.remove(a));
                Some((a, va, Deleted::Kept(rest)))
            } else {
                assert(left.wf());
                match split_min(*left) {
                    Some((x, vx, sub)) => {
                        assert(three(sub.tree(), a, va, *mid, b, vb, *right)@ =~= t@.remove(x));
                        Some((x, vx, fix_three_left(sub, a, va, mid, b, vb, right)))
                    },
                    None => None,
                }
            }
        },
    }
}

/// Deletes the entry for `key` from the subtree `t`, if there is one. An
/// entry of an inner node is first replaced by its in-order successor, so
/// that an entry always leaves from a bottom node; underflow is repaired on
/// the way back up.
pub fn delete_from<V>(t: CTree<V>, key: u64) -> (r: Deleted<V>)
    requires
        t.wf(),
    ensures
        r.tree().wf(),
        r.tree()@ == t@.remove(key),
        r.tree().height() + r.lost() == t.height(),
    decreases t,
{
    proof {
        t.lemma_children();
    }
    match t {
        CTree::Empty => {
            assert(t@ =~= t@.remove(key));
            Deleted::Kept(CTree::Empty)
        },
        CTree::Two { left, key: a, val: va, right } => {
            if key < a {
                assert(left.wf());
                let sub = delete_from(*left, key);
                assert(two(sub.tree(), a, va, *right)@ =~= t@.remove(key));
                fix_two_left(sub, a, va, right)
            } else if key == a {
                if left.is_empty() {
                    assert(right@ == Map::<u64, V>::empty());
                    assert(right@ =~= t@.remove(a));
                    Deleted::Under(*right)
                } else {
                    assert(right.wf());
                    match split_min(*right) {
                        Some((x, vx, sub)) => {
                            assert(two(*left, x, vx, sub.tree())@ =~= t@.remove(key));
                            fix_two_right(left, x, vx, sub)
                        },
                        None => Deleted::Kept(CTree::Empty),
                    }
                }
            } else {
                assert(right.wf());
                let sub = delete_from(*right, key);
                assert(two(*left, a, va, sub.tree())@ =~= t@.remove(key));
                fix_two_right(left, a, va, sub)
            }
        },
        CTree::Three { left, key1: a, val1: va, mid, key2: b, val2: vb, right } => {
            if key < a {
                assert(left.wf());
                let sub = delete_from(*left, key);
                assert(three(sub.tree(), a, va, *mid, b, vb, *right)@ =~= t@.remove(key));
                fix_three_left(sub, a, va, mid, b, vb, right)
            } else if key == a {
                if left.is_empty() {
                    let rest = CTree::Two { left: mid, key: b, val: vb, right };
                    assert(rest@ =~= t@.remove(key));
                    Deleted::Kept(rest)
                } else {
                    assert(mid.wf());
                    match split_min(*mid) {
                        Some((x, vx, sub)) => {
                            assert(three(*left, x, vx, sub.tree(), b, vb, *right)@ =~= t@.remove(key));
                            fix_three_mid(left, x, vx, sub, b, vb, right)
                        },
                        None => Deleted::Kept(CTree::Empty),
                    }
                }
            } else if key < b {
                assert(mid.wf());
                let sub = delete_from(*mid, key);
                assert(three(*left, a, va, sub.tree(), b, vb, *right)@ =~= t@.remove(key));
                fix_three_mid(left, a, va, sub, b, vb, right)
            } else if key == b {
                if left.is_empty() {
                    let rest = CTree::Two { left, key: a, val: va, right: mid };
                    assert(rest@ =~= t@.remove(key));
                    Deleted::Kept(rest)
                } else {
                    assert(right.wf());
                    match split_min(*right) {
                        Some((x, vx, sub)) => {
                            assert(three(*left, a, va, *mid, x, vx, sub.tree())@ =~= t@.remove(key));
                            fix_three_right(left, a, va, mid, x, vx, sub)
                        },
                        None => Deleted::Kept(CTree::Empty),
                    }
                }
            } else {
                assert(right.wf());
                let sub = delete_from(*right, key);
                assert(three(*left, a, va, *mid, b, vb, sub.tree())@ =~= t@.remove(key));
                fix_three_right(left, a, va, mid, b, vb, sub)
            }
        },
    }
}

impl<V> CTree<V> {
    /// Deletes the entry for `key`; a key that is not present leaves the
    /// tree as it is. The tree stays ordered and balanced, and loses at most
    /// one level, at the root. Where a middle child underflows and both
    /// siblings hold two entries, the right sibling lends.
    pub fn delete(&mut self, key: &u64)
        requires
            old(self).wf(),
        ensures
            final(self).wf(),
            final(self)@ == old(self)@.remove(*key),
            final(self).height() == old(self).height() || final(self).height() + 1 == old(
                self,
            ).height(),
    {
        let mut t = CTree::Empty;
        std::mem::swap(self, &mut t);
        let r = delete_from(t, *key);
        *self = r.into_tree();
    }
}

} // verus!
