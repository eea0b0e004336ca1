//! A sequence with fast access, insertion and removal at any position.

use vstd::prelude::*;

verus! {

/// A node of a height-balanced tree that holds a sequence in order.
struct Node<T> {
    item: T,
    left: Option<Box<Node<T>>>,
    right: Option<Box<Node<T>>>,
    size: usize,
    height: usize,
}

/// The items of a tree from left to right.
spec fn items<T>(tree: Option<Box<Node<T>>>) -> Seq<T>
    decreases tree,
{
    match tree {
        None => Seq::empty(),
        Some(n) => items(n.left) + seq![n.item] + items(n.right),
    }
}

/// How many nodes the longest way down a tree has.
spec fn levels<T>(tree: Option<Box<Node<T>>>) -> nat
    decreases tree,
{
    match tree {
        None => 0,
        Some(n) => 1 + if levels(n.left) > levels(n.right) {
            levels(n.left)
        } else {
            levels(n.right)
        },
    }
}

/// A tree has no more levels than items.
proof fn lemma_levels<T>(tree: Option<Box<Node<T>>>)
    ensures
        levels(tree) <= items(tree).len(),
    decreases tree,
{
    match tree {
        None => {},
        Some(n) => {
            lemma_levels(n.left);
            lemma_levels(n.right);
        },
    }
}

/// The two sides of a node differ in height by at most `n`.
spec fn near<T>(left: Option<Box<Node<T>>>, right: Option<Box<Node<T>>>, n: nat) -> bool {
    levels(left) <= levels(right) + n && levels(right) <= levels(left) + n
}

/// Every node knows its size and its height, and its two sides differ in height
/// by at most one.
spec fn sized<T>(tree: Option<Box<Node<T>>>) -> bool
    decreases tree,
{
    match tree {
        None => true,
        Some(n) => {
            &&& sized(n.left)
            &&& sized(n.right)
            &&& n.size == items(tree).len()
            &&& n.height == levels(tree)
            &&& near(n.left, n.right, 1)
        },
    }
}

fn size<T>(tree: &Option<Box<Node<T>>>) -> (n: usize)
    requires
        sized(*tree),
    ensures
        n == items(*tree).len(),
{
    match tree {
        None => 0,
        Some(n) => n.size,
    }
}

fn height<T>(tree: &Option<Box<Node<T>>>) -> (h: usize)
    requires
        sized(*tree),
    ensures
        h == levels(*tree),
{
    match tree {
        None => 0,
        Some(n) => n.height,
    }
}

/// A tree from its parts.
fn join<T>(left: Option<Box<Node<T>>>, item: T, right: Option<Box<Node<T>>>) -> (r: Option<
    Box<Node<T>>,
>)
    requires
        sized(left),
        sized(right),
        near(left, right, 1),
        items(left).len() + 1 + items(right).len() <= usize::MAX,
    ensures
        sized(r),
        items(r) == items(left) + seq![item] + items(right),
        levels(r) == 1 + if levels(left) > levels(right) {
            levels(left)
        } else {
            levels(right)
        },
{
    let size: usize = size(&left) + 1 + size(&right);
    let l: usize = height(&left);
    let r: usize = height(&right);
    proof {
        lemma_levels(left);
        lemma_levels(right);
    }
    let height: usize = 1 + if l > r {
        l
    } else {
        r
    };
    Some(Box::new(Node { item, left, right, size, height }))
}

/// A tree from its parts, where the left side is higher by two.
fn lift_left<T>(left: Option<Box<Node<T>>>, item: T, right: Option<Box<Node<T>>>) -> (r: Option<
    Box<Node<T>>,
>)
    requires
        sized(left),
        sized(right),
        levels(left) == levels(right) + 2,
        items(left).len() + 1 + items(right).len() <= usize::MAX,
    ensures
        sized(r),
        items(r) == items(left) + seq![item] + items(right),
        levels(left) <= levels(r) <= levels(left) + 1,
{
    let ghost all = items(left) + seq![item] + items(right);
    match left {
        None => None,
        Some(n) => {
            assert(sized(left));
            assert(items(left) =~= items(n.left) + seq![n.item] + items(n.right));
            let (a, x, b) = (n.left, n.item, n.right);
            if height(&a) >= height(&b) {
                let low = join(b, item, right);
                let t = join(a, x, low);
                assert(items(t) =~= all);
                t
            } else {
                match b {
                    None => None,
                    Some(m) => {
                        assert(sized(b));
                        assert(items(b) =~= items(m.left) + seq![m.item] + items(m.right));
                        let first = join(a, x, m.left);
                        let second = join(m.right, item, right);
                        let t = join(first, m.item, second);
                        assert(items(t) =~= all);
                        t
                    },
                }
            }
        },
    }
}

/// A tree from its parts, where the right side is higher by two.
fn lift_right<T>(left: Option<Box<Node<T>>>, item: T, right: Option<Box<Node<T>>>) -> (r: Option<
    Box<Node<T>>,
>)
    requires
        sized(left),
        sized(right),
        levels(right) == levels(left) + 2,
        items(left).len() + 1 + items(right).len() <= usize::MAX,
    ensures
        sized(r),
        items(r) == items(left) + seq![item] + items(right),
        levels(right) <= levels(r) <= levels(right) + 1,
{
    let ghost all = items(left) + seq![item] + items(right);
    match right {
        None => None,
        Some(n) => {
            assert(sized(right));
            assert(items(right) =~= items(n.left) + seq![n.item] + items(n.right));
            let (a, x, b) = (n.left, n.item, n.right);
            if height(&b) >= height(&a) {
                let low = join(left, item, a);
                let t = join(low, x, b);
                assert(items(t) =~= all);
                t
            } else {
                match a {
                    None => None,
                    Some(m) => {
                        assert(sized(a));
                        assert(items(a) =~= items(m.left) + seq![m.item] + items(m.right));
                        let first = join(left, item, m.left);
                        let second = join(m.right, x, b);
                        let t = join(first, m.item, second);
                        assert(items(t) =~= all);
                        t
                    },
                }
            }
        },
    }
}

/// A tree from its parts, where the heights of the two sides may differ by two.
fn balance<T>(left: Option<Box<Node<T>>>, item: T, right: Option<Box<Node<T>>>) -> (r: Option<
    Box<Node<T>>,
>)
    requires
        sized(left),
        sized(right),
        near(left, right, 2),
        items(left).len() + 1 + items(right).len() <= usize::MAX,
    ensures
        sized(r),
        items(r) == items(left) + seq![item] + items(right),
        levels(left) <= levels(r) && levels(right) <= levels(r),
        levels(r) <= 1 + levels(left) || levels(r) <= 1 + levels(right),
        near(left, right, 1) ==> levels(r) > levels(left) && levels(r) > levels(right),
{
    let l: usize = height(&left);
    let r: usize = height(&right);
    if l > r && l - r > 1 {
        lift_left(left, item, right)
    } else if r > l && r - l > 1 {
        lift_right(left, item, right)
    } else {
        join(left, item, right)
    }
}

fn get_in<T>(tree: &Option<Box<Node<T>>>, i: usize) -> (r: &T)
    requires
        sized(*tree),
        i < items(*tree).len(),
    ensures
        *r == items(*tree)[i as int],
    decreases *tree,
{
    match tree {
        None => {
            assert(false);
            get_in(tree, i)
        },
        Some(n) => {
            let l: usize = size(&n.left);
            if i < l {
                get_in(&n.left, i)
            } else if i == l {
                &n.item
            } else {
                get_in(&n.right, i - l - 1)
            }
        },
    }
}

fn insert_in<T>(tree: Option<Box<Node<T>>>, i: usize, item: T) -> (r: Option<Box<Node<T>>>)
    requires
        sized(tree),
        i <= items(tree).len(),
        items(tree).len() < usize::MAX,
    ensures
        sized(r),
        items(r) == items(tree).insert(i as int, item),
        levels(tree) <= levels(r) <= levels(tree) + 1,
    decreases tree,
{
    let ghost all = items(tree).insert(i as int, item);
    match tree {
        None => {
            let t = join(None, item, None);
            assert(items(t) =~= all);
            t
        },
        Some(n) => {
            let l: usize = size(&n.left);
            let (a, x, b) = (n.left, n.item, n.right);
            if i <= l {
                let low = insert_in(a, i, item);
                let t = balance(low, x, b);
                assert(items(t) =~= all);
                t
            } else {
                let low = insert_in(b, i - l - 1, item);
                let t = balance(a, x, low);
                assert(items(t) =~= all);
                t
            }
        },
    }
}

fn remove_in<T>(tree: Option<Box<Node<T>>>, i: usize) -> (r: (Option<Box<Node<T>>>, Option<T>))
    requires
        sized(tree),
        i < items(tree).len(),
    ensures
        sized(r.0),
        items(r.0) == items(tree).remove(i as int),
        r.1 == Some(items(tree)[i as int]),
        levels(r.0) <= levels(tree) <= levels(r.0) + 1,
    decreases tree,
{
    let ghost all = items(tree).remove(i as int);
    match tree {
        None => (None, None),
        Some(n) => {
            let l: usize = size(&n.left);
            let (a, x, b) = (n.left, n.item, n.right);
            if i < l {
                let (low, taken) = remove_in(a, i);
                let t = balance(low, x, b);
                assert(items(t) =~= all);
                (t, taken)
            } else if i > l {
                let (low, taken) = remove_in(b, i - l - 1);
                let t = balance(a, x, low);
                assert(items(t) =~= all);
                (t, taken)
            } else if b.is_none() {
                assert(items(a) =~= all);
                (a, Some(x))
            } else {
                let (low, first) = remove_in(b, 0);
                match first {
                    Some(y) => {
                        let t = balance(a, y, low);
                        assert(items(t) =~= all);
                        (t, Some(x))
                    },
                    None => (None, None),
                }
            }
        },
    }
}

/// A sequence with fast access, insertion and removal at any position.
pub struct Rope<T> {
    tree: Option<Box<Node<T>>>,
    /// One unit for every item: its length never leaves the range of `usize`.
    units: Vec<()>,
}

impl<T> View for Rope<T> {
    type V = Seq<T>;

    closed spec fn view(&self) -> Seq<T> {
        items(self.tree)
    }
}

impl<T> Rope<T> {
    #[verifier::type_invariant]
    spec fn wf(&self) -> bool {
        &&& sized(self.tree)
        &&& items(self.tree).len() == self.units@.len()
    }

    pub fn new() -> (r: Rope<T>)
        ensures
            r@ == Seq::<T>::empty(),
    {
        Rope { tree: None, units: Vec::new() }
    }

    pub fn len(&self) -> (n: usize)
        ensures
            n == self@.len(),
    {
        proof {
            use_type_invariant(self);
        }
        self.units.len()
    }

    /// The item at position `i`.
    pub fn get(&self, i: usize) -> (r: &T)
        requires
            i < self@.len(),
        ensures
            *r == self@[i as int],
    {
        proof {
            use_type_invariant(self);
        }
        get_in(&self.tree, i)
    }

    /// Puts an item at position `i`; what was there and behind moves up.
    pub fn insert(self, i: usize, item: T) -> (r: Rope<T>)
        requires
            i <= self@.len(),
        ensures
            r@ == self@.insert(i as int, item),
    {
        proof {
            use_type_invariant(&self);
        }
        let mut units = self.units;
        units.push(());
        assert(units.len() == items(self.tree).len() + 1);
        let tree = insert_in(self.tree, i, item);
        Rope { tree, units }
    }

    /// Takes the item at position `i` out.
    pub fn remove(self, i: usize) -> (r: (Rope<T>, Option<T>))
        requires
            i < self@.len(),
        ensures
            r.0@ == self@.remove(i as int),
            r.1 == Some(self@[i as int]),
    {
        proof {
            use_type_invariant(&self);
        }
        let mut units = self.units;
        let _ = units.pop();
        let (tree, taken) = remove_in(self.tree, i);
        (Rope { tree, units }, taken)
    }
}

} // verus!
