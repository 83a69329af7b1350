//! A binary trie keyed by successive address bits.

use crate::cidr::Cidr;
use vstd::prelude::*;

verus! {

/// A node of a binary trie over address bits.  A node at depth `d`
/// stands for the `d`-bit block spelled by the branch choices taken to
/// reach it; its `data`, if present, is the value stored for exactly
/// that block.
#[derive(Debug)]
pub struct CidrTree<T> {
    pub zero: Option<Box<CidrTree<T>>>,
    pub one: Option<Box<CidrTree<T>>>,
    pub data: Option<T>,
}

/// The node reached from an optional subtree by following the branch
/// bits of `p`, if every child along the way exists.
pub open spec fn opt_node_at<T>(o: Option<Box<CidrTree<T>>>, p: Seq<bool>) -> Option<
    CidrTree<T>,
>
    decreases p.len(),
{
    match o {
        None => None,
        Some(c) => {
            if p.len() == 0 {
                Some(*c)
            } else {
                opt_node_at(c.child(p[0]), p.drop_first())
            }
        },
    }
}

/// The value stored at the path `p` below an optional subtree.
pub open spec fn opt_data_at<T>(o: Option<Box<CidrTree<T>>>, p: Seq<bool>) -> Option<T> {
    match opt_node_at(o, p) {
        None => None,
        Some(n) => n.data,
    }
}

/// Whether a node exists at the path `p` below an optional subtree.
pub open spec fn opt_exists_at<T>(o: Option<Box<CidrTree<T>>>, p: Seq<bool>) -> bool {
    opt_node_at(o, p) is Some
}

impl<T> CidrTree<T> {
    /// The child for one branch bit.
    pub open spec fn child(self, b: bool) -> Option<Box<CidrTree<T>>> {
        if b {
            self.one
        } else {
            self.zero
        }
    }

    /// The node reached by following the branch bits of `p`, if every
    /// child along the way exists.
    pub open spec fn node_at(self, p: Seq<bool>) -> Option<CidrTree<T>> {
        if p.len() == 0 {
            Some(self)
        } else {
            opt_node_at(self.child(p[0]), p.drop_first())
        }
    }

    /// Whether a node exists at exactly the path `p`.
    pub open spec fn exists_at(self, p: Seq<bool>) -> bool {
        self.node_at(p) is Some
    }

    /// The value stored at exactly the path `p`: `None` when the node is
    /// absent or holds no value.
    pub open spec fn data_at(self, p: Seq<bool>) -> Option<T> {
        match self.node_at(p) {
            None => None,
            Some(n) => n.data,
        }
    }

    /// Every value stored on the path spelled by `q`, from the root down
    /// to where `q` bottoms out or a needed child is missing, in
    /// root-to-leaf order.
    pub open spec fn spec_lookup(self, q: Seq<bool>) -> Seq<T>
        decreases q.len(),
    {
        let here = match self.data {
            Some(d) => seq![d],
            None => Seq::<T>::empty(),
        };
        if q.len() == 0 {
            here
        } else {
            match self.child(q[0]) {
                None => here,
                Some(c) => here + c.spec_lookup(q.drop_first()),
            }
        }
    }

    /// Below the first branch, a block is covered when its path either
    /// bottoms out or falls off the tree: nothing finer remains there.
    pub open spec fn covers_below(self, q: Seq<bool>) -> bool
        decreases q.len(),
    {
        q.len() == 0 || match self.child(q[0]) {
            None => true,
            Some(c) => c.covers_below(q.drop_first()),
        }
    }

    /// A block is covered when it is the universal block, or when the
    /// tree has a branch for its leading bit and, below that, its path
    /// either bottoms out or falls off the tree.  An empty tree covers
    /// only the universal block.
    pub open spec fn spec_covers(self, q: Seq<bool>) -> bool {
        q.len() == 0 || match self.child(q[0]) {
            None => false,
            Some(c) => c.covers_below(q.drop_first()),
        }
    }

    /// The effect of inserting `data` at the path `b`: the value stored
    /// at `b` becomes `data` and no other stored value changes, while
    /// exactly the nodes on the path to `b` come into existence.
    pub open spec fn inserted(pre: CidrTree<T>, post: CidrTree<T>, b: Seq<bool>, data: Option<
        T,
    >) -> bool {
        &&& forall|p: Seq<bool>|
            (#[trigger] post.data_at(p)) == if p == b {
                data
            } else {
                pre.data_at(p)
            }
        &&& forall|p: Seq<bool>|
            (#[trigger] post.exists_at(p)) == (pre.exists_at(p) || p.is_prefix_of(b))
    }

    /// A node with no children and no data.
    pub fn new() -> (r: CidrTree<T>)
        ensures
            r.zero is None,
            r.one is None,
            r.data is None,
    {
        CidrTree { zero: None, one: None, data: None }
    }

    /// A node with no children holding `data`.
    pub fn new_with_data(data: T) -> (r: CidrTree<T>)
        ensures
            r.zero is None,
            r.one is None,
            r.data == Some(data),
    {
        CidrTree { zero: None, one: None, data: Some(data) }
    }

    /// Whether a node exists at precisely the depth implied by the
    /// block's length, reached by following existing children the whole
    /// way.  This tests structural existence of the path, not the
    /// presence of a stored value.
    pub fn has_exact(&self, cidr: &Cidr) -> (r: bool)
        requires
            cidr.wf(),
        ensures
            r == self.exists_at(cidr.bits()),
        decreases cidr.length,
    {
        if cidr.length == 0 {
            return true;
        }
        let bitv = cidr.msbit();
        let next = cidr.next();
        if bitv == 0 {
            match &self.zero {
                Some(c) => c.has_exact(&next),
                None => false,
            }
        } else {
            match &self.one {
                Some(c) => c.has_exact(&next),
                None => false,
            }
        }
    }

    /// Whether the tree has no finer-grained branching that would
    /// override a summary at or above the queried block: the query's
    /// path must enter the tree at its first bit, and from there either
    /// bottom out or fall off the tree.  An empty tree covers only the
    /// universal block.
    pub fn covers(&self, cidr: &Cidr) -> (r: bool)
        requires
            cidr.wf(),
        ensures
            r == self.spec_covers(cidr.bits()),
    {
        if cidr.length == 0 {
            return true;
        }
        let bitv = cidr.msbit();
        let next = cidr.next();
        if bitv == 0 {
            match &self.zero {
                Some(c) => c.covers_from(&next),
                None => false,
            }
        } else {
            match &self.one {
                Some(c) => c.covers_from(&next),
                None => false,
            }
        }
    }

    fn covers_from(&self, cidr: &Cidr) -> (r: bool)
        requires
            cidr.wf(),
        ensures
            r == self.covers_below(cidr.bits()),
        decreases cidr.length,
    {
        if cidr.length == 0 {
            return true;
        }
        let bitv = cidr.msbit();
        let next = cidr.next();
        if bitv == 0 {
            match &self.zero {
                Some(c) => c.covers_from(&next),
                None => true,
            }
        } else {
            match &self.one {
                Some(c) => c.covers_from(&next),
                None => true,
            }
        }
    }

    /// Every value stored for a supernet of (or exactly equal to) the
    /// queried block, in root-to-leaf order: the values collected at
    /// each node on the query's path, from the root down to where the
    /// query bottoms out or a needed child is missing.
    pub fn get(&self, cidr: &Cidr) -> (r: Vec<&T>)
        requires
            cidr.wf(),
        ensures
            r@.map_values(|t: &T| *t) == self.spec_lookup(cidr.bits()),
        decreases cidr.length,
    {
        let mut results: Vec<&T> = Vec::new();
        match &self.data {
            Some(d) => results.push(d),
            None => {},
        }
        let ghost here = if self.data is Some {
            seq![self.data->0]
        } else {
            Seq::<T>::empty()
        };
        proof {
            assert(results@.map_values(|t: &T| *t) =~= here);
        }
        if cidr.length > 0 {
            let bitv = cidr.msbit();
            let next = cidr.next();
            if bitv == 0 {
                match &self.zero {
                    Some(c) => {
                        let mut sub = c.get(&next);
                        let ghost subview = sub@;
                        results.append(&mut sub);
                        proof {
                            assert(results@.map_values(|t: &T| *t) =~= here
                                + subview.map_values(|t: &T| *t));
                        }
                    },
                    None => {},
                }
            } else {
                match &self.one {
                    Some(c) => {
                        let mut sub = c.get(&next);
                        let ghost subview = sub@;
                        results.append(&mut sub);
                        proof {
                            assert(results@.map_values(|t: &T| *t) =~= here
                                + subview.map_values(|t: &T| *t));
                        }
                    },
                    None => {},
                }
            }
        }
        results
    }

    /// Every stored value applying to the block named by the text
    /// `cidr`, in root-to-leaf order, or nothing at all when the text
    /// is not a valid block.
    pub fn get_from_str(&self, cidr: &str) -> (r: Vec<&T>)
        ensures
            r@.map_values(|t: &T| *t) == match crate::cidr::spec_cidr_bits(cidr@) {
                Some(b) => self.spec_lookup(b),
                None => Seq::<T>::empty(),
            },
    {
        match Cidr::from_str(cidr) {
            Ok(c) => self.get(&c),
            Err(_) => {
                let r: Vec<&T> = Vec::new();
                proof {
                    assert(r@.map_values(|t: &T| *t) =~= Seq::<T>::empty());
                }
                r
            },
        }
    }

    /// Store `data` for exactly the queried block, creating the nodes
    /// on its path as needed and overwriting any value previously
    /// stored there (`None` marks the node's existence without a
    /// value).  No other stored value changes, and no node is ever
    /// removed.
    pub fn insert(&mut self, cidr: &Cidr, data: Option<T>)
        requires
            cidr.wf(),
        ensures
            Self::inserted(*old(self), *final(self), cidr.bits(), data),
        decreases cidr.length, 0int,
    {
        if cidr.length == 0 {
            self.data = data;
            proof {
                let b = cidr.bits();
                assert(b =~= Seq::<bool>::empty());
                assert forall|p: Seq<bool>| (#[trigger] self.data_at(p)) == (if p == b {
                    data
                } else {
                    old(self).data_at(p)
                }) by {
                    if p.len() == 0 {
                        assert(p =~= b);
                    } else {
                        assert(self.child(p[0]) == old(self).child(p[0]));
                    }
                }
                assert forall|p: Seq<bool>| (#[trigger] self.exists_at(p)) == (old(
                    self,
                ).exists_at(p) || p.is_prefix_of(b)) by {
                    if p.len() == 0 {
                        assert(p =~= b);
                        assert(p.is_prefix_of(b));
                    } else {
                        assert(self.child(p[0]) == old(self).child(p[0]));
                        assert(!p.is_prefix_of(b));
                    }
                }
            }
            return ;
        }
        let bitv = cidr.msbit();
        let next = cidr.next();
        if bitv == 0 {
            Self::insert_child(&mut self.zero, &next, data);
            proof {
                lemma_insert_lift(*old(self), *self, cidr.bits(), data);
            }
        } else {
            Self::insert_child(&mut self.one, &next, data);
            proof {
                lemma_insert_lift(*old(self), *self, cidr.bits(), data);
            }
        }
    }

    fn insert_child(child: &mut Option<Box<CidrTree<T>>>, cidr: &Cidr, data: Option<T>)
        requires
            cidr.wf(),
        ensures
            forall|p: Seq<bool>|
                (#[trigger] opt_data_at(*final(child), p)) == if p == cidr.bits() {
                    data
                } else {
                    opt_data_at(*old(child), p)
                },
            forall|p: Seq<bool>|
                (#[trigger] opt_exists_at(*final(child), p)) == (opt_exists_at(*old(child), p)
                    || p.is_prefix_of(cidr.bits())),
        decreases cidr.length, 1int,
    {
        let ghost b = cidr.bits();
        match child.take() {
            None => {
                let mut node = CidrTree::new();
                let ghost node0 = node;
                node.insert(cidr, data);
                let ghost node1 = node;
                *child = Some(Box::new(node));
                proof {
                    assert forall|p: Seq<bool>| (#[trigger] opt_data_at(*child, p)) == (if p
                        == b {
                        data
                    } else {
                        opt_data_at(None::<Box<CidrTree<T>>>, p)
                    }) by {
                        assert(opt_node_at(*child, p) == node1.node_at(p));
                        if p != b {
                            assert(node1.data_at(p) == node0.data_at(p));
                            if p.len() != 0 {
                                assert(node0.child(p[0]) is None);
                            }
                        }
                    }
                    assert forall|p: Seq<bool>| (#[trigger] opt_exists_at(*child, p)) == (
                    opt_exists_at(None::<Box<CidrTree<T>>>, p) || p.is_prefix_of(b)) by {
                        assert(opt_node_at(*child, p) == node1.node_at(p));
                        assert(node1.exists_at(p) == (node0.exists_at(p) || p.is_prefix_of(b)));
                        if p.len() == 0 {
                            assert(p =~= Seq::<bool>::empty());
                            assert(p.is_prefix_of(b));
                        } else {
                            assert(node0.child(p[0]) is None);
                            assert(!node0.exists_at(p));
                        }
                    }
                }
            },
            Some(mut boxed) => {
                let ghost pre = *boxed;
                proof {
                    assert(*old(child) == Some(boxed));
                    assert((*old(child)) is Some && *((*old(child))->0) == pre);
                }
                (&mut *boxed).insert(cidr, data);
                let ghost post = *boxed;
                *child = Some(boxed);
                proof {
                    assert((*child) is Some && *((*child)->0) == post);
                    assert forall|p: Seq<bool>| (#[trigger] opt_data_at(*child, p)) == (if p
                        == b {
                        data
                    } else {
                        opt_data_at(*old(child), p)
                    }) by {
                        assert(opt_node_at(*child, p) == post.node_at(p));
                        assert(opt_node_at(*old(child), p) == pre.node_at(p));
                        assert(post.data_at(p) == (if p == b {
                            data
                        } else {
                            pre.data_at(p)
                        }));
                    }
                    assert forall|p: Seq<bool>| (#[trigger] opt_exists_at(*child, p)) == (
                    opt_exists_at(*old(child), p) || p.is_prefix_of(b)) by {
                        assert(opt_node_at(*child, p) == post.node_at(p));
                        assert(opt_node_at(*old(child), p) == pre.node_at(p));
                        assert(post.exists_at(p) == (pre.exists_at(p) || p.is_prefix_of(b)));
                    }
                }
            },
        }
    }
}

/// The present values of a sequence of optional values, in order.
pub open spec fn opts_concat<T>(s: Seq<Option<T>>) -> Seq<T>
    decreases s.len(),
{
    if s.len() == 0 {
        Seq::<T>::empty()
    } else {
        match s[0] {
            Some(v) => seq![v] + opts_concat(s.drop_first()),
            None => opts_concat(s.drop_first()),
        }
    }
}

/// The values stored at each depth of the path `q`: entry `d` is the
/// value stored for the first `d` bits of the query.
pub open spec fn path_data<T>(t: CidrTree<T>, q: Seq<bool>) -> Seq<Option<T>> {
    Seq::new(q.len() + 1, |d: int| t.data_at(q.take(d)))
}

/// Law: what a lookup returns is exactly the present values among the
/// data stored at each depth along the query's path, in depth order.
pub proof fn lemma_lookup_path_data<T>(t: CidrTree<T>, q: Seq<bool>)
    ensures
        t.spec_lookup(q) == opts_concat(path_data(t, q)),
    decreases q.len(),
{
    let pd = path_data(t, q);
    let tail = opts_concat(pd.drop_first());
    assert(q.take(0) =~= Seq::<bool>::empty());
    assert(pd[0] == t.data);
    assert(opts_concat(pd) == (if t.data is Some {
        seq![t.data->0] + tail
    } else {
        tail
    }));
    let ghost sub: Seq<T> = if q.len() == 0 || t.child(q[0]) is None {
        Seq::<T>::empty()
    } else {
        (t.child(q[0])->0).spec_lookup(q.drop_first())
    };
    assert(t.spec_lookup(q) == (if t.data is Some {
        seq![t.data->0] + sub
    } else {
        sub
    })) by {
        if t.data is Some {
            if q.len() == 0 || t.child(q[0]) is None {
                assert(t.spec_lookup(q) =~= seq![t.data->0] + sub);
            }
        } else {
            if q.len() == 0 || t.child(q[0]) is None {
                assert(t.spec_lookup(q) =~= sub);
            } else {
                assert(t.spec_lookup(q) =~= sub);
            }
        }
    }
    assert(tail == sub) by {
        if q.len() == 0 {
            assert(pd.drop_first() =~= Seq::<Option<T>>::empty());
            lemma_opts_concat_none(pd.drop_first());
        } else {
            let qd = q.drop_first();
            match t.child(q[0]) {
                None => {
                    assert forall|d: int|
                        0 <= d < pd.drop_first().len() implies pd.drop_first()[d] is None by {
                        let p = q.take(d + 1);
                        assert(p.len() > 0 && p[0] == q[0]);
                        assert(t.node_at(p) == opt_node_at(t.child(q[0]), p.drop_first()));
                    }
                    lemma_opts_concat_none(pd.drop_first());
                },
                Some(c) => {
                    lemma_lookup_path_data(*c, qd);
                    assert forall|d: int|
                        0 <= d < pd.drop_first().len() implies pd.drop_first()[d] == path_data(
                        *c,
                        qd,
                    )[d] by {
                        let p = q.take(d + 1);
                        assert(p.len() > 0 && p[0] == q[0]);
                        assert(t.node_at(p) == opt_node_at(t.child(q[0]), p.drop_first()));
                        assert(p.drop_first() =~= qd.take(d));
                    }
                    assert(pd.drop_first() =~= path_data(*c, qd));
                },
            }
        }
    }
}

/// A sequence of absent values contributes nothing.
proof fn lemma_opts_concat_none<T>(s: Seq<Option<T>>)
    requires
        forall|i: int| 0 <= i < s.len() ==> s[i] is None,
    ensures
        opts_concat(s) == Seq::<T>::empty(),
    decreases s.len(),
{
    if s.len() > 0 {
        lemma_opts_concat_none(s.drop_first());
    }
}

/// A value present anywhere in the sequence is in the concatenation.
proof fn lemma_opts_concat_contains<T>(s: Seq<Option<T>>, i: int, v: T)
    requires
        0 <= i < s.len(),
        s[i] == Some(v),
    ensures
        opts_concat(s).contains(v),
    decreases s.len(),
{
    if i == 0 {
        assert(opts_concat(s)[0] == v);
    } else {
        lemma_opts_concat_contains(s.drop_first(), i - 1, v);
        let rest = opts_concat(s.drop_first());
        let j = choose|j: int| 0 <= j < rest.len() && rest[j] == v;
        match s[0] {
            Some(w) => {
                assert(opts_concat(s)[j + 1] == v);
            },
            None => {
                assert(opts_concat(s)[j] == v);
            },
        }
    }
}

/// A sequence with exactly one present value concatenates to it alone.
proof fn lemma_opts_concat_one<T>(s: Seq<Option<T>>, i: int, v: T)
    requires
        0 <= i < s.len(),
        s[i] == Some(v),
        forall|k: int| 0 <= k < s.len() && k != i ==> s[k] is None,
    ensures
        opts_concat(s) == seq![v],
    decreases s.len(),
{
    if i == 0 {
        lemma_opts_concat_none(s.drop_first());
        assert(opts_concat(s) =~= seq![v]);
    } else {
        lemma_opts_concat_one(s.drop_first(), i - 1, v);
        assert(s[0] is None);
    }
}

/// A sequence with exactly two present values concatenates to the pair,
/// earlier one first.
proof fn lemma_opts_concat_two<T>(s: Seq<Option<T>>, i: int, j: int, v1: T, v2: T)
    requires
        0 <= i < j < s.len(),
        s[i] == Some(v1),
        s[j] == Some(v2),
        forall|k: int| 0 <= k < s.len() && k != i && k != j ==> s[k] is None,
    ensures
        opts_concat(s) == seq![v1, v2],
    decreases s.len(),
{
    if i == 0 {
        lemma_opts_concat_one(s.drop_first(), j - 1, v2);
        assert(opts_concat(s) =~= seq![v1, v2]);
    } else {
        lemma_opts_concat_two(s.drop_first(), i - 1, j - 1, v1, v2);
        assert(s[0] is None);
    }
}

/// Below the first branch the recursion of `covers` always ends by
/// bottoming out or falling off the tree, so it always holds.
proof fn lemma_covers_below_trivial<T>(t: CidrTree<T>, q: Seq<bool>)
    ensures
        t.covers_below(q),
    decreases q.len(),
{
    if q.len() > 0 {
        match t.child(q[0]) {
            None => {},
            Some(c) => {
                lemma_covers_below_trivial(*c, q.drop_first());
            },
        }
    }
}

/// Law: a block is covered exactly when it is the universal block or
/// the tree has a branch for its leading bit; in particular an empty
/// tree covers only the universal block.
pub proof fn lemma_covers_characterization<T>(t: CidrTree<T>, q: Seq<bool>)
    ensures
        t.spec_covers(q) == (q.len() == 0 || t.child(q[0]) is Some),
{
    if q.len() > 0 {
        match t.child(q[0]) {
            None => {},
            Some(c) => {
                lemma_covers_below_trivial(*c, q.drop_first());
            },
        }
    }
}

/// Law: a tree with no children has exactly one existing path, the
/// empty one, so `has_exact` holds there only for the universal block.
pub proof fn lemma_empty_has_exact<T>(t: CidrTree<T>, q: Seq<bool>)
    requires
        t.zero is None,
        t.one is None,
    ensures
        t.exists_at(q) == (q.len() == 0),
{
    if q.len() > 0 {
        assert(t.child(q[0]) is None);
    }
}

/// Law: after an insertion, a block's path exists exactly when it
/// existed before or lies on the inserted block's path.  In particular,
/// insertion followed by `has_exact` on the identical block gives
/// `true`, and a block that was never inserted and shares no inserted
/// path stays absent.
pub proof fn lemma_insert_has_exact<T>(
    pre: CidrTree<T>,
    post: CidrTree<T>,
    b: Seq<bool>,
    data: Option<T>,
    q: Seq<bool>,
)
    requires
        CidrTree::inserted(pre, post, b, data),
    ensures
        post.exists_at(q) == (pre.exists_at(q) || q.is_prefix_of(b)),
        post.exists_at(b),
{
    assert(b.is_prefix_of(b)) by {
        assert(b =~= b.subrange(0, b.len() as int));
    }
    assert(post.exists_at(b) == (pre.exists_at(b) || b.is_prefix_of(b)));
    assert(post.exists_at(q) == (pre.exists_at(q) || q.is_prefix_of(b)));
}

/// Law: a lookup on an empty tree returns the empty sequence, whatever
/// the query.
pub proof fn lemma_lookup_empty<T>(t: CidrTree<T>, q: Seq<bool>)
    requires
        t.zero is None,
        t.one is None,
        t.data is None,
    ensures
        t.spec_lookup(q) == Seq::<T>::empty(),
{
    if q.len() > 0 {
        assert(t.child(q[0]) is None);
    }
}

/// Law: after inserting a value for block `b`, a lookup whose query
/// lies inside `b` (that is, `b` is a prefix of the query's bits)
/// includes that value, and a lookup whose query does not lie inside
/// `b` returns exactly what it returned before the insertion.
pub proof fn lemma_lookup_after_insert<T>(
    pre: CidrTree<T>,
    post: CidrTree<T>,
    b: Seq<bool>,
    data: Option<T>,
    q: Seq<bool>,
)
    requires
        CidrTree::inserted(pre, post, b, data),
    ensures
        b.is_prefix_of(q) && data is Some ==> post.spec_lookup(q).contains(data->0),
        !b.is_prefix_of(q) ==> post.spec_lookup(q) == pre.spec_lookup(q),
{
    lemma_lookup_path_data(post, q);
    lemma_lookup_path_data(pre, q);
    if b.is_prefix_of(q) && data is Some {
        let d = b.len() as int;
        assert(q.take(d) =~= b);
        assert(post.data_at(b) == data);
        assert(path_data(post, q)[d] == Some(data->0));
        lemma_opts_concat_contains(path_data(post, q), d, data->0);
    }
    if !b.is_prefix_of(q) {
        assert forall|dd: int| 0 <= dd < path_data(post, q).len() implies path_data(post, q)[dd]
            == path_data(pre, q)[dd] by {
            let p = q.take(dd);
            assert(p != b) by {
                if p == b {
                    assert(b =~= q.subrange(0, b.len() as int));
                }
            }
            assert(post.data_at(p) == pre.data_at(p));
        }
        assert(path_data(post, q) =~= path_data(pre, q));
    }
}

/// Law: after inserting one value for block `b` into an empty tree, a
/// lookup returns exactly that value for every query inside `b`, and
/// nothing for every query outside it.
pub proof fn lemma_single_insert_lookup<T>(
    t0: CidrTree<T>,
    t1: CidrTree<T>,
    b: Seq<bool>,
    v: T,
    q: Seq<bool>,
)
    requires
        t0.zero is None,
        t0.one is None,
        t0.data is None,
        CidrTree::inserted(t0, t1, b, Some(v)),
    ensures
        t1.spec_lookup(q) == if b.is_prefix_of(q) {
            seq![v]
        } else {
            Seq::<T>::empty()
        },
{
    lemma_lookup_path_data(t1, q);
    let pd = path_data(t1, q);
    assert forall|k: int| 0 <= k < pd.len() && q.take(k) != b implies pd[k] is None by {
        let p = q.take(k);
        assert(t1.data_at(p) == t0.data_at(p));
        if p.len() == 0 {
            assert(t0.data_at(p) == t0.data);
        } else {
            assert(t0.child(p[0]) is None);
            assert(t0.data_at(p) is None);
        }
    }
    if b.is_prefix_of(q) {
        let i = b.len() as int;
        assert(q.take(i) =~= b);
        assert(pd[i] == Some(v)) by {
            assert(t1.data_at(b) == Some(v));
        }
        assert forall|k: int| 0 <= k < pd.len() && k != i implies pd[k] is None by {
            assert(q.take(k).len() == k);
        }
        lemma_opts_concat_one(pd, i, v);
    } else {
        assert forall|k: int| 0 <= k < pd.len() implies pd[k] is None by {
            assert(q.take(k).len() == k);
            assert(q.take(k) != b) by {
                if q.take(k) == b {
                    assert(b =~= q.subrange(0, b.len() as int));
                }
            }
        }
        lemma_opts_concat_none(pd);
    }
}

/// Law: inserting values for two nested blocks into an empty tree and
/// then querying inside the finer block returns exactly both values,
/// the coarser block's value first (root-to-leaf order).
pub proof fn lemma_nested_insert_lookup<T>(
    t0: CidrTree<T>,
    t1: CidrTree<T>,
    t2: CidrTree<T>,
    b1: Seq<bool>,
    b2: Seq<bool>,
    v1: T,
    v2: T,
    q: Seq<bool>,
)
    requires
        t0.zero is None,
        t0.one is None,
        t0.data is None,
        CidrTree::inserted(t0, t1, b1, Some(v1)),
        CidrTree::inserted(t1, t2, b2, Some(v2)),
        b1.len() < b2.len(),
        b1.is_prefix_of(b2),
        b2.is_prefix_of(q),
    ensures
        t2.spec_lookup(q) == seq![v1, v2],
{
    lemma_lookup_path_data(t2, q);
    let pd = path_data(t2, q);
    let i = b1.len() as int;
    let j = b2.len() as int;
    assert(q.take(j) =~= b2);
    assert forall|x: int| 0 <= x < i implies q.take(i)[x] == b1[x] by {
        assert(b1[x] == b2.subrange(0, i)[x]);
        assert(b2[x] == q.subrange(0, j)[x]);
    }
    assert(q.take(i) =~= b1);
    assert(pd[i] == Some(v1)) by {
        assert(t2.data_at(b1) == t1.data_at(b1));
        assert(t1.data_at(b1) == Some(v1));
    }
    assert(pd[j] == Some(v2)) by {
        assert(t2.data_at(b2) == Some(v2));
    }
    assert forall|k: int| 0 <= k < pd.len() && k != i && k != j implies pd[k] is None by {
        let p = q.take(k);
        assert(p.len() == k);
        assert(t2.data_at(p) == t1.data_at(p));
        assert(t1.data_at(p) == t0.data_at(p));
        if p.len() == 0 {
            assert(t0.data_at(p) == t0.data);
        } else {
            assert(t0.child(p[0]) is None);
            assert(t0.data_at(p) is None);
        }
    }
    lemma_opts_concat_two(pd, i, j, v1, v2);
}

/// Two nonempty sequences with equal heads are equal exactly when their
/// tails are.
proof fn lemma_eq_cons(p: Seq<bool>, b: Seq<bool>)
    requires
        p.len() > 0,
        b.len() > 0,
        p[0] == b[0],
    ensures
        (p == b) == (p.drop_first() == b.drop_first()),
{
    let pd = p.drop_first();
    let bd = b.drop_first();
    if pd == bd {
        assert(pd.len() == bd.len());
        assert(p.len() == b.len());
        assert forall|i: int| 0 <= i < p.len() implies p[i] == b[i] by {
            if i > 0 {
                assert(p[i] == pd[i - 1]);
                assert(b[i] == bd[i - 1]);
            }
        }
        assert(p =~= b);
    }
}

/// A nonempty sequence is a prefix of another with the same head exactly
/// when its tail is a prefix of the other's tail.
proof fn lemma_prefix_cons(p: Seq<bool>, b: Seq<bool>)
    requires
        p.len() > 0,
        b.len() > 0,
        p[0] == b[0],
    ensures
        p.is_prefix_of(b) == p.drop_first().is_prefix_of(b.drop_first()),
{
    let pd = p.drop_first();
    let bd = b.drop_first();
    if pd.is_prefix_of(bd) {
        assert forall|i: int| 0 <= i < p.len() implies p[i] == b.subrange(
            0,
            p.len() as int,
        )[i] by {
            if i > 0 {
                assert(p[i] == pd[i - 1]);
                assert(pd[i - 1] == bd.subrange(0, pd.len() as int)[i - 1]);
                assert(bd[i - 1] == b[i]);
            }
        }
        assert(p =~= b.subrange(0, p.len() as int));
        assert(p.is_prefix_of(b));
    }
    if p.is_prefix_of(b) {
        assert forall|i: int| 0 <= i < pd.len() implies pd[i] == bd.subrange(
            0,
            pd.len() as int,
        )[i] by {
            assert(pd[i] == p[i + 1]);
            assert(p[i + 1] == b.subrange(0, p.len() as int)[i + 1]);
            assert(b[i + 1] == bd[i]);
        }
        assert(pd =~= bd.subrange(0, pd.len() as int));
        assert(pd.is_prefix_of(bd));
    }
}

/// Inserting below one branch of a node updates the stored values and
/// existing paths of the whole node pointwise.
proof fn lemma_insert_lift<T>(pre: CidrTree<T>, post: CidrTree<T>, b: Seq<bool>, data: Option<
    T,
>)
    requires
        b.len() > 0,
        post.data == pre.data,
        post.child(!b[0]) == pre.child(!b[0]),
        forall|p: Seq<bool>|
            (#[trigger] opt_data_at(post.child(b[0]), p)) == if p == b.drop_first() {
                data
            } else {
                opt_data_at(pre.child(b[0]), p)
            },
        forall|p: Seq<bool>|
            (#[trigger] opt_exists_at(post.child(b[0]), p)) == (opt_exists_at(
                pre.child(b[0]),
                p,
            ) || p.is_prefix_of(b.drop_first())),
    ensures
        CidrTree::inserted(pre, post, b, data),
{
    assert forall|p: Seq<bool>| (#[trigger] post.data_at(p)) == (if p == b {
        data
    } else {
        pre.data_at(p)
    }) by {
        if p.len() == 0 {
            assert(p != b);
        } else if p[0] == b[0] {
            let pd = p.drop_first();
            let bd = b.drop_first();
            lemma_eq_cons(p, b);
            assert(post.node_at(p) == opt_node_at(post.child(b[0]), pd));
            assert(pre.node_at(p) == opt_node_at(pre.child(b[0]), pd));
            assert(opt_data_at(post.child(b[0]), pd) == (if pd == bd {
                data
            } else {
                opt_data_at(pre.child(b[0]), pd)
            }));
        } else {
            assert(post.node_at(p) == opt_node_at(post.child(p[0]), p.drop_first()));
            assert(pre.node_at(p) == opt_node_at(pre.child(p[0]), p.drop_first()));
            assert(post.child(p[0]) == pre.child(p[0]));
            assert(p != b);
        }
    }
    assert forall|p: Seq<bool>| (#[trigger] post.exists_at(p)) == (pre.exists_at(p)
        || p.is_prefix_of(b)) by {
        if p.len() == 0 {
            assert(p.is_prefix_of(b));
            assert(post.exists_at(p) && pre.exists_at(p));
        } else if p[0] == b[0] {
            let pd = p.drop_first();
            let bd = b.drop_first();
            lemma_prefix_cons(p, b);
            assert(post.node_at(p) == opt_node_at(post.child(b[0]), pd));
            assert(pre.node_at(p) == opt_node_at(pre.child(b[0]), pd));
            assert(opt_exists_at(post.child(b[0]), pd) == (opt_exists_at(pre.child(b[0]), pd)
                || pd.is_prefix_of(bd)));
        } else {
            assert(post.node_at(p) == opt_node_at(post.child(p[0]), p.drop_first()));
            assert(pre.node_at(p) == opt_node_at(pre.child(p[0]), p.drop_first()));
            assert(post.child(p[0]) == pre.child(p[0]));
            assert(!p.is_prefix_of(b)) by {
                if p.is_prefix_of(b) {
                    assert(p[0] == b.subrange(0, p.len() as int)[0]);
                }
            }
        }
    }
}

} // verus!
