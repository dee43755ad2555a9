//! A generic aggregation tree: an ordered sequence of items stored in
//! leaves, where every node caches the combined summary of its subtree.
//!
//! The invariant [`SumTree::wf`] — every cached summary equals the fold
//! of the summaries of the items below it — is established by the
//! constructors and preserved by every mutation. Nodes are shared
//! through reference counting and never mutated once built, so clones
//! of a tree keep their view across later mutations of the original.
use vstd::prelude::*;
use std::sync::Arc;

verus! {

/// An aggregate with an identity and a combining operation.
///
/// `add_spec` is the mathematical combine; `can_add` delimits the inputs
/// on which the executable `add_summary` computes it without overflow.
pub trait Summary: Sized + Copy {
    /// The identity aggregate.
    spec fn identity_spec() -> Self;

    /// The combined aggregate.
    spec fn add_spec(self, other: Self) -> Self;

    /// Whether the executable combine of the two values stays in range.
    spec fn can_add(self, other: Self) -> bool;

    fn identity() -> (r: Self)
        ensures
            r == Self::identity_spec(),
    ;

    fn add_summary(&self, other: &Self) -> (r: Self)
        requires
            self.can_add(*other),
        ensures
            r == self.add_spec(*other),
    ;

    /// The identity combines as a unit on both sides, and combining with
    /// it is always in range.
    proof fn lemma_add_identity(a: Self)
        ensures
            Self::identity_spec().add_spec(a) == a,
            a.add_spec(Self::identity_spec()) == a,
            Self::identity_spec().can_add(a),
            a.can_add(Self::identity_spec()),
    ;

    /// Combining is associative.
    proof fn lemma_add_assoc(a: Self, b: Self, c: Self)
        ensures
            a.add_spec(b).add_spec(c) == a.add_spec(b.add_spec(c)),
    ;

    /// Whatever can be combined after a larger aggregate can be combined
    /// after a smaller one.
    proof fn lemma_can_add_weaken(a: Self, b: Self, c: Self)
        requires
            a.add_spec(b).can_add(c),
        ensures
            b.can_add(c),
    ;

    /// Two combines that stay in range stay in range when reassociated.
    proof fn lemma_can_add_merge(a: Self, b: Self, c: Self)
        requires
            a.can_add(b),
            a.add_spec(b).can_add(c),
        ensures
            a.can_add(b.add_spec(c)),
    ;
}

/// Anything that can be stored in a [`SumTree`]: it yields a [`Summary`].
pub trait Item: Sized + Clone {
    type Summary: Summary;

    /// The summary of this item, as a mathematical value.
    spec fn summarize_spec(self) -> Self::Summary;

    fn summary(&self) -> (r: Self::Summary)
        ensures
            r == self.summarize_spec(),
    ;
}

/// A summary that counts: combining adds the counts, saturating in the
/// mathematical model and guarded by `can_add` in executable code.
#[derive(Debug, Clone, Copy, PartialEq, Eq)]
pub struct Count {
    pub value: usize,
}

impl Summary for Count {
    open spec fn identity_spec() -> Self {
        Count { value: 0 }
    }

    open spec fn add_spec(self, other: Self) -> Self {
        if self.value + other.value <= usize::MAX {
            Count { value: (self.value + other.value) as usize }
        } else {
            Count { value: usize::MAX }
        }
    }

    open spec fn can_add(self, other: Self) -> bool {
        self.value + other.value <= usize::MAX
    }

    fn identity() -> (r: Self) {
        Count { value: 0 }
    }

    fn add_summary(&self, other: &Self) -> (r: Self) {
        Count { value: self.value + other.value }
    }

    proof fn lemma_add_identity(a: Self) {
    }

    proof fn lemma_add_assoc(a: Self, b: Self, c: Self) {
    }

    proof fn lemma_can_add_weaken(a: Self, b: Self, c: Self) {
    }

    proof fn lemma_can_add_merge(a: Self, b: Self, c: Self) {
    }
}

/// A summary of text: byte length and newline count, added pointwise.
#[derive(Debug, Clone, Copy, PartialEq, Eq)]
pub struct TextSummary {
    /// Byte length.
    pub len: usize,
    /// Number of newline bytes.
    pub lines: usize,
}

impl Summary for TextSummary {
    open spec fn identity_spec() -> Self {
        TextSummary { len: 0, lines: 0 }
    }

    open spec fn add_spec(self, other: Self) -> Self {
        TextSummary {
            len: if self.len + other.len <= usize::MAX {
                (self.len + other.len) as usize
            } else {
                usize::MAX
            },
            lines: if self.lines + other.lines <= usize::MAX {
                (self.lines + other.lines) as usize
            } else {
                usize::MAX
            },
        }
    }

    open spec fn can_add(self, other: Self) -> bool {
        self.len + other.len <= usize::MAX && self.lines + other.lines <= usize::MAX
    }

    fn identity() -> (r: Self) {
        TextSummary { len: 0, lines: 0 }
    }

    fn add_summary(&self, other: &Self) -> (r: Self) {
        TextSummary { len: self.len + other.len, lines: self.lines + other.lines }
    }

    proof fn lemma_add_identity(a: Self) {
    }

    proof fn lemma_add_assoc(a: Self, b: Self, c: Self) {
    }

    proof fn lemma_can_add_weaken(a: Self, b: Self, c: Self) {
    }

    proof fn lemma_can_add_merge(a: Self, b: Self, c: Self) {
    }
}

/// Left fold of the items' summaries, starting from the identity.
pub open spec fn fold_summaries<T: Item>(items: Seq<T>) -> T::Summary
    decreases items.len(),
{
    if items.len() == 0 {
        T::Summary::identity_spec()
    } else {
        fold_summaries(items.drop_last()).add_spec(items.last().summarize_spec())
    }
}

/// Whether every step of that fold stays within `can_add`.
pub open spec fn fold_ok<T: Item>(items: Seq<T>) -> bool
    decreases items.len(),
{
    items.len() == 0 || (fold_ok(items.drop_last()) && fold_summaries(items.drop_last()).can_add(
        items.last().summarize_spec(),
    ))
}

/// Folding a concatenation combines the folds of the parts.
pub proof fn lemma_fold_concat<T: Item>(a: Seq<T>, b: Seq<T>)
    ensures
        fold_summaries(a + b) == fold_summaries(a).add_spec(fold_summaries(b)),
    decreases b.len(),
{
    if b.len() == 0 {
        assert(a + b =~= a);
        T::Summary::lemma_add_identity(fold_summaries(a));
    } else {
        lemma_fold_concat(a, b.drop_last());
        assert((a + b).drop_last() =~= a + b.drop_last());
        assert((a + b).last() == b.last());
        T::Summary::lemma_add_assoc(
            fold_summaries(a),
            fold_summaries(b.drop_last()),
            b.last().summarize_spec(),
        );
    }
}

/// A fold that stays in range keeps doing so on any prefix.
pub proof fn lemma_fold_ok_take<T: Item>(items: Seq<T>, j: int)
    requires
        fold_ok(items),
        0 <= j <= items.len(),
    ensures
        fold_ok(items.take(j)),
    decreases items.len(),
{
    if j == items.len() {
        assert(items.take(j) =~= items);
    } else {
        assert(items.take(j) =~= items.drop_last().take(j));
        lemma_fold_ok_take(items.drop_last(), j);
    }
}

/// A fold that stays in range keeps doing so on any suffix, and the
/// prefix's fold can be combined with the suffix's.
pub proof fn lemma_fold_ok_skip<T: Item>(items: Seq<T>, a: int)
    requires
        fold_ok(items),
        0 <= a <= items.len(),
    ensures
        fold_ok(items.skip(a)),
        fold_summaries(items.take(a)).can_add(fold_summaries(items.skip(a))),
        fold_summaries(items) == fold_summaries(items.take(a)).add_spec(
            fold_summaries(items.skip(a)),
        ),
    decreases items.len(),
{
    lemma_fold_concat(items.take(a), items.skip(a));
    assert(items.take(a) + items.skip(a) =~= items);
    if a == items.len() {
        assert(items.skip(a) =~= Seq::<T>::empty());
        T::Summary::lemma_add_identity(fold_summaries(items.take(a)));
    } else {
        let d = items.drop_last();
        lemma_fold_ok_skip(d, a);
        assert(d.take(a) =~= items.take(a));
        assert(items.skip(a).drop_last() =~= d.skip(a));
        assert(items.skip(a).last() == items.last());
        lemma_fold_concat(d.take(a), d.skip(a));
        assert(d.take(a) + d.skip(a) =~= d);
        T::Summary::lemma_can_add_weaken(
            fold_summaries(d.take(a)),
            fold_summaries(d.skip(a)),
            items.last().summarize_spec(),
        );
        T::Summary::lemma_can_add_merge(
            fold_summaries(d.take(a)),
            fold_summaries(d.skip(a)),
            items.last().summarize_spec(),
        );
        T::Summary::lemma_add_assoc(
            fold_summaries(d.take(a)),
            fold_summaries(d.skip(a)),
            items.last().summarize_spec(),
        );
    }
}

/// One step of the fold along a prefix.
pub proof fn lemma_fold_step<T: Item>(items: Seq<T>, j: int)
    requires
        fold_ok(items),
        0 <= j < items.len(),
    ensures
        fold_summaries(items.take(j)).can_add(items[j].summarize_spec()),
        fold_summaries(items.take(j + 1)) == fold_summaries(items.take(j)).add_spec(
            items[j].summarize_spec(),
        ),
{
    lemma_fold_ok_take(items, j + 1);
    assert(items.take(j + 1).drop_last() =~= items.take(j));
    assert(items.take(j + 1).last() == items[j]);
}

/// A tree node: a leaf holding items, or an internal node holding
/// shared children; either way it caches the summary of its subtree.
pub enum Node<T: Item> {
    Leaf { items: Vec<T>, summary: T::Summary },
    Internal { children: Vec<Arc<Node<T>>>, summary: T::Summary },
}

/// The items below a node, in order.
pub open spec fn node_items<T: Item>(n: Node<T>) -> Seq<T>
    decreases n,
{
    match n {
        Node::Leaf { items, .. } => items@,
        Node::Internal { children, .. } => children_items(children@),
    }
}

/// The items below a shared node.
pub open spec fn arc_items<T: Item>(c: Arc<Node<T>>) -> Seq<T> {
    node_items(*c)
}

/// The items below a sequence of children, in order.
pub open spec fn children_items<T: Item>(cs: Seq<Arc<Node<T>>>) -> Seq<T>
    decreases cs,
{
    if cs.len() == 0 {
        Seq::empty()
    } else {
        children_items(cs.drop_last()) + node_items(*cs.last())
    }
}

/// The cached summary of a node.
pub open spec fn node_summary<T: Item>(n: Node<T>) -> T::Summary {
    match n {
        Node::Leaf { summary, .. } => summary,
        Node::Internal { summary, .. } => summary,
    }
}

/// Well-formedness of a node: it is non-empty, its fold stays in range,
/// its cached summary is the fold of its items, and its children are
/// well-formed in turn.
pub open spec fn node_wf<T: Item>(n: Node<T>) -> bool
    decreases n,
{
    &&& node_items(n).len() > 0
    &&& fold_ok(node_items(n))
    &&& node_summary(n) == fold_summaries(node_items(n))
    &&& match n {
        Node::Leaf { .. } => true,
        Node::Internal { children, .. } => children_wf(children@),
    }
}

/// Well-formedness of every node in a child sequence.
pub open spec fn children_wf<T: Item>(cs: Seq<Arc<Node<T>>>) -> bool
    decreases cs,
{
    cs.len() == 0 || (children_wf(cs.drop_last()) && node_wf(*cs.last()))
}

/// Appending a child appends its items.
pub proof fn lemma_children_items_push<T: Item>(cs: Seq<Arc<Node<T>>>, c: Arc<Node<T>>)
    ensures
        children_items(cs.push(c)) == children_items(cs) + node_items(*c),
{
    assert(cs.push(c).drop_last() =~= cs);
    assert(cs.push(c).last() == c);
}

/// Appending a well-formed child keeps the sequence well-formed.
pub proof fn lemma_children_wf_push<T: Item>(cs: Seq<Arc<Node<T>>>, c: Arc<Node<T>>)
    requires
        children_wf(cs),
        node_wf(*c),
    ensures
        children_wf(cs.push(c)),
{
    assert(cs.push(c).drop_last() =~= cs);
    assert(cs.push(c).last() == c);
}

/// A prefix of the children carries a prefix of the items.
pub proof fn lemma_children_items_take<T: Item>(cs: Seq<Arc<Node<T>>>, k: int)
    requires
        0 <= k < cs.len(),
    ensures
        children_items(cs.take(k + 1)) == children_items(cs.take(k)) + node_items(*cs[k]),
{
    assert(cs.take(k + 1).drop_last() =~= cs.take(k));
    assert(cs.take(k + 1).last() == cs[k]);
}

/// Items stored per leaf; a small constant so leaves stay shallow.
pub const LEAF_SIZE: usize = 8;

/// The aggregation tree: an optional root node. An empty tree has none.
pub struct SumTree<T: Item> {
    root: Option<Arc<Node<T>>>,
}

impl<T: Item> SumTree<T> {
    /// The items stored in the tree, in order.
    pub closed spec fn items(self) -> Seq<T> {
        match self.root {
            Some(n) => node_items(*n),
            None => Seq::empty(),
        }
    }

    /// Every cached summary equals the fold of the items below it, and
    /// no node is empty.
    pub closed spec fn wf(self) -> bool {
        match self.root {
            Some(n) => node_wf(*n),
            None => true,
        }
    }

    /// Create an empty tree.
    pub fn new() -> (r: Self)
        ensures
            r.wf(),
            r.items() == Seq::<T>::empty(),
    {
        SumTree { root: None }
    }

    /// The combined summary of all items, read from the root's cache.
    pub fn summary(&self) -> (r: T::Summary)
        requires
            self.wf(),
        ensures
            r == fold_summaries(self.items()),
    {
        match &self.root {
            Some(node) => match &**node {
                Node::Leaf { summary, .. } => *summary,
                Node::Internal { summary, .. } => *summary,
            },
            None => T::Summary::identity(),
        }
    }

    /// Whether the tree holds no items.
    pub fn is_empty(&self) -> (r: bool)
        requires
            self.wf(),
        ensures
            r == (self.items().len() == 0),
    {
        self.root.is_none()
    }

    /// Append one item, recomputing the cached summary at the root.
    /// The old root is shared, not copied.
    pub fn push(&mut self, item: T)
        requires
            old(self).wf(),
            fold_summaries(old(self).items()).can_add(item.summarize_spec()),
        ensures
            final(self).wf(),
            final(self).items() == old(self).items().push(item),
    {
        let ghost old_items = old(self).items();
        let ghost item_sum = item.summarize_spec();
        let new_summary = item.summary();
        let mut leaf_items: Vec<T> = Vec::new();
        leaf_items.push(item);
        proof {
            T::Summary::lemma_add_identity(item_sum);
            assert(leaf_items@.drop_last() =~= Seq::<T>::empty());
            assert(leaf_items@.last() == item);
            assert(fold_summaries(Seq::<T>::empty()) == T::Summary::identity_spec());
            assert(fold_ok(Seq::<T>::empty()));
            assert(fold_summaries(leaf_items@) == item_sum);
            assert(fold_ok(leaf_items@));
        }
        let new_leaf = Arc::new(Node::Leaf { items: leaf_items, summary: new_summary });
        match self.root.take() {
            None => {
                proof {
                    assert(old_items =~= Seq::<T>::empty());
                    assert(node_items(*new_leaf) =~= old_items.push(item));
                }
                self.root = Some(new_leaf);
            },
            Some(old_root) => {
                let root_summary = match &*old_root {
                    Node::Leaf { summary, .. } => *summary,
                    Node::Internal { summary, .. } => *summary,
                };
                let combined = root_summary.add_summary(&new_summary);
                let mut children: Vec<Arc<Node<T>>> = Vec::new();
                children.push(old_root);
                children.push(new_leaf);
                proof {
                    let cs = children@;
                    assert(cs.drop_last() =~= seq![cs[0]]);
                    assert(cs.drop_last().drop_last() =~= Seq::<Arc<Node<T>>>::empty());
                    assert(children_items(cs.drop_last().drop_last()) =~= Seq::<T>::empty());
                    assert(cs.drop_last().last() == cs[0]);
                    assert(cs.last() == cs[1]);
                    assert(cs[0] == old_root && cs[1] == new_leaf);
                    assert(node_items(*old_root) == old_items);
                    assert(node_items(*new_leaf) =~= seq![item]);
                    assert(children_items(cs.drop_last()) =~= node_items(*cs[0]));
                    assert(children_items(cs) =~= old_items.push(item));
                    assert(node_wf(*old_root));
                    assert(node_wf(*new_leaf));
                    assert(children_wf(cs.drop_last().drop_last()));
                    assert(children_wf(cs.drop_last()));
                    assert(old_items.push(item).drop_last() =~= old_items);
                    assert(fold_summaries(old_items.push(item)) == combined);
                    assert(children_wf(cs));
                }
                self.root = Some(Arc::new(Node::Internal { children, summary: combined }));
            },
        }
    }

    /// Build a tree over a whole item sequence in one pass: the items are
    /// grouped into leaves of up to [`LEAF_SIZE`], all under one root.
    pub fn from_items(items: Vec<T>) -> (r: Self)
        requires
            fold_ok(items@),
        ensures
            r.wf(),
            r.items() == items@,
    {
        let ghost all = items@;
        if items.len() == 0 {
            let r = SumTree { root: None };
            proof {
                assert(r.items() =~= all);
            }
            return r;
        }
        let mut remaining = items;
        let mut leaves: Vec<Arc<Node<T>>> = Vec::new();
        let mut total = T::Summary::identity();
        proof {
            assert(children_items(leaves@) =~= Seq::<T>::empty());
            assert(children_items(leaves@) + remaining@ =~= all);
            assert(all.take(0) =~= Seq::<T>::empty());
        }
        while remaining.len() > 0
            invariant
                fold_ok(all),
                children_items(leaves@) + remaining@ == all,
                children_items(leaves@).len() + remaining@.len() == all.len(),
                children_wf(leaves@),
                total == fold_summaries(all.take(children_items(leaves@).len() as int)),
            decreases remaining.len(),
        {
            let ghost consumed = children_items(leaves@).len() as int;
            proof {
                assert(children_items(leaves@) =~= all.take(consumed));
                assert(remaining@ =~= all.skip(consumed));
            }
            let mut leaf_items = remaining;
            remaining = if leaf_items.len() > LEAF_SIZE {
                leaf_items.split_off(LEAF_SIZE)
            } else {
                Vec::new()
            };
            let ghost seg = leaf_items@;
            let ghost upto = consumed + seg.len() as int;
            proof {
                assert(seg =~= all.subrange(consumed, upto));
                assert(remaining@ =~= all.skip(upto));
                lemma_fold_ok_take(all, upto);
                lemma_fold_ok_skip(all.take(upto), consumed);
                assert(all.take(upto).skip(consumed) =~= seg);
                assert(all.take(upto).take(consumed) =~= all.take(consumed));
                assert(fold_ok(seg));
                assert(seg.take(0) =~= Seq::<T>::empty());
            }
            let mut ls = T::Summary::identity();
            let mut j: usize = 0;
            while j < leaf_items.len()
                invariant
                    leaf_items@ == seg,
                    fold_ok(seg),
                    0 <= j <= seg.len(),
                    ls == fold_summaries(seg.take(j as int)),
                decreases seg.len() - j,
            {
                proof {
                    lemma_fold_step(seg, j as int);
                }
                let s = leaf_items[j].summary();
                ls = ls.add_summary(&s);
                j += 1;
            }
            proof {
                assert(seg.take(seg.len() as int) =~= seg);
            }
            let leaf = Arc::new(Node::Leaf { items: leaf_items, summary: ls });
            proof {
                assert(node_items(*leaf) == seg);
                assert(node_wf(*leaf));
                lemma_children_items_push(leaves@, leaf);
                lemma_children_wf_push(leaves@, leaf);
                assert(children_items(leaves@.push(leaf)) =~= all.take(upto));
            }
            total = total.add_summary(&ls);
            leaves.push(leaf);
        }
        proof {
            assert(children_items(leaves@) =~= all);
            assert(all.take(all.len() as int) =~= all);
        }
        let root = Node::Internal { children: leaves, summary: total };
        let r = SumTree { root: Some(Arc::new(root)) };
        proof {
            assert(r.items() == all);
            assert(node_wf(root));
        }
        r
    }

    /// Clone all items out of the tree, in order.
    pub fn to_vec(&self) -> (r: Vec<T>)
        ensures
            r@.len() == self.items().len(),
            forall|i: int| 0 <= i < r@.len() ==> cloned::<T>(self.items()[i], #[trigger] r@[i]),
    {
        let mut out: Vec<T> = Vec::new();
        match &self.root {
            None => {},
            Some(root) => {
                collect_node(&**root, &mut out);
                proof {
                    assert(self.items() == node_items(**root));
                    assert forall|i: int| 0 <= i < out@.len() implies cloned::<T>(
                        self.items()[i],
                        out@[i],
                    ) by {
                        assert(cloned::<T>(node_items(**root)[i], out@[0 + i]));
                    };
                }
            },
        }
        out
    }

    /// A restartable in-order pass over clones of the items.
    pub fn iter(&self) -> (it: SumTreeIter<T>)
        ensures
            it.remaining().len() == self.items().len(),
            forall|i: int|
                0 <= i < it.remaining().len() ==> cloned::<T>(
                    self.items()[i],
                    #[trigger] it.remaining()[i],
                ),
    {
        SumTreeIter { items: self.to_vec(), pos: 0 }
    }
}

/// Append clones of all items below `n` to `out`, in order.
#[verifier::loop_isolation(false)]
fn collect_node<T: Item>(n: &Node<T>, out: &mut Vec<T>)
    ensures
        final(out)@.len() == old(out)@.len() + node_items(*n).len(),
        forall|i: int| 0 <= i < old(out)@.len() ==> final(out)@[i] == old(out)@[i],
        forall|i: int|
            0 <= i < node_items(*n).len() ==> cloned::<T>(
                node_items(*n)[i],
                #[trigger] final(out)@[old(out)@.len() + i],
            ),
    decreases *n,
{
    match n {
        Node::Leaf { items, .. } => {
            let ghost base = out@.len() as int;
            let mut j: usize = 0;
            while j < items.len()
                invariant
                    0 <= j <= items@.len(),
                    out@.len() == base + j,
                    forall|i: int| 0 <= i < base ==> out@[i] == old(out)@[i],
                    forall|i: int|
                        0 <= i < j ==> cloned::<T>(items@[i], #[trigger] out@[base + i]),
                decreases items@.len() - j,
            {
                let x = items[j].clone();
                proof {
                    assert(cloned::<T>(items@[j as int], x));
                }
                out.push(x);
                j += 1;
            }
        },
        Node::Internal { children, .. } => {
            let ghost base = out@.len() as int;
            let mut k: usize = 0;
            while k < children.len()
                invariant
                    0 <= k <= children@.len(),
                    out@.len() == base + children_items(children@.take(k as int)).len(),
                    forall|i: int| 0 <= i < base ==> out@[i] == old(out)@[i],
                    forall|i: int|
                        0 <= i < children_items(children@.take(k as int)).len() ==> cloned::<T>(
                            children_items(children@.take(k as int))[i],
                            #[trigger] out@[base + i],
                        ),
                decreases children@.len() - k,
            {
                let c = &children[k];
                let ghost pre = out@;
                let ghost csk = children_items(children@.take(k as int));
                let ghost seg = arc_items(children@[k as int]);
                proof {
                    assert(decreases_to!(children@ => children@[k as int]));
                    assert(decreases_to!(*children => children@));
                    assert(decreases_to!(*n => *children));
                    assert(**c == children@[k as int]);
                }
                collect_node(&**c, out);
                proof {
                    lemma_children_items_take(children@, k as int);
                    assert(children_items(children@.take(k as int + 1)) == csk + seg);
                    assert(out@.len() == base + csk.len() + seg.len());
                    assert forall|i: int| 0 <= i < csk.len() + seg.len() implies cloned::<T>(
                        (csk + seg)[i],
                        out@[base + i],
                    ) by {
                        if i < csk.len() {
                            assert(out@[base + i] == pre[base + i]);
                            assert((csk + seg)[i] == csk[i]);
                        } else {
                            assert((csk + seg)[i] == seg[i - csk.len()]);
                            assert(pre.len() == base + csk.len());
                            assert(cloned::<T>(seg[i - csk.len()], out@[pre.len() + (i
                                - csk.len())]));
                        }
                    };
                }
                k += 1;
            }
            proof {
                assert(children@.take(children@.len() as int) =~= children@);
                assert(node_items(*n) == children_items(children@));
            }
        },
    }
}

impl<T: Item> Default for SumTree<T> {
    /// The default tree is empty.
    fn default() -> (r: Self)
        ensures
            r.wf(),
            r.items() == Seq::<T>::empty(),
    {
        SumTree::new()
    }
}

impl<T: Item> Clone for SumTree<T> {
    /// Cloning shares the root: the copy sees the same items, and later
    /// mutation of either tree never touches nodes the other can reach.
    fn clone(&self) -> (r: Self)
        ensures
            r == *self,
    {
        match &self.root {
            None => SumTree { root: None },
            Some(a) => SumTree { root: Some(a.clone()) },
        }
    }
}

/// An in-order pass over clones of a tree's items; `next` hands them out
/// one at a time and can be called past the end.
pub struct SumTreeIter<T: Item> {
    items: Vec<T>,
    pos: usize,
}

impl<T: Item> SumTreeIter<T> {
    /// The items this pass has not yet handed out.
    pub closed spec fn remaining(self) -> Seq<T> {
        if self.pos as int <= self.items@.len() {
            self.items@.skip(self.pos as int)
        } else {
            Seq::empty()
        }
    }

    /// Hand out a clone of the next item, or nothing at the end.
    pub fn next(&mut self) -> (r: Option<T>)
        ensures
            old(self).remaining().len() == 0 ==> r is None && final(self).remaining()
                == old(self).remaining(),
            old(self).remaining().len() > 0 ==> (r matches Some(x) && cloned::<T>(
                old(self).remaining()[0],
                x,
            )) && final(self).remaining() == old(self).remaining().drop_first(),
    {
        if self.pos < self.items.len() {
            let item = self.items[self.pos].clone();
            self.pos += 1;
            proof {
                assert(self.items@.skip(self.pos as int) =~= old(self).remaining().drop_first());
            }
            Some(item)
        } else {
            proof {
                assert(old(self).remaining() =~= Seq::<T>::empty());
            }
            None
        }
    }
}

/// A position marker for walking a tree from the front.
pub struct Cursor<'a, T: Item> {
    tree: &'a SumTree<T>,
    position: usize,
}

impl<'a, T: Item> Cursor<'a, T> {
    /// The byte position this cursor stands at.
    pub closed spec fn position_spec(self) -> usize {
        self.position
    }

    /// Create a cursor at the beginning of the tree.
    pub fn new(tree: &'a SumTree<T>) -> (r: Self)
        ensures
            r.position_spec() == 0,
    {
        Cursor { tree, position: 0 }
    }

    /// The current position.
    pub fn position(&self) -> (r: usize)
        ensures
            r == self.position_spec(),
    {
        self.position
    }
}

} // verus!
