//! The aggregation tree: incremental insertion with merge-based
//! restructuring, and extraction of the covering subnets.

use vstd::prelude::*;

use vstd::multiset::Multiset;

use crate::bits::lemma_mask_absorb;
use crate::subnet::{common_of_spec, lemma_common_search_props, Subnet};

verus! {

/// The mathematical shape of an aggregation tree node: its subnet and,
/// when present, the shapes of its children in order.
#[verifier::ext_equal]
pub struct TreeView {
    pub subnet: Subnet,
    pub children: Option<Seq<TreeView>>,
}

/// A node of the aggregation tree. `children` is absent for a fresh node
/// and present once anything was placed below it.
#[derive(Debug)]
pub struct AddressTree {
    pub subnet: Subnet,
    pub children: Option<Vec<AddressTree>>,
}

/// The shape of a node, children mapped recursively.
pub open spec fn tree_view(t: AddressTree) -> TreeView
    decreases t,
{
    match t.children {
        None => TreeView { subnet: t.subnet, children: None },
        Some(kids) => TreeView { subnet: t.subnet, children: Some(kids_view(kids@)) },
    }
}

/// The shapes of a sequence of nodes, in order.
pub open spec fn kids_view(s: Seq<AddressTree>) -> Seq<TreeView>
    decreases s,
{
    if s.len() == 0 {
        Seq::empty()
    } else {
        seq![tree_view(s[0])] + kids_view(s.drop_first())
    }
}

impl View for AddressTree {
    type V = TreeView;

    open spec fn view(&self) -> TreeView {
        tree_view(*self)
    }
}

pub broadcast proof fn lemma_kids_view(s: Seq<AddressTree>)
    ensures
        (#[trigger] kids_view(s)).len() == s.len(),
        forall|i: int| 0 <= i < s.len() ==> kids_view(s)[i] == tree_view(s[i]),
    decreases s.len(),
{
    if s.len() > 0 {
        lemma_kids_view(s.drop_first());
        assert forall|i: int| 0 <= i < s.len() implies kids_view(s)[i] == tree_view(s[i]) by {
            if i > 0 {
                assert(s.drop_first()[i - 1] == s[i]);
                assert(kids_view(s)[i] == kids_view(s.drop_first())[i - 1]);
            }
        }
    }
}

pub broadcast proof fn lemma_tree_view_subnet(t: AddressTree)
    ensures
        (#[trigger] tree_view(t)).subnet == t.subnet,
{
}

/// The shape of a single observed address.
pub open spec fn leaf_view(s: Subnet) -> TreeView {
    TreeView { subnet: s, children: None }
}

/// What must hold of a child below a node with subnet `parent`: it is
/// covered by the parent, it is itself well-formed, and a childless node
/// stands for one observed address.
pub open spec fn child_ok(parent: Subnet, c: TreeView) -> bool
    decreases c, 1int,
{
    &&& parent.contains_spec(c.subnet)
    &&& c.wf()
    &&& c.children is None ==> c.subnet.mask_len == 32
}

impl TreeView {
    /// Structural invariant of a tree: canonical subnets throughout, and
    /// every node covering all its children.
    pub open spec fn wf(self) -> bool
        decreases self, 0int,
    {
        &&& self.subnet.wf()
        &&& match self.children {
            None => true,
            Some(kids) => forall|i: int|
                0 <= i < kids.len() ==> child_ok(self.subnet, #[trigger] kids[i]),
        }
    }
}

/// The first index whose element satisfies `pred`, or the length.
pub open spec fn first_where(s: Seq<TreeView>, pred: spec_fn(TreeView) -> bool) -> int
    decreases s.len(),
{
    if s.len() == 0 {
        0
    } else if pred(s[0]) {
        0
    } else {
        1 + first_where(s.drop_first(), pred)
    }
}

pub proof fn lemma_first_where(s: Seq<TreeView>, pred: spec_fn(TreeView) -> bool)
    ensures
        0 <= first_where(s, pred) <= s.len(),
        forall|j: int| 0 <= j < first_where(s, pred) ==> !pred(#[trigger] s[j]),
        first_where(s, pred) < s.len() ==> pred(s[first_where(s, pred)]),
    decreases s.len(),
{
    if s.len() > 0 && !pred(s[0]) {
        lemma_first_where(s.drop_first(), pred);
        assert forall|j: int| 0 <= j < first_where(s, pred) implies !pred(s[j]) by {
            if j > 0 {
                assert(s.drop_first()[j - 1] == s[j]);
            }
        }
    }
}

pub proof fn lemma_first_where_at(s: Seq<TreeView>, pred: spec_fn(TreeView) -> bool, i: int)
    requires
        0 <= i <= s.len(),
        forall|j: int| 0 <= j < i ==> !pred(#[trigger] s[j]),
        i < s.len() ==> pred(s[i]),
    ensures
        first_where(s, pred) == i,
    decreases s.len(),
{
    if s.len() > 0 && !pred(s[0]) {
        lemma_first_where_at(s.drop_first(), pred, i - 1);
    }
}

/// A child whose subtree accepts the incoming leaf outright.
pub open spec fn accepts_pred(s: Subnet) -> spec_fn(TreeView) -> bool {
    |c: TreeView| c.subnet.contains_spec(s)
}

/// A child that shares, with the incoming leaf, a supernet of at least
/// `min` bits.
pub open spec fn merge_pred(s: Subnet, min: int) -> spec_fn(TreeView) -> bool {
    |c: TreeView| common_of_spec(c.subnet, s, min) is Some
}

/// Where the incoming leaf `s` settles below `t`: the first child that
/// accepts it, else a stepdown at the first child that shares a deep
/// enough supernet, else a new sibling at the end.
pub open spec fn tree_insert(t: TreeView, s: Subnet) -> TreeView
    decreases t,
    via tree_insert_decreases
{
    match t.children {
        None => TreeView { subnet: t.subnet, children: Some(seq![leaf_view(s)]) },
        Some(kids) => {
            let i = first_where(kids, accepts_pred(s));
            if i < kids.len() {
                TreeView {
                    subnet: t.subnet,
                    children: Some(kids.update(i, tree_insert(kids[i], s))),
                }
            } else {
                let min = t.subnet.mask_len + 1;
                let j = first_where(kids, merge_pred(s, min));
                if j < kids.len() {
                    let c = common_of_spec(kids[j].subnet, s, min)->0;
                    TreeView {
                        subnet: t.subnet,
                        children: Some(
                            kids.update(
                                j,
                                TreeView { subnet: c, children: Some(seq![kids[j], leaf_view(s)]) },
                            ),
                        ),
                    }
                } else {
                    TreeView { subnet: t.subnet, children: Some(kids.push(leaf_view(s))) }
                }
            }
        },
    }
}

/// The tree after inserting the addresses one at a time, taken from the
/// back of the sequence.
pub open spec fn tree_insert_all(t: TreeView, addrs: Seq<Subnet>) -> TreeView
    decreases addrs.len(),
{
    if addrs.len() == 0 {
        t
    } else {
        tree_insert_all(tree_insert(t, addrs.last()), addrs.drop_last())
    }
}

#[via_fn]
proof fn tree_insert_decreases(t: TreeView, s: Subnet) {
    match t.children {
        None => {},
        Some(kids) => {
            let i = first_where(kids, accepts_pred(s));
            lemma_first_where(kids, accepts_pred(s));
            if i < kids.len() {
                assert(decreases_to!(t => kids));
                assert(decreases_to!(kids => kids[i]));
                assert(decreases_to!(t => kids[i]));
            }
        },
    }
}

impl AddressTree {
    /// A fresh empty tree rooted at the universal prefix.
    pub fn new() -> (r: Self)
        ensures
            r@ == (TreeView { subnet: Subnet::root_spec(), children: None }),
            r@.wf(),
    {
        AddressTree { subnet: Subnet::root(), children: None }
    }

    /// A fresh childless node at `subnet`.
    fn of(subnet: Subnet) -> (r: Self)
        ensures
            r@ == leaf_view(subnet),
    {
        AddressTree { subnet, children: None }
    }

    /// Demotes this node below a freshly synthesized parent carrying
    /// `new_subnet`, alongside `neighbour`; the old occupant keeps its
    /// whole subtree and comes first.
    fn stepdown(&mut self, new_subnet: Subnet, neighbour: AddressTree)
        ensures
            final(self)@ == (TreeView {
                subnet: new_subnet,
                children: Some(seq![old(self)@, neighbour@]),
            }),
    {
        broadcast use lemma_kids_view;

        let old_subnet: Subnet = self.subnet;
        self.subnet = new_subnet;
        let kids_opt: Option<Vec<AddressTree>> = self.children.take();
        let new_me = AddressTree { subnet: old_subnet, children: kids_opt };
        proof {
            assert(new_me@ == old(self)@);
        }
        let mut v: Vec<AddressTree> = Vec::new();
        v.push(new_me);
        v.push(neighbour);
        self.children = Some(v);
        proof {
            assert(kids_view(self.children->0@) =~= seq![old(self)@, neighbour@]);
        }
    }

    /// Places the leaf `s` into the subtree rooted at `t` and returns the
    /// rebuilt subtree.
    fn insert_into(t: AddressTree, s: Subnet) -> (r: AddressTree)
        requires
            t@.wf(),
            s.wf(),
            s.mask_len == 32,
            t.subnet.contains_spec(s),
        ensures
            r@ == tree_insert(t@, s),
        decreases t,
    {
        let mut node = t;
        let kids_opt: Option<Vec<AddressTree>> = node.children.take();
        match kids_opt {
            None => {
                let mut v: Vec<AddressTree> = Vec::new();
                v.push(Self::of(s));
                proof {
                    lemma_kids_view(v@);
                    assert(kids_view(v@) =~= seq![leaf_view(s)]);
                }
                node.children = Some(v);
                proof {
                    assert(node@ == tree_insert(t@, s));
                }
                node
            },
            Some(mut kids) => {
                let n: usize = kids.len();
                let ghost kids0 = kids@;
                let ghost kv = kids_view(kids0);
                proof {
                    lemma_kids_view(kids0);
                    assert(t@.children == Some(kv));
                }
                // first pass: the first child that accepts the leaf takes
                // it, recursively
                let mut i: usize = 0;
                while i < n
                    invariant
                        i <= n,
                        n == kids0.len(),
                        kids@ == kids0,
                        kv == kids_view(kids0),
                        kids0 == t.children->0@,
                        t@.wf(),
                        t@.children == Some(kv),
                        node.subnet == t.subnet,
                        node.children is None,
                        s.wf(),
                        s.mask_len == 32,
                        t.subnet.contains_spec(s),
                        forall|q: int| 0 <= q < i ==> !(#[trigger] kv[q]).subnet.contains_spec(s),
                    decreases n - i,
                {
                    proof {
                        lemma_kids_view(kids0);
                        assert(kv[i as int] == tree_view(kids0[i as int]));
                    }
                    if kids[i].subnet.contains(&s) {
                        let ch = kids.remove(i);
                        proof {
                            assert(ch == t.children->0@[i as int]);
                            assert(decreases_to!(t => t.children));
                            assert(decreases_to!(t.children => t.children->0));
                            assert(decreases_to!(t.children->0 => t.children->0@));
                            assert(decreases_to!(t.children->0@ => t.children->0@[i as int]));
                            assert(decreases_to!(t => ch));
                            assert(child_ok(t@.subnet, kv[i as int]));
                            assert(ch@ == kv[i as int]);
                            assert(ch@.wf() && ch.subnet.contains_spec(s));
                        }
                        let ch2 = Self::insert_into(ch, s);
                        let ghost removed = kids@;
                        kids.insert(i, ch2);
                        node.children = Some(kids);
                        proof {
                            lemma_first_where_at(kv, accepts_pred(s), i as int);
                            kids0.remove_ensures(i as int);
                            removed.insert_ensures(i as int, ch2);
                            assert(node.children->0@ =~= kids0.update(i as int, ch2));
                            lemma_kids_view(node.children->0@);
                            assert(kids_view(node.children->0@) =~= kv.update(
                                i as int,
                                tree_insert(kv[i as int], s),
                            ));
                            assert(node@ == tree_insert(t@, s));
                        }
                        return node;
                    }
                    i = i + 1;
                }
                // second pass: the first child sharing a supernet deeper
                // than this node absorbs the leaf through a stepdown
                let min_len: u8 = node.subnet.mask_len + 1;
                let mut j: usize = 0;
                while j < n
                    invariant
                        j <= n,
                        n == kids0.len(),
                        kids@ == kids0,
                        kv == kids_view(kids0),
                        kids0 == t.children->0@,
                        t@.wf(),
                        t@.children == Some(kv),
                        node.subnet == t.subnet,
                        node.children is None,
                        s.wf(),
                        s.mask_len == 32,
                        t.subnet.contains_spec(s),
                        min_len == t.subnet.mask_len + 1,
                        forall|q: int| 0 <= q < n ==> !(#[trigger] kv[q]).subnet.contains_spec(s),
                        forall|q: int|
                            0 <= q < j ==> !(merge_pred(s, min_len as int)(#[trigger] kv[q])),
                    decreases n - j,
                {
                    proof {
                        lemma_kids_view(kids0);
                        assert(kv[j as int] == tree_view(kids0[j as int]));
                        assert(child_ok(t@.subnet, kv[j as int]));
                        // the child is strictly deeper than this node:
                        // were it at the same depth it would equal this
                        // node's subnet and hence accept the leaf
                        if kids0[j as int].subnet.mask_len == t.subnet.mask_len {
                            assert(kids0[j as int].subnet == t.subnet);
                            assert(kv[j as int].subnet.contains_spec(s));
                            assert(false);
                        }
                        assert(min_len <= kids0[j as int].subnet.mask_len);
                        assert(min_len <= s.mask_len);
                    }
                    match Subnet::common_of(&kids[j].subnet, &s, Some(min_len)) {
                        Some(c) => {
                            let mut ch = kids.remove(j);
                            ch.stepdown(c, Self::of(s));
                            let ghost removed = kids@;
                            kids.insert(j, ch);
                            node.children = Some(kids);
                            proof {
                                lemma_first_where_at(kv, accepts_pred(s), n as int);
                                lemma_first_where_at(kv, merge_pred(s, min_len as int), j as int);
                                kids0.remove_ensures(j as int);
                                removed.insert_ensures(j as int, ch);
                                assert(node.children->0@ =~= kids0.update(j as int, ch));
                                assert(ch@ == (TreeView {
                                    subnet: c,
                                    children: Some(seq![kv[j as int], leaf_view(s)]),
                                }));
                                lemma_kids_view(node.children->0@);
                                assert(kids_view(node.children->0@) =~= kv.update(j as int, ch@));
                                assert(node@ == tree_insert(t@, s));
                            }
                            return node;
                        },
                        None => {},
                    }
                    j = j + 1;
                }
                // no child takes the leaf: it becomes a new sibling
                let leaf = Self::of(s);
                kids.push(leaf);
                node.children = Some(kids);
                proof {
                    lemma_first_where_at(kv, accepts_pred(s), n as int);
                    lemma_first_where_at(kv, merge_pred(s, min_len as int), n as int);
                    assert(node.children->0@ =~= kids0.push(leaf));
                    lemma_kids_view(kids0);
                    lemma_kids_view(node.children->0@);
                    assert(kids_view(node.children->0@) =~= kv.push(leaf_view(s)));
                    assert(node@ == tree_insert(t@, s));
                }
                node
            },
        }
    }

    /// Tries to place `new_subnet` into the tree rooted at this node;
    /// hands the subnet back when this node does not cover it.
    pub fn push(&mut self, new_subnet: Subnet) -> (r: Result<(), Subnet>)
        requires
            old(self)@.wf(),
            new_subnet.wf(),
            new_subnet.mask_len == 32,
        ensures
            old(self).subnet.contains_spec(new_subnet) ==> r == Ok::<(), Subnet>(())
                && final(self)@ == tree_insert(old(self)@, new_subnet),
            !old(self).subnet.contains_spec(new_subnet) ==> r == Err::<(), Subnet>(new_subnet)
                && *final(self) == *old(self),
            final(self)@.wf(),
            final(self).subnet == old(self).subnet,
    {
        broadcast use lemma_tree_view_subnet;

        if self.subnet.contains(&new_subnet) {
            let mut tmp = AddressTree::new();
            core::mem::swap(self, &mut tmp);
            proof {
                lemma_tree_insert_wf(tmp@, new_subnet);
                lemma_tree_insert_subnet(tmp@, new_subnet);
            }
            let res = Self::insert_into(tmp, new_subnet);
            *self = res;
            Ok(())
        } else {
            Err(new_subnet)
        }
    }

    /// Builds the tree by a strictly sequential fold: the addresses are
    /// taken from the back of the list, each insertion completing before
    /// the next begins.
    pub fn push_all(&mut self, addrs: Vec<Subnet>) -> (r: Result<(), Subnet>)
        requires
            old(self)@.wf(),
            forall|i: int|
                0 <= i < addrs@.len() ==> (#[trigger] addrs@[i]).wf() && addrs@[i].mask_len == 32
                    && old(self).subnet.contains_spec(addrs@[i]),
        ensures
            r == Ok::<(), Subnet>(()),
            final(self)@ == tree_insert_all(old(self)@, addrs@),
            final(self)@.wf(),
    {
        let ghost addrs0 = addrs@;
        let mut addrs = addrs;
        while addrs.len() > 0
            invariant
                self@.wf(),
                addrs@ == addrs0.take(addrs@.len() as int),
                addrs@.len() <= addrs0.len(),
                self.subnet == old(self).subnet,
                forall|i: int|
                    0 <= i < addrs0.len() ==> (#[trigger] addrs0[i]).wf() && addrs0[i].mask_len
                        == 32 && old(self).subnet.contains_spec(addrs0[i]),
                tree_insert_all(old(self)@, addrs0) == tree_insert_all(self@, addrs@),
            decreases addrs@.len(),
        {
            let ghost before = addrs@;
            let ghost tv = self@;
            let a = match addrs.pop() {
                Some(a) => a,
                None => {
                    proof {
                        assert(false);
                    }
                    Subnet::root()
                },
            };
            proof {
                assert(a == addrs0[before.len() - 1]);
                assert(before.drop_last() =~= addrs0.take(before.len() - 1));
            }
            let res = self.push(a);
            proof {
                assert(tree_insert_all(tv, before) == tree_insert_all(
                    tree_insert(tv, before.last()),
                    before.drop_last(),
                ));
                assert(self@ == tree_insert(tv, a));
            }
        }
        proof {
            assert(addrs@ =~= Seq::<Subnet>::empty());
        }
        Ok(())
    }
}


/// Whether some immediate child of `t` is a single observed address.
pub open spec fn has_address_child(t: TreeView) -> bool {
    t.children matches Some(kids) && exists|i: int|
        0 <= i < kids.len() && (#[trigger] kids[i]).subnet.mask_len == 32
}

/// The discovered subnets below `t`: the node itself as soon as one of
/// its immediate children is a full address, else the union over the
/// children, in order.
pub open spec fn subnets_of(t: TreeView) -> Seq<TreeView>
    decreases t,
{
    match t.children {
        None => Seq::empty(),
        Some(kids) => if has_address_child(t) {
            seq![t]
        } else {
            subnets_of_seq(kids)
        },
    }
}

pub open spec fn subnets_of_seq(kids: Seq<TreeView>) -> Seq<TreeView>
    decreases kids,
{
    if kids.len() == 0 {
        Seq::empty()
    } else {
        subnets_of(kids.first()) + subnets_of_seq(kids.drop_first())
    }
}

/// The childless descendants of `t` (each one observed address), in
/// depth-first, children-in-order sequence.
pub open spec fn leafs_of(t: TreeView) -> Seq<TreeView>
    decreases t, 0int,
{
    match t.children {
        None => Seq::empty(),
        Some(kids) => leafs_of_seq(kids),
    }
}

/// What one child contributes to the collected leaves: itself when it is
/// childless, else its own leaves.
pub open spec fn leaf_piece(c: TreeView) -> Seq<TreeView>
    decreases c, 1int,
{
    if c.children is None {
        seq![c]
    } else {
        leafs_of(c)
    }
}

pub open spec fn leafs_of_seq(kids: Seq<TreeView>) -> Seq<TreeView>
    decreases kids, 2int,
{
    if kids.len() == 0 {
        Seq::empty()
    } else {
        leaf_piece(kids.first()) + leafs_of_seq(kids.drop_first())
    }
}

/// Peeling one more child off the front extends the discovered subnets
/// by that child's own.
pub proof fn lemma_subnets_of_seq_take(kids: Seq<TreeView>, i: int)
    requires
        0 <= i < kids.len(),
    ensures
        subnets_of_seq(kids.take(i + 1)) == subnets_of_seq(kids.take(i)) + subnets_of(kids[i]),
    decreases i,
{
    if i == 0 {
        assert(kids.take(1).first() == kids[0]);
        assert(kids.take(1).drop_first() =~= Seq::<TreeView>::empty());
        assert(kids.take(0) =~= Seq::<TreeView>::empty());
        assert(subnets_of_seq(kids.take(1)) =~= subnets_of_seq(kids.take(0)) + subnets_of(
            kids[0],
        ));
    } else {
        let d = kids.drop_first();
        lemma_subnets_of_seq_take(d, i - 1);
        assert(kids.take(i + 1).first() == kids[0]);
        assert(kids.take(i + 1).drop_first() =~= d.take(i));
        assert(kids.take(i).first() == kids[0]);
        assert(kids.take(i).drop_first() =~= d.take(i - 1));
        assert(d[i - 1] == kids[i]);
        assert(subnets_of_seq(kids.take(i + 1)) =~= subnets_of_seq(kids.take(i)) + subnets_of(
            kids[i],
        ));
    }
}

/// Peeling one more child off the front extends the collected leaves by
/// that child's contribution.
pub proof fn lemma_leafs_of_seq_take(kids: Seq<TreeView>, i: int)
    requires
        0 <= i < kids.len(),
    ensures
        leafs_of_seq(kids.take(i + 1)) == leafs_of_seq(kids.take(i)) + leaf_piece(kids[i]),
    decreases i,
{
    if i == 0 {
        assert(kids.take(1).first() == kids[0]);
        assert(kids.take(1).drop_first() =~= Seq::<TreeView>::empty());
        assert(kids.take(0) =~= Seq::<TreeView>::empty());
        assert(leafs_of_seq(kids.take(1)) =~= leafs_of_seq(kids.take(0)) + leaf_piece(kids[0]));
    } else {
        let d = kids.drop_first();
        lemma_leafs_of_seq_take(d, i - 1);
        assert(kids.take(i + 1).first() == kids[0]);
        assert(kids.take(i + 1).drop_first() =~= d.take(i));
        assert(kids.take(i).first() == kids[0]);
        assert(kids.take(i).drop_first() =~= d.take(i - 1));
        assert(d[i - 1] == kids[i]);
        assert(leafs_of_seq(kids.take(i + 1)) =~= leafs_of_seq(kids.take(i)) + leaf_piece(
            kids[i],
        ));
    }
}

impl AddressTree {
    /// The nodes that stand for discovered subnets: each subtree is
    /// chopped at the shallowest node with a full address among its
    /// immediate children.
    pub fn get_subnets(&self) -> (r: Vec<&AddressTree>)
        ensures
            r@.len() == subnets_of(self@).len(),
            forall|i: int| 0 <= i < r@.len() ==> (#[trigger] r@[i])@ == subnets_of(self@)[i],
        decreases *self,
    {
        let mut res: Vec<&AddressTree> = Vec::new();
        match &self.children {
            None => {
                proof {
                    assert(subnets_of(self@) =~= Seq::<TreeView>::empty());
                }
                res
            },
            Some(children) => {
                let ghost kids0 = children@;
                let ghost kv = kids_view(kids0);
                proof {
                    lemma_kids_view(kids0);
                    assert(self@.children == Some(kv));
                }
                let n: usize = children.len();
                let mut has32 = false;
                let mut i: usize = 0;
                while i < n
                    invariant
                        i <= n,
                        n == kids0.len(),
                        kids0 == children@,
                        kv == kids_view(kids0),
                        has32 == (exists|q: int|
                            0 <= q < i && (#[trigger] kv[q]).subnet.mask_len == 32),
                    decreases n - i,
                {
                    proof {
                        lemma_kids_view(kids0);
                        assert(kv[i as int] == tree_view(kids0[i as int]));
                        assert(kv[i as int].subnet == kids0[i as int].subnet);
                    }
                    if children[i].subnet.mask_len == 32 {
                        has32 = true;
                        proof {
                            assert(kv[i as int].subnet.mask_len == 32);
                        }
                    }
                    i = i + 1;
                }
                if has32 {
                    proof {
                        assert(has_address_child(self@));
                        assert(subnets_of(self@) =~= seq![self@]);
                    }
                    res.push(self);
                    return res;
                }
                proof {
                    assert(!has_address_child(self@));
                    assert(subnets_of(self@) == subnets_of_seq(kv));
                }
                let mut j: usize = 0;
                while j < n
                    invariant
                        j <= n,
                        n == kids0.len(),
                        kids0 == children@,
                        self.children matches Some(cc) && cc@ == kids0,
                        kv == kids_view(kids0),
                        res@.len() == subnets_of_seq(kv.take(j as int)).len(),
                        forall|q: int|
                            0 <= q < res@.len() ==> (#[trigger] res@[q])@ == subnets_of_seq(
                                kv.take(j as int),
                            )[q],
                    decreases n - j,
                {
                    proof {
                        lemma_kids_view(kids0);
                        assert(decreases_to!(self => self.children));
                        assert(decreases_to!(self.children => self.children->0));
                        assert(decreases_to!(self.children->0 => self.children->0@));
                        assert(decreases_to!(self.children->0@ => self.children->0@[j as int]));
                    }
                    let ghost res0 = res@;
                    let mut sub = children[j].get_subnets();
                    let ghost sub0 = sub@;
                    res.append(&mut sub);
                    proof {
                        lemma_subnets_of_seq_take(kv, j as int);
                        assert(kv[j as int] == children@[j as int]@);
                        assert(res@ == res0 + sub0);
                        assert forall|q: int| 0 <= q < res@.len() implies (#[trigger] res@[q])@
                            == subnets_of_seq(kv.take(j as int + 1))[q] by {
                            if q < res0.len() {
                                assert(res@[q] == res0[q]);
                                assert(subnets_of_seq(kv.take(j as int + 1))[q]
                                    == subnets_of_seq(kv.take(j as int))[q]);
                            } else {
                                assert(res@[q] == sub0[q - res0.len()]);
                                assert(sub0[q - res0.len()]@ == subnets_of(kv[j as int])[q
                                    - res0.len()]);
                                assert(subnets_of_seq(kv.take(j as int + 1))[q] == subnets_of(
                                    kv[j as int],
                                )[q - res0.len()]);
                            }
                        }
                    }
                    j = j + 1;
                }
                proof {
                    assert(kv.take(n as int) =~= kv);
                }
                res
            },
        }
    }

    /// Every childless descendant below this node, depth first, children
    /// in order.
    pub fn get_leafs(&self) -> (r: Vec<&AddressTree>)
        ensures
            r@.len() == leafs_of(self@).len(),
            forall|i: int| 0 <= i < r@.len() ==> (#[trigger] r@[i])@ == leafs_of(self@)[i],
        decreases *self,
    {
        let mut res: Vec<&AddressTree> = Vec::new();
        match &self.children {
            None => {
                proof {
                    assert(leafs_of(self@) =~= Seq::<TreeView>::empty());
                }
                res
            },
            Some(children) => {
                let ghost kids0 = children@;
                let ghost kv = kids_view(kids0);
                proof {
                    lemma_kids_view(kids0);
                    assert(self@.children == Some(kv));
                    assert(leafs_of(self@) == leafs_of_seq(kv));
                }
                let n: usize = children.len();
                let mut j: usize = 0;
                while j < n
                    invariant
                        j <= n,
                        n == kids0.len(),
                        kids0 == children@,
                        self.children matches Some(cc) && cc@ == kids0,
                        kv == kids_view(kids0),
                        res@.len() == leafs_of_seq(kv.take(j as int)).len(),
                        forall|q: int|
                            0 <= q < res@.len() ==> (#[trigger] res@[q])@ == leafs_of_seq(
                                kv.take(j as int),
                            )[q],
                    decreases n - j,
                {
                    proof {
                        lemma_kids_view(kids0);
                        assert(decreases_to!(self => self.children));
                        assert(decreases_to!(self.children => self.children->0));
                        assert(decreases_to!(self.children->0 => self.children->0@));
                        assert(decreases_to!(self.children->0@ => self.children->0@[j as int]));
                    }
                    let ghost res0 = res@;
                    let ghost piece: Seq<TreeView> = leaf_piece(kv[j as int]);
                    if children[j].children.is_none() {
                        proof {
                            assert(kv[j as int] == children@[j as int]@);
                            assert(kv[j as int].children is None);
                        }
                        let ch: &AddressTree = &children[j];
                        res.push(ch);
                        proof {
                            assert(res@ == res0.push(ch));
                            assert(ch@ == kv[j as int]);
                            assert(piece == seq![kv[j as int]]);
                        }
                    } else {
                        let mut sub = children[j].get_leafs();
                        let ghost sub0 = sub@;
                        res.append(&mut sub);
                        proof {
                            assert(kv[j as int] == children@[j as int]@);
                            assert(!(kv[j as int].children is None));
                            assert(res@ == res0 + sub0);
                        }
                    }
                    proof {
                        lemma_leafs_of_seq_take(kv, j as int);
                        assert forall|q: int| 0 <= q < res@.len() implies (#[trigger] res@[q])@
                            == leafs_of_seq(kv.take(j as int + 1))[q] by {
                            if q < res0.len() {
                                assert(res@[q] == res0[q]);
                                assert(leafs_of_seq(kv.take(j as int + 1))[q] == leafs_of_seq(
                                    kv.take(j as int),
                                )[q]);
                            } else {
                                assert(leafs_of_seq(kv.take(j as int + 1))[q] == piece[q
                                    - res0.len()]);
                                assert(res@[q]@ == piece[q - res0.len()]);
                            }
                        }
                    }
                    j = j + 1;
                }
                proof {
                    assert(kv.take(n as int) =~= kv);
                }
                res
            },
        }
    }
}


/// The textual form of one aggregation group, over character sequences.
pub open spec fn group_view(p: (String, Vec<String>)) -> (Seq<char>, Seq<Seq<char>>) {
    (p.0@, p.1@.map_values(|s: String| s@))
}

/// The aggregated view of a tree: the text of each discovered subnet,
/// paired with the texts of all addresses it covers, in traversal order.
pub open spec fn aggregate_spec(t: TreeView) -> Seq<(Seq<char>, Seq<Seq<char>>)> {
    subnets_of(t).map_values(
        |n: TreeView|
            (
                n.subnet.text_spec(),
                leafs_of(n).map_values(|l: TreeView| l.subnet.addr_text_spec()),
            ),
    )
}

/// Aggregation reads the tree and nothing else: running it twice on an
/// unmodified tree yields the same mapping.
pub proof fn lemma_aggregate_idempotent(
    t: TreeView,
    m1: Seq<(Seq<char>, Seq<Seq<char>>)>,
    m2: Seq<(Seq<char>, Seq<Seq<char>>)>,
)
    requires
        m1 == aggregate_spec(t),
        m2 == aggregate_spec(t),
    ensures
        m1 == m2,
{
}

impl AddressTree {
    /// The human-readable aggregation: each discovered subnet's text with
    /// the texts of all the addresses it covers, in traversal order.
    pub fn get_subnets_map(&self) -> (r: Vec<(String, Vec<String>)>)
        ensures
            r@.map_values(|p: (String, Vec<String>)| group_view(p)) == aggregate_spec(self@),
    {
        let ghost sv = subnets_of(self@);
        let subs = self.get_subnets();
        let mut res: Vec<(String, Vec<String>)> = Vec::new();
        let n: usize = subs.len();
        let mut i: usize = 0;
        while i < n
            invariant
                i <= n,
                n == subs@.len(),
                sv == subnets_of(self@),
                subs@.len() == sv.len(),
                forall|q: int| 0 <= q < subs@.len() ==> (#[trigger] subs@[q])@ == sv[q],
                res@.len() == i,
                forall|q: int|
                    0 <= q < i ==> group_view(#[trigger] res@[q]) == aggregate_spec(self@)[q],
            decreases n - i,
        {
            let node: &AddressTree = subs[i];
            let key = node.subnet.to_text();
            let leaves = node.get_leafs();
            let mut addrs: Vec<String> = Vec::new();
            let m: usize = leaves.len();
            let mut j: usize = 0;
            while j < m
                invariant
                    j <= m,
                    m == leaves@.len(),
                    leaves@.len() == leafs_of(node@).len(),
                    forall|q: int|
                        0 <= q < leaves@.len() ==> (#[trigger] leaves@[q])@ == leafs_of(node@)[q],
                    addrs@.len() == j,
                    forall|q: int|
                        0 <= q < j ==> (#[trigger] addrs@[q])@ == leafs_of(
                            node@,
                        )[q].subnet.addr_text_spec(),
                decreases m - j,
            {
                let a = leaves[j].subnet.to_addr_text();
                addrs.push(a);
                j = j + 1;
            }
            proof {
                assert(addrs@.map_values(|s: String| s@) =~= leafs_of(node@).map_values(
                    |l: TreeView| l.subnet.addr_text_spec(),
                ));
                assert(node@ == sv[i as int]);
            }
            res.push((key, addrs));
            proof {
                assert(group_view(res@[i as int]) == aggregate_spec(self@)[i as int]);
            }
            i = i + 1;
        }
        proof {
            assert(res@.map_values(|p: (String, Vec<String>)| group_view(p)) =~= aggregate_spec(
                self@,
            ));
        }
        res
    }
}


/// Splitting the children at one position splits the collected leaves
/// into the parts before, at, and after it.
pub proof fn lemma_leafs_of_seq_split(kids: Seq<TreeView>, i: int)
    requires
        0 <= i < kids.len(),
    ensures
        leafs_of_seq(kids) == leafs_of_seq(kids.take(i)) + leaf_piece(kids[i]) + leafs_of_seq(
            kids.skip(i + 1),
        ),
    decreases i,
{
    if i == 0 {
        assert(kids.take(0) =~= Seq::<TreeView>::empty());
        assert(kids.drop_first() =~= kids.skip(1));
        assert(leafs_of_seq(kids) =~= leafs_of_seq(kids.take(0)) + leaf_piece(kids[0])
            + leafs_of_seq(kids.skip(1)));
    } else {
        let d = kids.drop_first();
        lemma_leafs_of_seq_split(d, i - 1);
        assert(kids.take(i).first() == kids[0]);
        assert(kids.take(i).drop_first() =~= d.take(i - 1));
        assert(d[i - 1] == kids[i]);
        assert(d.skip(i) =~= kids.skip(i + 1));
        assert(leafs_of_seq(kids) =~= leafs_of_seq(kids.take(i)) + leaf_piece(kids[i])
            + leafs_of_seq(kids.skip(i + 1)));
    }
}

/// Insertion never moves a node's own subnet.
pub broadcast proof fn lemma_tree_insert_subnet(t: TreeView, s: Subnet)
    ensures
        (#[trigger] tree_insert(t, s)).subnet == t.subnet,
{
}

/// After an insertion the node always has children.
pub broadcast proof fn lemma_tree_insert_has_children(t: TreeView, s: Subnet)
    ensures
        (#[trigger] tree_insert(t, s)).children is Some,
{
}

/// Inserting a covered address keeps the tree well-formed.
pub proof fn lemma_tree_insert_wf(t: TreeView, s: Subnet)
    requires
        t.wf(),
        s.wf(),
        s.mask_len == 32,
        t.subnet.contains_spec(s),
    ensures
        tree_insert(t, s).wf(),
    decreases t,
{
    let r = tree_insert(t, s);
    match t.children {
        None => {
            assert(child_ok(t.subnet, leaf_view(s)));
            assert forall|q: int| 0 <= q < r.children->0.len() implies child_ok(
                t.subnet,
                #[trigger] r.children->0[q],
            ) by {
                assert(r.children->0[q] == leaf_view(s));
            }
        },
        Some(kids) => {
            lemma_first_where(kids, accepts_pred(s));
            let i = first_where(kids, accepts_pred(s));
            if i < kids.len() {
                assert(child_ok(t.subnet, kids[i]));
                assert(decreases_to!(t => kids));
                assert(decreases_to!(kids => kids[i]));
                lemma_tree_insert_wf(kids[i], s);
                lemma_tree_insert_subnet(kids[i], s);
                lemma_tree_insert_has_children(kids[i], s);
                let rk = kids.update(i, tree_insert(kids[i], s));
                assert forall|q: int| 0 <= q < rk.len() implies child_ok(
                    t.subnet,
                    #[trigger] rk[q],
                ) by {
                    if q != i {
                        assert(rk[q] == kids[q]);
                        assert(child_ok(t.subnet, kids[q]));
                    }
                }
            } else {
                let min = t.subnet.mask_len + 1;
                lemma_first_where(kids, merge_pred(s, min));
                let j = first_where(kids, merge_pred(s, min));
                if j < kids.len() {
                    assert(child_ok(t.subnet, kids[j]));
                    if kids[j].subnet.mask_len == t.subnet.mask_len {
                        assert(kids[j].subnet == t.subnet);
                        assert(kids[j].subnet.contains_spec(s));
                        assert(false);
                    }
                    let startlen: int = if kids[j].subnet.mask_len <= s.mask_len {
                        kids[j].subnet.mask_len as int
                    } else {
                        s.mask_len as int
                    };
                    lemma_common_search_props(kids[j].subnet.bits, s.bits, startlen, min as int);
                    let c = common_of_spec(kids[j].subnet, s, min as int)->0;
                    assert(c.wf());
                    assert(min <= c.mask_len);
                    assert(c.contains_spec(kids[j].subnet));
                    assert(c.contains_spec(s));
                    lemma_mask_absorb(t.subnet.mask_len as int, c.mask_len as int);
                    let kb: u32 = kids[j].subnet.bits;
                    let cm: u32 = c.mask;
                    let tm: u32 = t.subnet.mask;
                    assert((kb & cm) & tm == kb & tm) by (bit_vector)
                        requires
                            tm & cm == tm,
                    ;
                    assert(c.bits & t.subnet.mask == t.subnet.bits);
                    assert(t.subnet.contains_spec(c));
                    let nn = TreeView {
                        subnet: c,
                        children: Some(seq![kids[j], leaf_view(s)]),
                    };
                    assert(child_ok(c, kids[j]));
                    assert(child_ok(c, leaf_view(s)));
                    assert(nn.wf()) by {
                        assert forall|q: int| 0 <= q < nn.children->0.len() implies child_ok(
                            c,
                            #[trigger] nn.children->0[q],
                        ) by {
                            if q == 0 {
                                assert(nn.children->0[0] == kids[j]);
                            } else {
                                assert(nn.children->0[1] == leaf_view(s));
                            }
                        }
                    }
                    assert(child_ok(t.subnet, nn));
                    let rk = kids.update(j, nn);
                    assert forall|q: int| 0 <= q < rk.len() implies child_ok(
                        t.subnet,
                        #[trigger] rk[q],
                    ) by {
                        if q != j {
                            assert(rk[q] == kids[q]);
                            assert(child_ok(t.subnet, kids[q]));
                        }
                    }
                } else {
                    assert(child_ok(t.subnet, leaf_view(s)));
                    let rk = kids.push(leaf_view(s));
                    assert forall|q: int| 0 <= q < rk.len() implies child_ok(
                        t.subnet,
                        #[trigger] rk[q],
                    ) by {
                        if q < kids.len() {
                            assert(rk[q] == kids[q]);
                            assert(child_ok(t.subnet, kids[q]));
                        } else {
                            assert(rk[q] == leaf_view(s));
                        }
                    }
                }
            }
        },
    }
}


/// Inserting an address that no current leaf carries adds exactly one
/// leaf, that address's own, and keeps every other leaf: nothing is
/// lost, nothing is duplicated.
pub proof fn lemma_insert_adds_one_leaf(t: TreeView, s: Subnet)
    requires
        t.wf(),
        s.wf(),
        s.mask_len == 32,
        t.subnet.contains_spec(s),
        forall|i: int| 0 <= i < leafs_of(t).len() ==> (#[trigger] leafs_of(t)[i]).subnet != s,
    ensures
        leafs_of(tree_insert(t, s)).to_multiset() == leafs_of(t).to_multiset().insert(
            leaf_view(s),
        ),
    decreases t,
{
    broadcast use vstd::seq_lib::group_to_multiset_ensures;
    broadcast use vstd::multiset::group_multiset_axioms;

    let r = tree_insert(t, s);
    match t.children {
        None => {
            assert(leafs_of(t) =~= Seq::<TreeView>::empty());
            assert(r.children->0 =~= seq![leaf_view(s)]);
            assert(r.children->0.first() == leaf_view(s));
            assert(r.children->0.drop_first() =~= Seq::<TreeView>::empty());
            assert(leafs_of(r) =~= Seq::<TreeView>::empty().push(leaf_view(s)));
            assert(leafs_of(r).to_multiset() =~= leafs_of(t).to_multiset().insert(leaf_view(s)));
        },
        Some(kids) => {
            lemma_first_where(kids, accepts_pred(s));
            let i = first_where(kids, accepts_pred(s));
            if i < kids.len() {
                lemma_leafs_of_seq_split(kids, i);
                let a = leafs_of_seq(kids.take(i));
                let p = leaf_piece(kids[i]);
                let b = leafs_of_seq(kids.skip(i + 1));
                assert(leafs_of(t) == a + p + b);
                assert(child_ok(t.subnet, kids[i]));
                if kids[i].children is None {
                    assert(kids[i].subnet.mask_len == 32);
                    assert(kids[i].subnet == s);
                    assert(p == seq![kids[i]]);
                    assert(leafs_of(t)[a.len() as int] == kids[i]);
                    assert(false);
                }
                assert(p == leafs_of(kids[i]));
                assert forall|q: int| 0 <= q < leafs_of(kids[i]).len() implies (#[trigger] leafs_of(
                    kids[i],
                )[q]).subnet != s by {
                    assert(leafs_of(t)[a.len() + q] == leafs_of(kids[i])[q]);
                }
                assert(decreases_to!(t => kids));
                assert(decreases_to!(kids => kids[i]));
                lemma_insert_adds_one_leaf(kids[i], s);
                lemma_tree_insert_has_children(kids[i], s);
                let ki = tree_insert(kids[i], s);
                let rk = kids.update(i, ki);
                lemma_leafs_of_seq_split(rk, i);
                assert(rk.take(i) =~= kids.take(i));
                assert(rk.skip(i + 1) =~= kids.skip(i + 1));
                assert(leaf_piece(rk[i]) == leafs_of(ki));
                assert(leafs_of(r) == a + leafs_of(ki) + b);
                vstd::seq_lib::lemma_multiset_commutative(a, p);
                vstd::seq_lib::lemma_multiset_commutative(a + p, b);
                vstd::seq_lib::lemma_multiset_commutative(a, leafs_of(ki));
                vstd::seq_lib::lemma_multiset_commutative(a + leafs_of(ki), b);
                assert(leafs_of(r).to_multiset() =~= leafs_of(t).to_multiset().insert(
                    leaf_view(s),
                ));
            } else {
                let min = t.subnet.mask_len + 1;
                lemma_first_where(kids, merge_pred(s, min));
                let j = first_where(kids, merge_pred(s, min));
                if j < kids.len() {
                    lemma_leafs_of_seq_split(kids, j);
                    let a = leafs_of_seq(kids.take(j));
                    let p = leaf_piece(kids[j]);
                    let b = leafs_of_seq(kids.skip(j + 1));
                    assert(leafs_of(t) == a + p + b);
                    let c = common_of_spec(kids[j].subnet, s, min as int)->0;
                    let nn = TreeView {
                        subnet: c,
                        children: Some(seq![kids[j], leaf_view(s)]),
                    };
                    let two = seq![kids[j], leaf_view(s)];
                    assert(two.first() == kids[j]);
                    assert(two.drop_first() =~= seq![leaf_view(s)]);
                    assert(seq![leaf_view(s)].first() == leaf_view(s));
                    assert(seq![leaf_view(s)].drop_first() =~= Seq::<TreeView>::empty());
                    assert(leaf_piece(leaf_view(s)) =~= seq![leaf_view(s)]);
                    assert(leafs_of_seq(Seq::<TreeView>::empty()) =~= Seq::<TreeView>::empty());
                    assert(leafs_of_seq(seq![leaf_view(s)]) =~= leaf_piece(leaf_view(s))
                        + leafs_of_seq(seq![leaf_view(s)].drop_first()));
                    assert(leafs_of_seq(seq![leaf_view(s)]) =~= seq![leaf_view(s)]);
                    assert(leafs_of(nn) =~= p + seq![leaf_view(s)]);
                    let rk = kids.update(j, nn);
                    lemma_leafs_of_seq_split(rk, j);
                    assert(rk.take(j) =~= kids.take(j));
                    assert(rk.skip(j + 1) =~= kids.skip(j + 1));
                    assert(leaf_piece(rk[j]) == leafs_of(nn));
                    assert(leafs_of(r) == a + (p + seq![leaf_view(s)]) + b);
                    vstd::seq_lib::lemma_multiset_commutative(a, p);
                    vstd::seq_lib::lemma_multiset_commutative(a + p, b);
                    vstd::seq_lib::lemma_multiset_commutative(p, seq![leaf_view(s)]);
                    vstd::seq_lib::lemma_multiset_commutative(a, p + seq![leaf_view(s)]);
                    vstd::seq_lib::lemma_multiset_commutative(a + (p + seq![leaf_view(s)]), b);
                    assert(seq![leaf_view(s)].to_multiset() =~= Multiset::<TreeView>::empty()
                        .insert(leaf_view(s))) by {
                        assert(seq![leaf_view(s)] =~= Seq::<TreeView>::empty().push(
                            leaf_view(s),
                        ));
                    }
                    assert(leafs_of(r).to_multiset() =~= leafs_of(t).to_multiset().insert(
                        leaf_view(s),
                    ));
                } else {
                    let rk = kids.push(leaf_view(s));
                    lemma_leafs_of_seq_split(rk, kids.len() as int);
                    assert(rk.take(kids.len() as int) =~= kids);
                    assert(rk.skip(kids.len() as int + 1) =~= Seq::<TreeView>::empty());
                    assert(rk[kids.len() as int] == leaf_view(s));
                    assert(leaf_piece(leaf_view(s)) == seq![leaf_view(s)]);
                    assert(leafs_of(r) == leafs_of_seq(kids) + seq![leaf_view(s)]
                        + Seq::<TreeView>::empty());
                    assert(leafs_of(r) =~= leafs_of_seq(kids) + seq![leaf_view(s)]);
                    vstd::seq_lib::lemma_multiset_commutative(leafs_of_seq(kids), seq![
                        leaf_view(s)]);
                    assert(seq![leaf_view(s)] =~= Seq::<TreeView>::empty().push(leaf_view(s)));
                    assert(leafs_of(r).to_multiset() =~= leafs_of(t).to_multiset().insert(
                        leaf_view(s),
                    ));
                }
            }
        },
    }
}


/// Every collected leaf is a childless node.
pub proof fn lemma_leafs_are_childless(t: TreeView)
    ensures
        forall|i: int|
            0 <= i < leafs_of(t).len() ==> (#[trigger] leafs_of(t)[i]).children is None,
    decreases t, 0int,
{
    match t.children {
        None => {},
        Some(kids) => {
            lemma_leafs_of_seq_childless(kids);
        },
    }
}

pub proof fn lemma_leafs_of_seq_childless(kids: Seq<TreeView>)
    ensures
        forall|i: int|
            0 <= i < leafs_of_seq(kids).len() ==> (#[trigger] leafs_of_seq(kids)[i]).children
                is None,
    decreases kids, 2int,
{
    if kids.len() > 0 {
        if kids.first().children is None {
        } else {
            lemma_leafs_are_childless(kids.first());
        }
        lemma_leafs_of_seq_childless(kids.drop_first());
        assert forall|i: int| 0 <= i < leafs_of_seq(kids).len() implies (#[trigger] leafs_of_seq(
            kids,
        )[i]).children is None by {
            let p = leaf_piece(kids.first());
            if i < p.len() {
                assert(leafs_of_seq(kids)[i] == p[i]);
            } else {
                assert(leafs_of_seq(kids)[i] == leafs_of_seq(kids.drop_first())[i - p.len()]);
            }
        }
    }
}

/// Inserting any finite list of fresh, pairwise distinct addresses gives
/// a tree whose leaves are the old leaves plus exactly one leaf for each
/// inserted address: no address is lost, none is duplicated.
pub proof fn lemma_insert_all_adds_leaves(t: TreeView, addrs: Seq<Subnet>)
    requires
        t.wf(),
        forall|i: int|
            0 <= i < addrs.len() ==> (#[trigger] addrs[i]).wf() && addrs[i].mask_len == 32
                && t.subnet.contains_spec(addrs[i]),
        forall|i: int|
            0 <= i < addrs.len() ==> !leafs_of(t).to_multiset().contains(
                leaf_view(#[trigger] addrs[i]),
            ),
        forall|i: int, j: int| 0 <= i < j < addrs.len() ==> addrs[i] != addrs[j],
    ensures
        tree_insert_all(t, addrs).wf(),
        leafs_of(tree_insert_all(t, addrs)).to_multiset() == leafs_of(t).to_multiset().add(
            addrs.map_values(|a: Subnet| leaf_view(a)).to_multiset(),
        ),
    decreases addrs.len(),
{
    broadcast use vstd::seq_lib::group_to_multiset_ensures;
    broadcast use vstd::multiset::group_multiset_axioms;

    if addrs.len() == 0 {
        assert(addrs.map_values(|a: Subnet| leaf_view(a)) =~= Seq::<TreeView>::empty());
        assert(Seq::<TreeView>::empty().to_multiset() =~= Multiset::<TreeView>::empty());
        assert(leafs_of(t).to_multiset().add(Multiset::<TreeView>::empty())
            =~= leafs_of(t).to_multiset());
    } else {
        let s = addrs.last();
        assert(addrs[addrs.len() - 1] == s);
        lemma_leafs_are_childless(t);
        assert forall|i: int| 0 <= i < leafs_of(t).len() implies (#[trigger] leafs_of(
            t,
        )[i]).subnet != s by {
            if leafs_of(t)[i].subnet == s {
                assert(leafs_of(t)[i] == leaf_view(s));
                assert(leafs_of(t).contains(leaf_view(s)));
                assert(leafs_of(t).to_multiset().contains(leaf_view(s)));
                assert(false);
            }
        }
        lemma_insert_adds_one_leaf(t, s);
        lemma_tree_insert_wf(t, s);
        lemma_tree_insert_subnet(t, s);
        let t1 = tree_insert(t, s);
        let rest = addrs.drop_last();
        assert forall|i: int| 0 <= i < rest.len() implies !leafs_of(t1).to_multiset().contains(
            leaf_view(#[trigger] rest[i]),
        ) by {
            assert(rest[i] == addrs[i]);
            assert(addrs[i] != s);
            assert(leaf_view(rest[i]) != leaf_view(s));
            assert(leafs_of(t1).to_multiset().count(leaf_view(rest[i])) == leafs_of(
                t,
            ).to_multiset().count(leaf_view(rest[i])));
        }
        lemma_insert_all_adds_leaves(t1, rest);
        assert(addrs.map_values(|a: Subnet| leaf_view(a)) =~= rest.map_values(
            |a: Subnet| leaf_view(a),
        ).push(leaf_view(s)));
        assert(leafs_of(tree_insert_all(t, addrs)).to_multiset() =~= leafs_of(
            t,
        ).to_multiset().add(addrs.map_values(|a: Subnet| leaf_view(a)).to_multiset()));
    }
}


/// The debug rendering of a node: its subnet, the renderings of its
/// children between `=>[` and `]` when any were ever attached, and a
/// closing `;`.
pub open spec fn tree_text(t: TreeView) -> Seq<char>
    decreases t, 0int,
{
    t.subnet.text_spec() + (match t.children {
        None => Seq::<char>::empty(),
        Some(kids) => "=>["@ + trees_text(kids) + "]"@,
    }) + ";"@
}

pub open spec fn trees_text(kids: Seq<TreeView>) -> Seq<char>
    decreases kids, 1int,
{
    if kids.len() == 0 {
        Seq::empty()
    } else {
        tree_text(kids.first()) + trees_text(kids.drop_first())
    }
}

/// Peeling one more child off the front extends the rendering by that
/// child's own.
pub proof fn lemma_trees_text_take(kids: Seq<TreeView>, i: int)
    requires
        0 <= i < kids.len(),
    ensures
        trees_text(kids.take(i + 1)) == trees_text(kids.take(i)) + tree_text(kids[i]),
    decreases i,
{
    if i == 0 {
        assert(kids.take(1).first() == kids[0]);
        assert(kids.take(1).drop_first() =~= Seq::<TreeView>::empty());
        assert(kids.take(0) =~= Seq::<TreeView>::empty());
        assert(trees_text(kids.take(1)) =~= trees_text(kids.take(0)) + tree_text(kids[0]));
    } else {
        let d = kids.drop_first();
        lemma_trees_text_take(d, i - 1);
        assert(kids.take(i + 1).first() == kids[0]);
        assert(kids.take(i + 1).drop_first() =~= d.take(i));
        assert(kids.take(i).first() == kids[0]);
        assert(kids.take(i).drop_first() =~= d.take(i - 1));
        assert(d[i - 1] == kids[i]);
        assert(trees_text(kids.take(i + 1)) =~= trees_text(kids.take(i)) + tree_text(kids[i]));
    }
}

impl AddressTree {
    /// Renders the whole tree, one node after the other, for inspection.
    pub fn to_text(&self) -> (r: String)
        ensures
            r@ == tree_text(self@),
        decreases *self,
    {
        let mut out = self.subnet.to_text();
        match &self.children {
            None => {},
            Some(children) => {
                let ghost kids0 = children@;
                let ghost kv = kids_view(kids0);
                proof {
                    lemma_kids_view(kids0);
                    assert(self@.children == Some(kv));
                    reveal_strlit("=>[");
                }
                out.append("=>[");
                let n: usize = children.len();
                let mut j: usize = 0;
                while j < n
                    invariant
                        j <= n,
                        n == kids0.len(),
                        kids0 == children@,
                        self.children matches Some(cc) && cc@ == kids0,
                        kv == kids_view(kids0),
                        out@ == self@.subnet.text_spec() + "=>["@ + trees_text(
                            kv.take(j as int),
                        ),
                    decreases n - j,
                {
                    proof {
                        lemma_kids_view(kids0);
                        assert(decreases_to!(self => self.children));
                        assert(decreases_to!(self.children => self.children->0));
                        assert(decreases_to!(self.children->0 => self.children->0@));
                        assert(decreases_to!(self.children->0@ => self.children->0@[j as int]));
                    }
                    let piece = children[j].to_text();
                    out.append(piece.as_str());
                    proof {
                        lemma_trees_text_take(kv, j as int);
                        assert(kv[j as int] == children@[j as int]@);
                        assert(out@ =~= self@.subnet.text_spec() + "=>["@ + trees_text(
                            kv.take(j as int + 1),
                        ));
                    }
                    j = j + 1;
                }
                proof {
                    assert(kv.take(n as int) =~= kv);
                    reveal_strlit("]");
                }
                out.append("]");
            },
        }
        proof {
            reveal_strlit(";");
        }
        out.append(";");
        proof {
            assert(out@ =~= tree_text(self@));
        }
        out
    }
}

} // verus!
