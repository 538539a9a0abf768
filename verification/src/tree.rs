use vstd::prelude::*;
use vstd::string::StringExecFns;

verus! {

/// One filesystem entry as captured at traversal time: files carry their
/// size when it could be read, directories carry their (ordered) children.
pub struct TreeNode {
    pub name: String,
    pub is_dir: bool,
    pub size: Option<u64>,
    pub children: Vec<TreeNode>,
}

/// The mathematical value of a `TreeNode`: the name as a character
/// sequence, the children as a sequence of values.
#[verifier::ext_equal]
pub struct NodeV {
    pub name: Seq<char>,
    pub is_dir: bool,
    pub size: Option<u64>,
    pub children: Seq<NodeV>,
}

/// The values of a sequence of nodes, elementwise.
pub open spec fn views_of(s: Seq<TreeNode>) -> Seq<NodeV>
    decreases s,
{
    if s.len() == 0 {
        Seq::empty()
    } else {
        views_of(s.drop_last()).push(node_view(s.last()))
    }
}

pub open spec fn node_view(t: TreeNode) -> NodeV
    decreases t,
{
    NodeV {
        name: t.name@,
        is_dir: t.is_dir,
        size: t.size,
        children: views_of(t.children@),
    }
}

impl View for TreeNode {
    type V = NodeV;

    open spec fn view(&self) -> NodeV {
        node_view(*self)
    }
}

pub broadcast proof fn lemma_views_of_len(s: Seq<TreeNode>)
    ensures
        #[trigger] views_of(s).len() == s.len(),
    decreases s,
{
    if s.len() != 0 {
        lemma_views_of_len(s.drop_last());
    }
}

pub broadcast proof fn lemma_views_of_index(s: Seq<TreeNode>, i: int)
    requires
        0 <= i < s.len(),
    ensures
        #[trigger] views_of(s)[i] == node_view(s[i]),
    decreases s,
{
    lemma_views_of_len(s);
    if s.len() != 0 {
        if i == s.len() - 1 {
            lemma_views_of_len(s.drop_last());
        } else {
            lemma_views_of_index(s.drop_last(), i);
            assert(s.drop_last()[i] == s[i]);
        }
    }
}

impl NodeV {
    /// A node is well formed when only directories have children and only
    /// files carry a size.
    pub open spec fn wf(self) -> bool
        decreases self,
    {
        &&& (!self.is_dir ==> self.children.len() == 0)
        &&& (self.is_dir ==> self.size is None)
        &&& forall|i: int| 0 <= i < self.children.len() ==> (#[trigger] self.children[i]).wf()
    }
}

/// The single-chain collapse: children are collapsed first, then a node
/// left with exactly one child that is a directory merges with it, joining
/// the names with `/` and inheriting the child's children.
pub open spec fn collapse_spec(t: NodeV) -> NodeV
    decreases t,
{
    let cs = collapse_children(t.children);
    if cs.len() == 1 && cs[0].is_dir {
        NodeV {
            name: t.name + seq!['/'] + cs[0].name,
            is_dir: true,
            size: None,
            children: cs[0].children,
        }
    } else {
        NodeV { name: t.name, is_dir: t.is_dir, size: t.size, children: cs }
    }
}

pub open spec fn collapse_children(s: Seq<NodeV>) -> Seq<NodeV>
    decreases s,
{
    if s.len() == 0 {
        Seq::empty()
    } else {
        collapse_children(s.drop_last()).push(collapse_spec(s.last()))
    }
}

pub broadcast proof fn lemma_collapse_children_len(s: Seq<NodeV>)
    ensures
        #[trigger] collapse_children(s).len() == s.len(),
    decreases s,
{
    if s.len() != 0 {
        lemma_collapse_children_len(s.drop_last());
    }
}

pub broadcast proof fn lemma_collapse_children_index(s: Seq<NodeV>, i: int)
    requires
        0 <= i < s.len(),
    ensures
        #[trigger] collapse_children(s)[i] == collapse_spec(s[i]),
    decreases s,
{
    lemma_collapse_children_len(s);
    if s.len() != 0 {
        if i == s.len() - 1 {
            lemma_collapse_children_len(s.drop_last());
        } else {
            lemma_collapse_children_index(s.drop_last(), i);
            assert(s.drop_last()[i] == s[i]);
        }
    }
}

/// No node anywhere in the tree still has exactly one child that is a
/// directory: nothing is left for the collapse to do.
pub open spec fn fully_collapsed(t: NodeV) -> bool
    decreases t,
{
    &&& !(t.children.len() == 1 && t.children[0].is_dir)
    &&& forall|i: int| 0 <= i < t.children.len() ==> fully_collapsed(#[trigger] t.children[i])
}

/// After one collapse no single-directory chain remains.
pub proof fn lemma_collapse_fully(t: NodeV)
    ensures
        fully_collapsed(collapse_spec(t)),
    decreases t,
{
    let cs = collapse_children(t.children);
    lemma_collapse_children_len(t.children);
    assert forall|i: int| 0 <= i < cs.len() implies fully_collapsed(#[trigger] cs[i]) by {
        lemma_collapse_children_index(t.children, i);
        lemma_collapse_fully(t.children[i]);
    }
    if cs.len() == 1 && cs[0].is_dir {
        assert(fully_collapsed(cs[0]));
    }
}

/// Collapsing a tree with no single-directory chain changes nothing.
pub proof fn lemma_collapse_noop(t: NodeV)
    requires
        fully_collapsed(t),
    ensures
        collapse_spec(t) == t,
    decreases t,
{
    let cs = collapse_children(t.children);
    lemma_collapse_children_len(t.children);
    assert forall|i: int| 0 <= i < cs.len() implies #[trigger] cs[i] == t.children[i] by {
        lemma_collapse_children_index(t.children, i);
        lemma_collapse_noop(t.children[i]);
    }
    assert(cs =~= t.children);
    assert(collapse_spec(t) =~= t);
}

/// Collapsing is idempotent: a second pass returns its input unchanged.
pub proof fn lemma_collapse_idempotent(t: NodeV)
    ensures
        collapse_spec(collapse_spec(t)) == collapse_spec(t),
{
    lemma_collapse_fully(t);
    lemma_collapse_noop(collapse_spec(t));
}

/// Collapsing keeps the tree well formed: only directories have
/// children, only files carry a size.
pub proof fn lemma_collapse_wf(t: NodeV)
    requires
        t.wf(),
    ensures
        collapse_spec(t).wf(),
    decreases t,
{
    let cs = collapse_children(t.children);
    lemma_collapse_children_len(t.children);
    assert forall|i: int| 0 <= i < cs.len() implies (#[trigger] cs[i]).wf() by {
        lemma_collapse_children_index(t.children, i);
        lemma_collapse_wf(t.children[i]);
    }
    if cs.len() == 1 && cs[0].is_dir {
        assert(cs[0].wf());
    }
}

/// A directory node value.
pub open spec fn dir_v(name: Seq<char>, children: Seq<NodeV>) -> NodeV {
    NodeV { name: name, is_dir: true, size: None, children: children }
}

pub proof fn lemma_collapse_children_single(x: NodeV)
    ensures
        collapse_children(seq![x]) =~= seq![collapse_spec(x)],
{
    assert(seq![x].drop_last() =~= Seq::<NodeV>::empty());
    assert(seq![x].last() == x);
    assert(collapse_children(Seq::<NodeV>::empty()) =~= Seq::<NodeV>::empty());
}

/// A chain `root -> a -> b -> leaf`, where `root`, `a` and `b` each have
/// exactly one child and `leaf` is a file, collapses to the single node
/// `root/a/b` whose children are `b`'s children.
pub proof fn lemma_collapse_chain(root: Seq<char>, a: Seq<char>, b: Seq<char>, leaf: NodeV)
    requires
        !leaf.is_dir,
        leaf.children.len() == 0,
    ensures
        collapse_spec(dir_v(root, seq![dir_v(a, seq![dir_v(b, seq![leaf])])])) == dir_v(
            root + seq!['/'] + a + seq!['/'] + b,
            seq![leaf],
        ),
{
    let bn = dir_v(b, seq![leaf]);
    let an = dir_v(a, seq![bn]);
    let rn = dir_v(root, seq![an]);
    assert(collapse_spec(leaf) == leaf) by {
        assert(leaf.children.len() == 0);
        assert(collapse_children(leaf.children) =~= Seq::<NodeV>::empty());
        assert(collapse_children(leaf.children).len() != 1);
        assert(collapse_spec(leaf).children =~= leaf.children);
        assert(collapse_spec(leaf) =~= leaf);
    }
    lemma_collapse_children_single(leaf);
    assert(collapse_spec(bn) == bn) by {
        assert(collapse_children(seq![leaf]) =~= seq![leaf]);
        assert(collapse_spec(bn) =~= bn);
    }
    lemma_collapse_children_single(bn);
    let am = collapse_spec(an);
    assert(am == dir_v(a + seq!['/'] + b, seq![leaf])) by {
        assert(collapse_children(seq![bn]) =~= seq![bn]);
    }
    lemma_collapse_children_single(an);
    assert(collapse_children(seq![an]) =~= seq![am]);
    let rm = collapse_spec(rn);
    assert(rm.name =~= root + seq!['/'] + a + seq!['/'] + b);
    assert(rm =~= dir_v(root + seq!['/'] + a + seq!['/'] + b, seq![leaf]));
}

/// How many file (non-directory) nodes the tree holds.
pub open spec fn file_count(t: NodeV) -> nat
    decreases t,
{
    if !t.is_dir {
        1
    } else {
        file_count_seq(t.children)
    }
}

pub open spec fn file_count_seq(s: Seq<NodeV>) -> nat
    decreases s,
{
    if s.len() == 0 {
        0
    } else {
        file_count_seq(s.drop_last()) + file_count(s.last())
    }
}

/// Collapses chains of single-child directories into compound path
/// segments; a pure transformation of the tree.
pub fn collapse_tree(node: TreeNode) -> (r: TreeNode)
    ensures
        r@ == collapse_spec(node@),
{
    collapse_ref(&node)
}

fn collapse_ref(node: &TreeNode) -> (r: TreeNode)
    ensures
        r@ == collapse_spec(node@),
    decreases *node,
{
    let ghost n0 = *node;
    let mut collapsed: Vec<TreeNode> = Vec::new();
    let mut i: usize = 0;
    proof {
        assert(n0.children@.take(0) =~= Seq::<TreeNode>::empty());
    }
    while i < node.children.len()
        invariant
            i == collapsed@.len(),
            i <= node.children@.len(),
            n0 == *node,
            views_of(collapsed@) == collapse_children(
                views_of(n0.children@.take(collapsed@.len() as int)),
            ),
        decreases node.children@.len() - i,
    {
        let ghost k = collapsed@.len() as int;
        let ghost pre = views_of(n0.children@.take(k));
        let ghost precol = collapsed@;
        let c = &node.children[i];
        proof {
            assert(*c == n0.children@[k]);
            assert(decreases_to!(n0 => n0.children));
            assert(decreases_to!(n0.children => n0.children@));
            assert(decreases_to!(n0.children@ => n0.children@[k]));
            assert(decreases_to!(*node => *c));
        }
        let cc = collapse_ref(c);
        collapsed.push(cc);
        i = i + 1;
        proof {
            let tk1 = n0.children@.take(k + 1);
            assert(tk1.drop_last() =~= n0.children@.take(k));
            assert(tk1.last() == *c);
            assert(views_of(tk1) == pre.push(node_view(*c)));
            assert(pre.push(node_view(*c)).drop_last() =~= pre);
            assert(pre.push(node_view(*c)).last() == node_view(*c));
            assert(collapse_children(pre.push(node_view(*c))) == collapse_children(pre).push(
                collapse_spec(node_view(*c)),
            ));
            assert(collapsed@ == precol.push(cc));
            assert(collapsed@.drop_last() =~= precol);
            assert(collapsed@.last() == cc);
            assert(views_of(collapsed@) == views_of(precol).push(node_view(cc)));
            assert(views_of(collapsed@) == collapse_children(views_of(tk1)));
        }
    }
    proof {
        assert(n0.children@.take(collapsed@.len() as int) =~= n0.children@);
    }
    if collapsed.len() == 1 && collapsed[0].is_dir {
        let mut only = collapsed;
        let child = only.remove(0);
        let mut new_name = node.name.clone();
        new_name.append("/");
        new_name.append(child.name.as_str());
        let r = TreeNode { name: new_name, is_dir: true, size: None, children: child.children };
        proof {
            reveal_strlit("/");
            let cs = collapse_children(views_of(n0.children@));
            lemma_views_of_len(n0.children@);
            lemma_collapse_children_len(views_of(n0.children@));
            assert(cs[0] == node_view(child));
            assert(child.is_dir == node_view(child).is_dir);
            assert("/"@ =~= seq!['/']);
            assert(new_name@ =~= n0.name@ + seq!['/'] + cs[0].name);
            assert(r@ =~= collapse_spec(n0@));
        }
        r
    } else {
        let r = TreeNode {
            name: node.name.clone(),
            is_dir: node.is_dir,
            size: node.size,
            children: collapsed,
        };
        proof {
            let cs = collapse_children(views_of(n0.children@));
            lemma_views_of_len(n0.children@);
            lemma_collapse_children_len(views_of(n0.children@));
            if collapsed@.len() == 1 {
                assert(cs[0] == node_view(collapsed@[0]));
            }
            assert(r@ =~= collapse_spec(n0@));
        }
        r
    }
}

} // verus!
