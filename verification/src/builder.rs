use vstd::prelude::*;
use crate::fsmodel::{FsNode, FsV, fs_views_of, lemma_fs_views_of_index, lemma_fs_views_of_len};
use crate::lister::{keep_entry_name, keep_name, opt_str_view};
use crate::sorting::{insert_by_name, lemma_insert_at_pos, sort_by_name};
use crate::text::{lex_le, str_le};
use crate::tree::{
    node_view, views_of, NodeV, TreeNode,
};

verus! {

/// The failures that end a whole batch operation.
#[derive(Clone, Copy, PartialEq, Eq, Structural, Debug)]
pub enum TreeError {
    /// The traversal root could not be opened as a directory.
    RootUnreadable,
    /// The export target is not a known format.
    ExportFormatInvalid,
}

/// The sort key of a built node: its name.
pub open spec fn node_key() -> spec_fn(NodeV) -> Seq<char> {
    |n: NodeV| n.name
}

/// The listing filters, applied to a built node.
pub open spec fn keep_node_pred(show_hidden: bool, filter: Option<Seq<char>>) -> spec_fn(
    NodeV,
) -> bool {
    |n: NodeV| keep_name(n.name, n.is_dir, show_hidden, filter)
}

/// Whether the depth budget still allows expanding a directory entry.
pub open spec fn depth_allows(md: Option<usize>) -> bool {
    match md {
        None => true,
        Some(d) => d > 0,
    }
}

/// One level is spent: `None` stays unbounded.
pub open spec fn dec_depth(md: Option<usize>) -> Option<usize> {
    match md {
        None => None,
        Some(d) => Some((d - 1) as usize),
    }
}

/// The node for a file entry: its captured size, no children.
pub open spec fn file_leaf(e: FsV) -> NodeV {
    NodeV { name: e.name, is_dir: false, size: e.size, children: Seq::empty() }
}

/// The node for a directory that is not expanded: present, but childless.
pub open spec fn dir_stub(e: FsV) -> NodeV {
    NodeV { name: e.name, is_dir: true, size: None, children: Seq::empty() }
}

/// The node one entry becomes: files become leaves, directories are
/// expanded while the depth budget allows and are otherwise left as stubs.
pub open spec fn build_entry(e: FsV, md: Option<usize>, sh: bool, f: Option<Seq<char>>) -> NodeV
    decreases e, 1nat,
{
    if !e.is_dir {
        file_leaf(e)
    } else if depth_allows(md) {
        build_spec(e, dec_depth(md), sh, f)
    } else {
        dir_stub(e)
    }
}

pub open spec fn build_children(
    s: Seq<FsV>,
    md: Option<usize>,
    sh: bool,
    f: Option<Seq<char>>,
) -> Seq<NodeV>
    decreases s, 2nat,
{
    if s.len() == 0 {
        Seq::empty()
    } else {
        build_children(s.drop_last(), md, sh, f).push(build_entry(s.last(), md, sh, f))
    }
}

/// What the builder produces for a directory snapshot: every entry turned
/// into a node, the listing filters applied, and the result sorted by
/// name. An unreadable directory keeps its name but has no children.
pub open spec fn build_spec(d: FsV, md: Option<usize>, sh: bool, f: Option<Seq<char>>) -> NodeV
    decreases d, 0nat,
{
    if !d.is_dir {
        file_leaf(d)
    } else if !d.readable {
        dir_stub(d)
    } else {
        NodeV {
            name: d.name,
            is_dir: true,
            size: None,
            children: sort_by_name(
                node_key(),
                build_children(d.entries, md, sh, f).filter(keep_node_pred(sh, f)),
            ),
        }
    }
}

pub broadcast proof fn lemma_build_children_len(
    s: Seq<FsV>,
    md: Option<usize>,
    sh: bool,
    f: Option<Seq<char>>,
)
    ensures
        #[trigger] build_children(s, md, sh, f).len() == s.len(),
    decreases s,
{
    if s.len() != 0 {
        lemma_build_children_len(s.drop_last(), md, sh, f);
    }
}

pub broadcast proof fn lemma_build_children_index(
    s: Seq<FsV>,
    md: Option<usize>,
    sh: bool,
    f: Option<Seq<char>>,
    i: int,
)
    requires
        0 <= i < s.len(),
    ensures
        #[trigger] build_children(s, md, sh, f)[i] == build_entry(s[i], md, sh, f),
    decreases s,
{
    lemma_build_children_len(s, md, sh, f);
    if s.len() != 0 {
        if i == s.len() - 1 {
            lemma_build_children_len(s.drop_last(), md, sh, f);
        } else {
            lemma_build_children_index(s.drop_last(), md, sh, f, i);
            assert(s.drop_last()[i] == s[i]);
        }
    }
}

fn depth_allows_exec(md: Option<usize>) -> (r: bool)
    ensures
        r == depth_allows(md),
{
    match md {
        None => true,
        Some(d) => d > 0,
    }
}

fn dec_depth_exec(md: Option<usize>) -> (r: Option<usize>)
    requires
        depth_allows(md),
    ensures
        r == dec_depth(md),
{
    match md {
        None => None,
        Some(d) => Some(d - 1),
    }
}

/// Where `x` belongs in a sorted run of built nodes.
fn find_node_pos(sorted: &Vec<TreeNode>, x: &TreeNode) -> (j: usize)
    ensures
        j <= sorted@.len(),
        forall|k: int| 0 <= k < j ==> !lex_le(x@.name, views_of(sorted@)[k].name),
        j < sorted@.len() ==> lex_le(x@.name, views_of(sorted@)[j as int].name),
{
    let mut j: usize = 0;
    proof {
        lemma_views_of_len_local(sorted@);
    }
    while j < sorted.len()
        invariant
            j <= sorted@.len(),
            views_of(sorted@).len() == sorted@.len(),
            forall|k: int| 0 <= k < j ==> !lex_le(x@.name, views_of(sorted@)[k].name),
        decreases sorted@.len() - j,
    {
        let sj = &sorted[j];
        proof {
            lemma_views_of_index_local(sorted@, j as int);
        }
        if str_le(x.name.as_str(), sj.name.as_str()) {
            return j;
        }
        j = j + 1;
    }
    j
}

proof fn lemma_views_of_len_local(s: Seq<TreeNode>)
    ensures
        views_of(s).len() == s.len(),
{
    crate::tree::lemma_views_of_len(s);
}

proof fn lemma_views_of_index_local(s: Seq<TreeNode>, i: int)
    requires
        0 <= i < s.len(),
    ensures
        views_of(s)[i] == node_view(s[i]),
{
    crate::tree::lemma_views_of_index(s, i);
}

pub proof fn lemma_tree_views_push(s: Seq<TreeNode>, t: TreeNode)
    ensures
        views_of(s.push(t)) =~= views_of(s).push(node_view(t)),
{
    assert(s.push(t).drop_last() =~= s);
    assert(s.push(t).last() == t);
}

pub proof fn lemma_tree_views_remove0(s: Seq<TreeNode>)
    requires
        s.len() > 0,
    ensures
        views_of(s.remove(0)) =~= views_of(s).skip(1),
{
    lemma_views_of_len_local(s);
    lemma_views_of_len_local(s.remove(0));
    assert forall|i: int| 0 <= i < s.len() - 1 implies views_of(s.remove(0))[i] == views_of(
        s,
    ).skip(1)[i] by {
        lemma_views_of_index_local(s.remove(0), i);
        lemma_views_of_index_local(s, i + 1);
        assert(s.remove(0)[i] == s[i + 1]);
        assert(views_of(s).skip(1)[i] == views_of(s)[i + 1]);
    }
}

/// Inserts one built node into a run so the run stays the spec insertion.
fn insert_node(sorted: &mut Vec<TreeNode>, x: TreeNode)
    ensures
        views_of(final(sorted)@) == insert_by_name(node_key(), x@, views_of(old(sorted)@)),
{
    let ghost s0 = views_of(sorted@);
    let j = find_node_pos(sorted, &x);
    let ghost xv = x@;
    let ghost pre = sorted@;
    sorted.insert(j, x);
    proof {
        lemma_views_of_len_local(pre);
        lemma_views_of_len_local(sorted@);
        lemma_insert_at_pos(node_key(), xv, s0, j as int);
        assert(views_of(sorted@) =~= s0.take(j as int) + seq![xv] + s0.skip(j as int)) by {
            assert(sorted@ == pre.insert(j as int, x));
            assert forall|i: int| 0 <= i < sorted@.len() implies views_of(sorted@)[i] == (s0.take(
                j as int,
            ) + seq![xv] + s0.skip(j as int))[i] by {
                lemma_views_of_index_local(sorted@, i);
                if i < j {
                    lemma_views_of_index_local(pre, i);
                    assert(sorted@[i] == pre[i]);
                } else if i == j {
                    assert(sorted@[i] == x);
                } else {
                    lemma_views_of_index_local(pre, i - 1);
                    assert(sorted@[i] == pre[i - 1]);
                }
            }
        }
    }
}

/// Builds the node for one snapshot: the recursive descent of the tree
/// builder, with filtering and ordering as the entry lister prescribes.
fn build_node(n: &FsNode, md: Option<usize>, show_hidden: bool, filter: Option<&str>) -> (r:
    TreeNode)
    ensures
        r@ == build_spec(n@, md, show_hidden, opt_str_view(filter)),
    decreases *n,
{
    let ghost fv = opt_str_view(filter);
    if !n.is_dir {
        let r = TreeNode {
            name: n.name.clone(),
            is_dir: false,
            size: n.size,
            children: Vec::new(),
        };
        proof {
            assert(views_of(r.children@) =~= Seq::<NodeV>::empty());
            assert(r@ =~= file_leaf(n@));
        }
        return r;
    }
    if !n.readable {
        let r = TreeNode { name: n.name.clone(), is_dir: true, size: None, children: Vec::new() };
        proof {
            assert(views_of(r.children@) =~= Seq::<NodeV>::empty());
            assert(r@ =~= dir_stub(n@));
        }
        return r;
    }
    let ghost ev = fs_views_of(n.entries@);
    let mut nodes: Vec<TreeNode> = Vec::new();
    let mut i: usize = 0;
    proof {
        lemma_fs_views_of_len(n.entries@);
        assert(ev.take(0) =~= Seq::<FsV>::empty());
        assert(views_of(nodes@) =~= Seq::<NodeV>::empty());
    }
    while i < n.entries.len()
        invariant
            i <= n.entries@.len(),
            ev == fs_views_of(n.entries@),
            ev.len() == n.entries@.len(),
            fv == opt_str_view(filter),
            views_of(nodes@) == build_children(ev.take(i as int), md, show_hidden, fv),
        decreases n.entries@.len() - i,
    {
        let e = &n.entries[i];
        proof {
            lemma_fs_views_of_index(n.entries@, i as int);
            assert(e@ == ev[i as int]);
            assert(decreases_to!(*n => n.entries));
            assert(decreases_to!(n.entries => n.entries@));
            assert(decreases_to!(n.entries@ => n.entries@[i as int]));
            assert(decreases_to!(*n => *e));
        }
        let child: TreeNode = if !e.is_dir {
            let c = TreeNode {
                name: e.name.clone(),
                is_dir: false,
                size: e.size,
                children: Vec::new(),
            };
            proof {
                assert(views_of(c.children@) =~= Seq::<NodeV>::empty());
                assert(c@ =~= file_leaf(e@));
            }
            c
        } else if depth_allows_exec(md) {
            build_node(e, dec_depth_exec(md), show_hidden, filter)
        } else {
            let c = TreeNode {
                name: e.name.clone(),
                is_dir: true,
                size: None,
                children: Vec::new(),
            };
            proof {
                assert(views_of(c.children@) =~= Seq::<NodeV>::empty());
                assert(c@ =~= dir_stub(e@));
            }
            c
        };
        proof {
            assert(child@ == build_entry(ev[i as int], md, show_hidden, fv));
        }
        let ghost prenodes = nodes@;
        nodes.push(child);
        i = i + 1;
        proof {
            lemma_tree_views_push(prenodes, child);
            let tk1 = ev.take(i as int);
            assert(tk1.drop_last() =~= ev.take(i - 1));
            assert(tk1.last() == ev[i - 1]);
            assert(views_of(nodes@) == build_children(tk1, md, show_hidden, fv));
        }
    }
    proof {
        assert(ev.take(i as int) =~= ev);
    }
    let ghost built = build_children(ev, md, show_hidden, fv);
    let ghost p = keep_node_pred(show_hidden, fv);
    let mut src = nodes;
    let mut kept: Vec<TreeNode> = Vec::new();
    proof {
        reveal(Seq::filter);
        lemma_views_of_len_local(src@);
        assert(built.take(0) =~= Seq::<NodeV>::empty());
        assert(Seq::<NodeV>::empty().filter(p) =~= Seq::<NodeV>::empty());
        assert(views_of(kept@) =~= Seq::<NodeV>::empty());
        assert(views_of(src@) =~= built.skip(0));
    }
    while src.len() > 0
        invariant
            src@.len() <= built.len(),
            p == keep_node_pred(show_hidden, fv),
            fv == opt_str_view(filter),
            views_of(src@) == built.skip(built.len() - src@.len()),
            views_of(kept@) == built.take(built.len() - src@.len()).filter(p),
        decreases src@.len(),
    {
        let ghost k: int = built.len() - src@.len();
        let ghost kept0 = views_of(kept@);
        let ghost presrc = src@;
        let ghost prekept = kept@;
        let t = src.remove(0);
        proof {
            lemma_tree_views_remove0(presrc);
            assert(views_of(src@) =~= views_of(presrc).skip(1));
            assert(views_of(presrc).skip(1) =~= built.skip(k + 1)) by {
                lemma_views_of_len_local(presrc);
                assert(forall|i: int|
                    0 <= i < presrc.len() - 1 ==> views_of(presrc).skip(1)[i] == views_of(
                        presrc,
                    )[i + 1]);
                assert(forall|i: int|
                    0 <= i < presrc.len() - 1 ==> #[trigger] built.skip(k + 1)[i] == built.skip(
                        k,
                    )[i + 1]);
            }
            assert(t@ == built[k]) by {
                lemma_views_of_index_local(presrc, 0);
                assert(views_of(presrc)[0] == built.skip(k)[0]);
                assert(built.skip(k)[0] == built[k]);
            }
        }
        let keep = keep_entry_name(t.name.as_str(), t.is_dir, show_hidden, filter);
        let ghost tv = t@;
        proof {
            assert(tv.name == t.name@ && tv.is_dir == t.is_dir);
        }
        if keep {
            kept.push(t);
            proof {
                lemma_tree_views_push(prekept, t);
                assert(views_of(kept@) =~= kept0.push(tv));
            }
        }
        proof {
            reveal(Seq::filter);
            let tk1 = built.take(k + 1);
            assert(tk1.drop_last() =~= built.take(k));
            assert(tk1.last() == tv);
            assert(p(tv) == keep);
            assert(tk1.filter(p) == (if p(tv) {
                built.take(k).filter(p).push(tv)
            } else {
                built.take(k).filter(p)
            }));
            assert(views_of(kept@) == tk1.filter(p));
        }
    }
    proof {
        assert(built.take(built.len() - src@.len()) =~= built);
    }
    let ghost kv = views_of(kept@);
    let mut sorted: Vec<TreeNode> = Vec::new();
    proof {
        assert(kv.take(0) =~= Seq::<NodeV>::empty());
        assert(views_of(sorted@) =~= Seq::<NodeV>::empty());
        assert(views_of(kept@) =~= kv.skip(0));
        lemma_views_of_len_local(kept@);
    }
    while kept.len() > 0
        invariant
            kept@.len() <= kv.len(),
            views_of(kept@) == kv.skip(kv.len() - kept@.len()),
            views_of(sorted@) == sort_by_name(node_key(), kv.take(kv.len() - kept@.len())),
        decreases kept@.len(),
    {
        let ghost k: int = kv.len() - kept@.len();
        let ghost prekept = kept@;
        let t = kept.remove(0);
        proof {
            lemma_tree_views_remove0(prekept);
            assert(views_of(kept@) =~= views_of(prekept).skip(1));
            assert(views_of(prekept).skip(1) =~= kv.skip(k + 1)) by {
                lemma_views_of_len_local(prekept);
                assert(forall|i: int|
                    0 <= i < prekept.len() - 1 ==> views_of(prekept).skip(1)[i] == views_of(
                        prekept,
                    )[i + 1]);
                assert(forall|i: int|
                    0 <= i < prekept.len() - 1 ==> #[trigger] kv.skip(k + 1)[i] == kv.skip(
                        k,
                    )[i + 1]);
            }
            assert(t@ == kv[k]) by {
                lemma_views_of_index_local(prekept, 0);
                assert(views_of(prekept)[0] == kv.skip(k)[0]);
                assert(kv.skip(k)[0] == kv[k]);
            }
        }
        insert_node(&mut sorted, t);
        proof {
            let tk1 = kv.take(k + 1);
            assert(tk1.drop_last() =~= kv.take(k));
            assert(tk1.last() == kv[k]);
        }
    }
    proof {
        assert(kv.take(kv.len() - kept@.len()) =~= kv);
    }
    let r = TreeNode { name: n.name.clone(), is_dir: true, size: None, children: sorted };
    proof {
        assert(r@ =~= build_spec(n@, md, show_hidden, fv));
    }
    r
}

/// Builds the display tree for a directory snapshot. The root must be a
/// readable directory; per-entry failures inside it have already degraded
/// to absent sizes, stub directories or dropped entries in the snapshot.
pub fn build_tree(
    root: &FsNode,
    max_depth: Option<usize>,
    show_hidden: bool,
    filter: Option<&str>,
) -> (r: Result<TreeNode, TreeError>)
    ensures
        r is Ok <==> (root@.is_dir && root@.readable),
        r is Ok ==> r->Ok_0@ == build_spec(root@, max_depth, show_hidden, opt_str_view(filter)),
        r is Err ==> r->Err_0 == TreeError::RootUnreadable,
{
    if !n_is_readable_dir(root) {
        return Err(TreeError::RootUnreadable);
    }
    Ok(build_node(root, max_depth, show_hidden, filter))
}

/// Whether the snapshot is a directory whose listing could be read.
fn n_is_readable_dir(n: &FsNode) -> (r: bool)
    ensures
        r == (n@.is_dir && n@.readable),
{
    n.is_dir && n.readable
}

/// A structured export target.
#[derive(Clone, Copy, PartialEq, Eq, Structural, Debug)]
pub enum ExportFormat {
    Json,
    Csv,
}

/// Which export the name designates: only `json` and `csv` are known.
pub open spec fn export_format_spec(s: Seq<char>) -> Result<ExportFormat, TreeError> {
    if s == "json"@ {
        Ok(ExportFormat::Json)
    } else if s == "csv"@ {
        Ok(ExportFormat::Csv)
    } else {
        Err(TreeError::ExportFormatInvalid)
    }
}

/// Recognizes the export target named on the command line; anything but
/// `json` or `csv` is the fatal `ExportFormatInvalid`.
pub fn parse_export_format(s: &str) -> (r: Result<ExportFormat, TreeError>)
    ensures
        r == export_format_spec(s@),
{
    if crate::names::str_eq(s, "json") {
        Ok(ExportFormat::Json)
    } else if crate::names::str_eq(s, "csv") {
        Ok(ExportFormat::Csv)
    } else {
        Err(TreeError::ExportFormatInvalid)
    }
}

} // verus!
