use vstd::prelude::*;
use crate::builder::{
    build_children, build_entry, build_spec, dec_depth, depth_allows, file_leaf, keep_node_pred,
    lemma_build_children_index, lemma_build_children_len, node_key,
};
use crate::fsmodel::{all_readable, fs_file_count, fs_file_count_seq, FsV};
use crate::lister::hidden_name;
use crate::lister::{glob_matches, glob_valid};
use crate::sorting::{
    lemma_filter_elems, lemma_sort_elems, lemma_sort_sorted, lemma_sort_sum, sort_by_name,
    sorted_by_name, sum_by,
};
use crate::tree::{file_count, file_count_seq, NodeV};

verus! {

/// The weight of a node when counting files.
pub open spec fn file_weight() -> spec_fn(NodeV) -> nat {
    |n: NodeV| file_count(n)
}

proof fn lemma_file_count_seq_is_sum(s: Seq<NodeV>)
    ensures
        file_count_seq(s) == sum_by(file_weight(), s),
    decreases s,
{
    if s.len() != 0 {
        lemma_file_count_seq_is_sum(s.drop_last());
    }
}

/// With hidden entries shown and no name filter, every node passes the
/// listing filters.
proof fn lemma_filter_keep_all(s: Seq<NodeV>)
    ensures
        s.filter(keep_node_pred(true, None)) == s,
    decreases s.len(),
{
    reveal(Seq::filter);
    let p = keep_node_pred(true, None);
    if s.len() == 0 {
        assert(s.filter(p) =~= s);
    } else {
        lemma_filter_keep_all(s.drop_last());
        assert(p(s.last()));
        assert(s.filter(p) =~= s);
    }
}

/// With no depth bound, no name filter and hidden entries included, the
/// built tree holds exactly one file node for every regular file the
/// snapshot reaches — provided every directory in the snapshot could be
/// listed, since files behind an unreadable directory never reach the
/// snapshot at all.
pub proof fn lemma_build_file_count(d: FsV)
    requires
        d.is_dir,
        all_readable(d),
    ensures
        file_count(build_spec(d, None, true, None)) == fs_file_count(d),
    decreases d, 0nat,
{
    let bc = build_children(d.entries, None, true, None);
    let t = build_spec(d, None, true, None);
    lemma_build_children_count(d.entries);
    lemma_filter_keep_all(bc);
    lemma_file_count_seq_is_sum(bc);
    lemma_sort_sum(node_key(), file_weight(), bc);
    lemma_file_count_seq_is_sum(sort_by_name(node_key(), bc));
    assert(t.children == sort_by_name(node_key(), bc));
    assert(file_count(t) == file_count_seq(t.children));
}

proof fn lemma_build_children_count(s: Seq<FsV>)
    requires
        forall|i: int| 0 <= i < s.len() ==> all_readable(#[trigger] s[i]),
    ensures
        file_count_seq(build_children(s, None, true, None)) == fs_file_count_seq(s),
    decreases s, 1nat,
{
    if s.len() != 0 {
        assert(forall|i: int|
            0 <= i < s.drop_last().len() ==> all_readable(#[trigger] s.drop_last()[i]));
        lemma_build_children_count(s.drop_last());
        let e = s.last();
        let bc = build_children(s, None, true, None);
        assert(bc.drop_last() =~= build_children(s.drop_last(), None, true, None)) by {
            assert(bc == build_children(s.drop_last(), None, true, None).push(
                build_entry(e, None, true, None),
            ));
        }
        assert(bc.last() == build_entry(e, None, true, None));
        if e.is_dir {
            assert(all_readable(e));
            lemma_build_file_count(e);
            assert(build_entry(e, None, true, None) == build_spec(e, None, true, None));
            assert(file_count(bc.last()) == fs_file_count(e));
        } else {
            assert(bc.last() == file_leaf(e));
            assert(file_count(bc.last()) == 1);
            assert(fs_file_count(e) == 1);
        }
        assert(file_count_seq(bc) == file_count_seq(bc.drop_last()) + file_count(bc.last()));
        assert(fs_file_count_seq(s) == fs_file_count_seq(s.drop_last()) + fs_file_count(e));
    }
}

/// Whatever the snapshot and options, the built tree is well formed:
/// only directories have children, only files carry a size.
pub proof fn lemma_build_wf(d: FsV, md: Option<usize>, sh: bool, f: Option<Seq<char>>)
    ensures
        build_spec(d, md, sh, f).wf(),
    decreases d,
{
    let t = build_spec(d, md, sh, f);
    if d.is_dir && d.readable {
        let p = keep_node_pred(sh, f);
        let bc = build_children(d.entries, md, sh, f);
        let fl = bc.filter(p);
        lemma_sort_elems(node_key(), fl);
        lemma_filter_elems(bc, p);
        lemma_build_children_len(d.entries, md, sh, f);
        assert forall|i: int| 0 <= i < t.children.len() implies (#[trigger] t.children[i]).wf() by {
            let c = t.children[i];
            assert(fl.contains(c));
            assert(bc.contains(c));
            let j = choose|j: int| 0 <= j < bc.len() && bc[j] == c;
            lemma_build_children_index(d.entries, md, sh, f, j);
            let e = d.entries[j];
            assert(c == build_entry(e, md, sh, f));
            if e.is_dir && depth_allows(md) {
                assert(decreases_to!(d => d.entries));
                assert(decreases_to!(d.entries => d.entries[j]));
                assert(decreases_to!(d => e));
                lemma_build_wf(e, dec_depth(md), sh, f);
            }
        }
    }
}

/// Every node exactly `k` levels below the given one has no children.
pub open spec fn depth_clipped(t: NodeV, k: nat) -> bool
    decreases t,
{
    if k == 0 {
        t.children.len() == 0
    } else {
        forall|i: int|
            0 <= i < t.children.len() ==> depth_clipped(
                #[trigger] t.children[i],
                (k - 1) as nat,
            )
    }
}

/// A childless node is clipped at every depth.
proof fn lemma_leaf_clipped(t: NodeV, k: nat)
    requires
        t.children.len() == 0,
    ensures
        depth_clipped(t, k),
{
}

/// The depth bound clips the tree: in `build` with `Some(k)`, every node
/// `k` levels below the root's own children has empty children, whether or
/// not the directory there is empty on disk.
pub proof fn lemma_build_depth(d: FsV, k: usize, sh: bool, f: Option<Seq<char>>)
    ensures
        forall|i: int|
            0 <= i < build_spec(d, Some(k), sh, f).children.len() ==> depth_clipped(
                #[trigger] build_spec(d, Some(k), sh, f).children[i],
                k as nat,
            ),
    decreases d,
{
    let md = Some(k);
    let t = build_spec(d, md, sh, f);
    if d.is_dir && d.readable {
        let p = keep_node_pred(sh, f);
        let bc = build_children(d.entries, md, sh, f);
        let fl = bc.filter(p);
        lemma_sort_elems(node_key(), fl);
        lemma_filter_elems(bc, p);
        lemma_build_children_len(d.entries, md, sh, f);
        assert forall|i: int| 0 <= i < t.children.len() implies depth_clipped(
            #[trigger] t.children[i],
            k as nat,
        ) by {
            let c = t.children[i];
            assert(fl.contains(c));
            assert(bc.contains(c));
            let j = choose|j: int| 0 <= j < bc.len() && bc[j] == c;
            lemma_build_children_index(d.entries, md, sh, f, j);
            let e = d.entries[j];
            assert(c == build_entry(e, md, sh, f));
            if !e.is_dir {
                lemma_leaf_clipped(c, k as nat);
            } else if k > 0 {
                assert(c == build_spec(e, Some((k - 1) as usize), sh, f));
                assert(decreases_to!(d => d.entries));
                assert(decreases_to!(d.entries => d.entries[j]));
                assert(decreases_to!(d => e));
                lemma_build_depth(e, (k - 1) as usize, sh, f);
                assert(depth_clipped(c, k as nat));
            } else {
                lemma_leaf_clipped(c, k as nat);
            }
        }
    }
}

/// At every directory level of the tree the children stand sorted by name.
pub open spec fn sorted_tree(t: NodeV) -> bool
    decreases t,
{
    &&& sorted_by_name(node_key(), t.children)
    &&& forall|i: int| 0 <= i < t.children.len() ==> sorted_tree(#[trigger] t.children[i])
}

/// The builder orders every level: the pre-order rendering therefore walks
/// each directory's entries in non-decreasing name order.
pub proof fn lemma_build_sorted(d: FsV, md: Option<usize>, sh: bool, f: Option<Seq<char>>)
    ensures
        sorted_tree(build_spec(d, md, sh, f)),
    decreases d,
{
    let t = build_spec(d, md, sh, f);
    if d.is_dir && d.readable {
        let p = keep_node_pred(sh, f);
        let bc = build_children(d.entries, md, sh, f);
        let fl = bc.filter(p);
        lemma_sort_sorted(node_key(), fl);
        lemma_sort_elems(node_key(), fl);
        lemma_filter_elems(bc, p);
        lemma_build_children_len(d.entries, md, sh, f);
        assert forall|i: int| 0 <= i < t.children.len() implies sorted_tree(
            #[trigger] t.children[i],
        ) by {
            let c = t.children[i];
            assert(fl.contains(c));
            assert(bc.contains(c));
            let j = choose|j: int| 0 <= j < bc.len() && bc[j] == c;
            lemma_build_children_index(d.entries, md, sh, f, j);
            let e = d.entries[j];
            assert(c == build_entry(e, md, sh, f));
            if e.is_dir && depth_allows(md) {
                assert(decreases_to!(d => d.entries));
                assert(decreases_to!(d.entries => d.entries[j]));
                assert(decreases_to!(d => e));
                lemma_build_sorted(e, dec_depth(md), sh, f);
            }
        }
    }
}

/// Building never changes what an entry is called or whether it is a
/// directory.
proof fn lemma_build_entry_shape(e: FsV, md: Option<usize>, sh: bool, f: Option<Seq<char>>)
    ensures
        build_entry(e, md, sh, f).name == e.name,
        build_entry(e, md, sh, f).is_dir == e.is_dir,
{
}

/// The listing is complete: every entry of a readable directory that
/// passes the hidden and name filters appears among the built children,
/// as the node it builds into.
pub proof fn lemma_build_complete(d: FsV, md: Option<usize>, sh: bool, f: Option<Seq<char>>, j: int)
    requires
        d.is_dir,
        d.readable,
        0 <= j < d.entries.len(),
        crate::lister::keep_name(d.entries[j].name, d.entries[j].is_dir, sh, f),
    ensures
        build_spec(d, md, sh, f).children.contains(build_entry(d.entries[j], md, sh, f)),
{
    broadcast use vstd::seq_lib::group_filter_ensures;

    let e = d.entries[j];
    let c = build_entry(e, md, sh, f);
    let p = keep_node_pred(sh, f);
    let bc = build_children(d.entries, md, sh, f);
    let fl = bc.filter(p);
    lemma_build_children_len(d.entries, md, sh, f);
    lemma_build_children_index(d.entries, md, sh, f, j);
    assert(bc[j] == c);
    lemma_build_entry_shape(e, md, sh, f);
    assert(p(c));
    assert(fl.contains(bc[j]));
    crate::sorting::lemma_sort_contains(node_key(), fl, c);
}

/// Every file node of the tree matches the name filter and is not hidden.
pub open spec fn files_match(t: NodeV, pat: Seq<char>) -> bool
    decreases t,
{
    &&& (!t.is_dir ==> glob_matches(pat, t.name) && !hidden_name(t.name))
    &&& forall|i: int| 0 <= i < t.children.len() ==> files_match(#[trigger] t.children[i], pat)
}

/// With a well-formed name filter and hidden entries dropped, every file
/// leaf of the built tree matches the filter and is not a dotfile;
/// directories are present regardless of their name. (A filter that does
/// not compile is recovered as match-everything, so it constrains
/// nothing.)
pub proof fn lemma_build_filter_files(d: FsV, md: Option<usize>, pat: Seq<char>)
    requires
        d.is_dir,
        glob_valid(pat),
    ensures
        files_match(build_spec(d, md, false, Some(pat)), pat),
    decreases d,
{
    let f = Some(pat);
    let t = build_spec(d, md, false, f);
    if d.readable {
        let p = keep_node_pred(false, f);
        let bc = build_children(d.entries, md, false, f);
        let fl = bc.filter(p);
        broadcast use vstd::seq_lib::group_filter_ensures;

        lemma_sort_elems(node_key(), fl);
        lemma_filter_elems(bc, p);
        lemma_build_children_len(d.entries, md, false, f);
        assert forall|i: int| 0 <= i < t.children.len() implies files_match(
            #[trigger] t.children[i],
            pat,
        ) by {
            let c = t.children[i];
            assert(fl.contains(c));
            let j0 = choose|j: int| 0 <= j < fl.len() && fl[j] == c;
            assert(p(fl[j0]));
            assert(p(c));
            assert(bc.contains(c));
            let j = choose|j: int| 0 <= j < bc.len() && bc[j] == c;
            lemma_build_children_index(d.entries, md, false, f, j);
            let e = d.entries[j];
            assert(c == build_entry(e, md, false, f));
            if !c.is_dir {
                assert(glob_matches(pat, c.name) && !hidden_name(c.name));
                assert(c.children.len() == 0);
            } else if e.is_dir && depth_allows(md) {
                assert(decreases_to!(d => d.entries));
                assert(decreases_to!(d.entries => d.entries[j]));
                assert(decreases_to!(d => e));
                lemma_build_filter_files(e, dec_depth(md), pat);
            } else {
                assert(c.children.len() == 0);
            }
        }
    }
}

} // verus!
