use vstd::prelude::*;

verus! {

/// A snapshot of one filesystem object, taken outside the library and
/// handed in as plain values: a file with its size (when its metadata
/// could be read), or a directory with its entries. A directory whose
/// listing could not be read has `readable == false` and no entries.
pub struct FsNode {
    pub name: String,
    pub is_dir: bool,
    pub size: Option<u64>,
    pub readable: bool,
    pub entries: Vec<FsNode>,
}

/// The mathematical value of an `FsNode`.
#[verifier::ext_equal]
pub struct FsV {
    pub name: Seq<char>,
    pub is_dir: bool,
    pub size: Option<u64>,
    pub readable: bool,
    pub entries: Seq<FsV>,
}

pub open spec fn fs_views_of(s: Seq<FsNode>) -> Seq<FsV>
    decreases s,
{
    if s.len() == 0 {
        Seq::empty()
    } else {
        fs_views_of(s.drop_last()).push(fs_view(s.last()))
    }
}

pub open spec fn fs_view(n: FsNode) -> FsV
    decreases n,
{
    FsV {
        name: n.name@,
        is_dir: n.is_dir,
        size: n.size,
        readable: n.readable,
        entries: fs_views_of(n.entries@),
    }
}

impl View for FsNode {
    type V = FsV;

    open spec fn view(&self) -> FsV {
        fs_view(*self)
    }
}

pub broadcast proof fn lemma_fs_views_of_len(s: Seq<FsNode>)
    ensures
        #[trigger] fs_views_of(s).len() == s.len(),
    decreases s,
{
    if s.len() != 0 {
        lemma_fs_views_of_len(s.drop_last());
    }
}

pub broadcast proof fn lemma_fs_views_of_index(s: Seq<FsNode>, i: int)
    requires
        0 <= i < s.len(),
    ensures
        #[trigger] fs_views_of(s)[i] == fs_view(s[i]),
    decreases s,
{
    lemma_fs_views_of_len(s);
    if s.len() != 0 {
        if i == s.len() - 1 {
            lemma_fs_views_of_len(s.drop_last());
        } else {
            lemma_fs_views_of_index(s.drop_last(), i);
            assert(s.drop_last()[i] == s[i]);
        }
    }
}

/// How many regular files the snapshot reaches.
pub open spec fn fs_file_count(d: FsV) -> nat
    decreases d, 0nat,
{
    if !d.is_dir {
        1
    } else {
        fs_file_count_seq(d.entries)
    }
}

pub open spec fn fs_file_count_seq(s: Seq<FsV>) -> nat
    decreases s, 1nat,
{
    if s.len() == 0 {
        0
    } else {
        fs_file_count_seq(s.drop_last()) + fs_file_count(s.last())
    }
}

/// Every directory in the snapshot could be listed.
pub open spec fn all_readable(d: FsV) -> bool
    decreases d,
{
    &&& (d.is_dir ==> d.readable)
    &&& forall|i: int| 0 <= i < d.entries.len() ==> all_readable(#[trigger] d.entries[i])
}

} // verus!
