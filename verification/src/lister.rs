use vstd::prelude::*;
use vstd::string::StrSliceExecFns;
use crate::sorting::{
    insert_by_name, lemma_insert_at_pos, sort_by_name,
};
use crate::text::{lex_le, str_le};

verus! {

/// Whether the shell-style glob `pattern` compiles; the meaning is fixed
/// by the glob crate and nothing more is assumed of it.
pub uninterp spec fn glob_valid(pattern: Seq<char>) -> bool;

/// Whether `name` matches the shell-style glob `pattern`; the meaning is
/// fixed by the glob crate and nothing more is assumed of it.
pub uninterp spec fn glob_matches(pattern: Seq<char>, name: Seq<char>) -> bool;

/// Relies on glob::Pattern::new and glob::Pattern::matches: `None` for a
/// pattern that does not compile, otherwise whether `name` matches it.
#[verifier::external_body]
fn glob_try_match(pattern: &str, name: &str) -> (r: Option<bool>)
    ensures
        r is Some <==> glob_valid(pattern@),
        r is Some ==> r.unwrap() == glob_matches(pattern@, name@),
{
    match glob::Pattern::new(pattern) {
        Ok(p) => Some(p.matches(name)),
        Err(_) => None,
    }
}

/// One entry of a directory listing, as the lister returns it.
pub struct EntryInfo {
    pub name: String,
    pub is_dir: bool,
    pub size: Option<u64>,
}

/// The mathematical value of an `EntryInfo`.
#[verifier::ext_equal]
pub struct EntryV {
    pub name: Seq<char>,
    pub is_dir: bool,
    pub size: Option<u64>,
}

impl View for EntryInfo {
    type V = EntryV;

    open spec fn view(&self) -> EntryV {
        EntryV { name: self.name@, is_dir: self.is_dir, size: self.size }
    }
}

pub open spec fn entry_views(s: Seq<EntryInfo>) -> Seq<EntryV> {
    s.map_values(|e: EntryInfo| e@)
}

/// The sort key of an entry: its name.
pub open spec fn entry_key() -> spec_fn(EntryV) -> Seq<char> {
    |e: EntryV| e.name
}

/// A dotfile or dot-directory.
pub open spec fn hidden_name(name: Seq<char>) -> bool {
    name.len() > 0 && name[0] == '.'
}

/// Whether an entry survives the listing filters: dotfiles are dropped
/// unless hidden entries are shown, and the glob filter applies to file
/// names only, never to directories. A malformed filter is recovered by
/// letting it match everything.
pub open spec fn keep_name(
    name: Seq<char>,
    is_dir: bool,
    show_hidden: bool,
    filter: Option<Seq<char>>,
) -> bool {
    &&& (show_hidden || !hidden_name(name))
    &&& (is_dir || filter is None || !glob_valid(filter.unwrap()) || glob_matches(
        filter.unwrap(),
        name,
    ))
}

pub open spec fn keep_pred(show_hidden: bool, filter: Option<Seq<char>>) -> spec_fn(EntryV) -> bool {
    |e: EntryV| keep_name(e.name, e.is_dir, show_hidden, filter)
}

/// The value of an optional filter string.
pub open spec fn opt_str_view(f: Option<&str>) -> Option<Seq<char>> {
    match f {
        Some(s) => Some(s@),
        None => None,
    }
}

/// What the lister returns: the entries that survive the filters, sorted
/// by name in codepoint-lexicographic order.
pub open spec fn list_spec(
    s: Seq<EntryV>,
    show_hidden: bool,
    filter: Option<Seq<char>>,
) -> Seq<EntryV> {
    sort_by_name(entry_key(), s.filter(keep_pred(show_hidden, filter)))
}

pub proof fn lemma_entry_views_push(s: Seq<EntryInfo>, e: EntryInfo)
    ensures
        entry_views(s.push(e)) =~= entry_views(s).push(e@),
{
    assert forall|i: int| 0 <= i < s.len() + 1 implies entry_views(s.push(e))[i] == entry_views(
        s,
    ).push(e@)[i] by {
        if i < s.len() {
            assert(s.push(e)[i] == s[i]);
        } else {
            assert(s.push(e)[i] == e);
        }
    }
}

pub proof fn lemma_entry_views_remove0(s: Seq<EntryInfo>)
    requires
        s.len() > 0,
    ensures
        entry_views(s.remove(0)) =~= entry_views(s).skip(1),
{
    assert forall|i: int| 0 <= i < s.len() - 1 implies entry_views(s.remove(0))[i] == entry_views(
        s,
    ).skip(1)[i] by {
        assert(s.remove(0)[i] == s[i + 1]);
        assert(entry_views(s).skip(1)[i] == entry_views(s)[i + 1]);
    }
}

/// Whether a name/kind pair survives the listing filters.
pub fn keep_entry_name(name: &str, is_dir: bool, show_hidden: bool, filter: Option<&str>) -> (r:
    bool)
    ensures
        r == keep_name(name@, is_dir, show_hidden, opt_str_view(filter)),
{
    let hidden_ok = if show_hidden {
        true
    } else {
        let hidden = name.unicode_len() > 0 && name.get_char(0) == '.';
        !hidden
    };
    if !hidden_ok {
        return false;
    }
    if is_dir {
        return true;
    }
    match filter {
        None => true,
        Some(p) => match glob_try_match(p, name) {
            // a filter that does not compile matches everything
            None => true,
            Some(b) => b,
        },
    }
}

/// Whether this entry survives the listing filters.
pub fn keep_entry(e: &EntryInfo, show_hidden: bool, filter: Option<&str>) -> (r: bool)
    ensures
        r == keep_name(e@.name, e@.is_dir, show_hidden, opt_str_view(filter)),
{
    keep_entry_name(e.name.as_str(), e.is_dir, show_hidden, filter)
}

/// Where `x` belongs in a sorted run: the first index whose name is not
/// below `x`'s.
fn find_insert_pos(sorted: &Vec<EntryInfo>, x: &EntryInfo) -> (j: usize)
    ensures
        j <= sorted@.len(),
        forall|k: int| 0 <= k < j ==> !lex_le(x@.name, entry_views(sorted@)[k].name),
        j < sorted@.len() ==> lex_le(x@.name, entry_views(sorted@)[j as int].name),
{
    let mut j: usize = 0;
    while j < sorted.len()
        invariant
            j <= sorted@.len(),
            forall|k: int| 0 <= k < j ==> !lex_le(x@.name, entry_views(sorted@)[k].name),
        decreases sorted@.len() - j,
    {
        let sj = &sorted[j];
        if str_le(x.name.as_str(), sj.name.as_str()) {
            return j;
        }
        j = j + 1;
    }
    j
}

/// Inserts one entry into a run so that the run stays the spec insertion.
fn insert_entry(sorted: &mut Vec<EntryInfo>, x: EntryInfo)
    ensures
        entry_views(final(sorted)@) == insert_by_name(entry_key(), x@, entry_views(old(sorted)@)),
{
    let ghost s0 = entry_views(sorted@);
    let j = find_insert_pos(sorted, &x);
    let ghost xv = x@;
    sorted.insert(j, x);
    proof {
        lemma_insert_at_pos(entry_key(), xv, s0, j as int);
        assert(entry_views(sorted@) =~= s0.take(j as int) + seq![xv] + s0.skip(j as int)) by {
            assert(sorted@ == old(sorted)@.insert(j as int, x));
            assert(forall|i: int|
                0 <= i < sorted@.len() ==> entry_views(sorted@)[i] == (#[trigger] sorted@[i])@);
        }
    }
}

/// Produces the filtered, deterministically ordered listing of raw
/// directory entries: dotfiles are dropped unless shown, the glob filter
/// applies to file names only, and the result is sorted by name.
pub fn list_entries(entries: Vec<EntryInfo>, show_hidden: bool, filter: Option<&str>) -> (r: Vec<
    EntryInfo,
>)
    ensures
        entry_views(r@) == list_spec(entry_views(entries@), show_hidden, opt_str_view(filter)),
{
    let ghost orig = entry_views(entries@);
    let ghost p = keep_pred(show_hidden, opt_str_view(filter));
    let mut src = entries;
    let mut kept: Vec<EntryInfo> = Vec::new();
    proof {
        reveal(Seq::filter);
        assert(orig.take(0) =~= Seq::<EntryV>::empty());
        assert(Seq::<EntryV>::empty().filter(p) =~= Seq::<EntryV>::empty());
        assert(entry_views(kept@) =~= Seq::<EntryV>::empty());
        assert(entry_views(src@) =~= orig.skip(0));
    }
    while src.len() > 0
        invariant
            src@.len() <= orig.len(),
            p == keep_pred(show_hidden, opt_str_view(filter)),
            entry_views(src@) == orig.skip(orig.len() - src@.len()),
            entry_views(kept@) == orig.take(orig.len() - src@.len()).filter(p),
        decreases src@.len(),
    {
        let ghost k: int = orig.len() - src@.len();
        let ghost kept0 = entry_views(kept@);
        let ghost presrc = src@;
        let ghost prekept = kept@;
        let e = src.remove(0);
        proof {
            lemma_entry_views_remove0(presrc);
            assert(entry_views(src@) =~= entry_views(presrc).skip(1));
            assert(entry_views(presrc).skip(1) =~= orig.skip(k + 1)) by {
                assert(forall|i: int|
                    0 <= i < presrc.len() - 1 ==> entry_views(presrc).skip(1)[i] == entry_views(
                        presrc,
                    )[i + 1]);
                assert(forall|i: int|
                    0 <= i < presrc.len() - 1 ==> #[trigger] orig.skip(k + 1)[i] == orig.skip(
                        k,
                    )[i + 1]);
            }
            assert(e@ == orig[k]) by {
                assert(entry_views(presrc)[0] == orig.skip(k)[0]);
                assert(orig.skip(k)[0] == orig[k]);
            }
        }
        let keep = keep_entry(&e, show_hidden, filter);
        let ghost ev = e@;
        if keep {
            kept.push(e);
            proof {
                lemma_entry_views_push(prekept, e);
                assert(entry_views(kept@) =~= kept0.push(ev));
            }
        }
        proof {
            reveal(Seq::filter);
            let tk1 = orig.take(k + 1);
            assert(tk1.drop_last() =~= orig.take(k));
            assert(tk1.last() == ev);
            assert(p(ev) == keep);
            assert(tk1.len() == k + 1);
            assert(tk1.filter(p) == (if p(ev) {
                orig.take(k).filter(p).push(ev)
            } else {
                orig.take(k).filter(p)
            }));
            assert(entry_views(kept@) == tk1.filter(p));
        }
    }
    proof {
        assert(orig.take(orig.len() - src@.len()) =~= orig);
    }
    let ghost kv = entry_views(kept@);
    let mut sorted: Vec<EntryInfo> = Vec::new();
    proof {
        assert(kv.take(0) =~= Seq::<EntryV>::empty());
        assert(entry_views(sorted@) =~= Seq::<EntryV>::empty());
        assert(entry_views(kept@) =~= kv.skip(0));
    }
    while kept.len() > 0
        invariant
            kept@.len() <= kv.len(),
            entry_views(kept@) == kv.skip(kv.len() - kept@.len()),
            entry_views(sorted@) == sort_by_name(entry_key(), kv.take(kv.len() - kept@.len())),
        decreases kept@.len(),
    {
        let ghost k: int = kv.len() - kept@.len();
        let ghost sorted0 = entry_views(sorted@);
        let ghost prekept = kept@;
        let e = kept.remove(0);
        proof {
            lemma_entry_views_remove0(prekept);
            assert(entry_views(kept@) =~= entry_views(prekept).skip(1));
            assert(entry_views(prekept).skip(1) =~= kv.skip(k + 1)) by {
                assert(forall|i: int|
                    0 <= i < prekept.len() - 1 ==> entry_views(prekept).skip(1)[i] == entry_views(
                        prekept,
                    )[i + 1]);
                assert(forall|i: int|
                    0 <= i < prekept.len() - 1 ==> #[trigger] kv.skip(k + 1)[i] == kv.skip(
                        k,
                    )[i + 1]);
            }
            assert(e@ == kv[k]) by {
                assert(entry_views(prekept)[0] == kv.skip(k)[0]);
                assert(kv.skip(k)[0] == kv[k]);
            }
        }
        insert_entry(&mut sorted, e);
        proof {
            let tk1 = kv.take(k + 1);
            assert(tk1.drop_last() =~= kv.take(k));
            assert(tk1.last() == kv[k]);
        }
    }
    proof {
        assert(kv.take(kv.len() - kept@.len()) =~= kv);
    }
    sorted
}

} // verus!
