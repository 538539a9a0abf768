use vstd::prelude::*;
use vstd::string::{StrSliceExecFns, StringExecFns};
use crate::text::{dec_str, digit_char, u64_to_string};
use crate::tree::{views_of, NodeV, TreeNode};

verus! {

/// One lowercase hexadecimal digit.
pub open spec fn hex_digit(d: nat) -> char
    recommends
        d < 16,
{
    if d < 10 {
        digit_char(d)
    } else {
        (((87 + d) as u8) as char)
    }
}

/// How one character reads inside a JSON string: quote and backslash are
/// escaped, control characters take the `\u00XX` form, all else stands.
pub open spec fn esc_char(c: char) -> Seq<char> {
    if c == '"' {
        seq!['\\', '"']
    } else if c == '\\' {
        seq!['\\', '\\']
    } else if (c as u32) < 32 {
        seq!['\\', 'u', '0', '0', hex_digit((c as u32 / 16) as nat), hex_digit(
            (c as u32 % 16) as nat,
        )]
    } else {
        seq![c]
    }
}

pub open spec fn json_escape(s: Seq<char>) -> Seq<char>
    decreases s.len(),
{
    if s.len() == 0 {
        Seq::empty()
    } else {
        json_escape(s.drop_last()) + esc_char(s.last())
    }
}

pub open spec fn json_bool(b: bool) -> Seq<char> {
    if b {
        "true"@
    } else {
        "false"@
    }
}

pub open spec fn json_size(s: Option<u64>) -> Seq<char> {
    match s {
        None => "null"@,
        Some(n) => dec_str(n as nat),
    }
}

/// The JSON text of one node: an object with the fields `name`, `is_dir`,
/// `size` and `children`, in that order; `size` is `null` for directories
/// and for files whose size could not be read.
pub open spec fn json_of(t: NodeV) -> Seq<char>
    decreases t, 0nat,
{
    "{\"name\":\""@ + json_escape(t.name) + "\",\"is_dir\":"@ + json_bool(t.is_dir)
        + ",\"size\":"@ + json_size(t.size) + ",\"children\":["@ + json_children(t.children, 0)
        + "]}"@
}

pub open spec fn json_children(cs: Seq<NodeV>, i: int) -> Seq<char>
    decreases cs, (if 0 <= i <= cs.len() { cs.len() - i } else { 0 }),
{
    if i < 0 || i >= cs.len() {
        Seq::empty()
    } else if i == cs.len() - 1 {
        json_of(cs[i])
    } else {
        json_of(cs[i]) + seq![','] + json_children(cs, i + 1)
    }
}

fn hex_digit_exec(d: u32) -> (c: char)
    requires
        d < 16,
    ensures
        c == hex_digit(d as nat),
{
    if d < 10 {
        ((48 + d) as u8) as char
    } else {
        ((87 + d) as u8) as char
    }
}

fn escape_into(s: &str, out: &mut String)
    ensures
        final(out)@ == old(out)@ + json_escape(s@),
{
    let ghost base = out@;
    let n = s.unicode_len();
    let mut i: usize = 0;
    proof {
        assert(json_escape(s@.take(0)) =~= Seq::<char>::empty());
        assert(out@ =~= base + json_escape(s@.take(0)));
    }
    while i < n
        invariant
            i <= n,
            n == s@.len(),
            out@ == base + json_escape(s@.take(i as int)),
        decreases n - i,
    {
        let c = s.get_char(i);
        let u = c as u32;
        if c == '"' {
            out.push('\\');
            out.push('"');
        } else if c == '\\' {
            out.push('\\');
            out.push('\\');
        } else if u < 32 {
            out.push('\\');
            out.push('u');
            out.push('0');
            out.push('0');
            out.push(hex_digit_exec(u / 16));
            out.push(hex_digit_exec(u % 16));
        } else {
            out.push(c);
        }
        i = i + 1;
        proof {
            let tk1 = s@.take(i as int);
            assert(tk1.drop_last() =~= s@.take(i - 1));
            assert(tk1.last() == c);
            assert(out@ =~= base + json_escape(tk1));
        }
    }
    proof {
        assert(s@.take(n as int) =~= s@);
    }
}

fn json_into(t: &TreeNode, out: &mut String)
    ensures
        final(out)@ == old(out)@ + json_of(t@),
    decreases *t,
{
    let ghost base = out@;
    out.append("{\"name\":\"");
    escape_into(t.name.as_str(), out);
    out.append("\",\"is_dir\":");
    if t.is_dir {
        out.append("true");
    } else {
        out.append("false");
    }
    out.append(",\"size\":");
    match t.size {
        Some(sz) => {
            let d = u64_to_string(sz);
            out.append(d.as_str());
        },
        None => {
            out.append("null");
        },
    }
    out.append(",\"children\":[");
    let ghost mid = out@;
    let ghost csv = views_of(t.children@);
    let n = t.children.len();
    proof {
        crate::tree::lemma_views_of_len(t.children@);
    }
    let mut i: usize = 0;
    while i < n
        invariant
            i <= n,
            n == t.children@.len(),
            csv == views_of(t.children@),
            csv.len() == n,
            out@ + json_children(csv, i as int) =~= mid + json_children(csv, 0),
        decreases n - i,
    {
        let c = &t.children[i];
        proof {
            crate::tree::lemma_views_of_index(t.children@, i as int);
            assert(c@ == csv[i as int]);
            assert(decreases_to!(*t => t.children));
            assert(decreases_to!(t.children => t.children@));
            assert(decreases_to!(t.children@ => t.children@[i as int]));
            assert(decreases_to!(*t => *c));
        }
        let ghost preout = out@;
        json_into(c, out);
        if i + 1 < n {
            out.push(',');
            proof {
                assert(json_children(csv, i as int) == json_of(csv[i as int]) + seq![',']
                    + json_children(csv, i + 1));
                assert(out@ =~= preout + json_of(csv[i as int]) + seq![',']);
                assert(out@ + json_children(csv, i + 1) =~= mid + json_children(csv, 0));
            }
        } else {
            proof {
                assert(json_children(csv, i as int) == json_of(csv[i as int]));
                assert(json_children(csv, i + 1) =~= Seq::<char>::empty());
                assert(out@ + json_children(csv, i + 1) =~= mid + json_children(csv, 0));
            }
        }
        i = i + 1;
    }
    out.append("]}");
    proof {
        assert(json_children(csv, n as int) =~= Seq::<char>::empty());
        assert(out@ =~= base + json_of(t@));
    }
}

/// Serializes the tree as one self-contained JSON payload.
pub fn to_json(tree: &TreeNode) -> (r: String)
    ensures
        r@ == json_of(tree@),
{
    let mut s = String::new();
    json_into(tree, &mut s);
    proof {
        assert(s@ =~= json_of(tree@));
    }
    s
}

} // verus!
