use vstd::prelude::*;
use vstd::arithmetic::div_mod::{
    lemma_fundamental_div_mod, lemma_fundamental_div_mod_converse, lemma_mod_bound,
    lemma_mod_multiples_vanish,
};
use vstd::string::{StrSliceExecFns, StringExecFns};
use crate::names::icon_text;
use crate::text::{dec_str, u64_to_string};
use crate::tree::{views_of, NodeV, TreeNode};

verus! {

/// `whole.tenths`: `b / unit` rounded to one decimal place, to nearest
/// with ties to even.
pub open spec fn scaled_str(b: int, unit: int) -> Seq<char>
    recommends
        unit >= 2,
        b >= 0,
{
    let q = (10 * b) / unit;
    let r = (10 * b) % unit;
    let t = if 2 * r > unit || (2 * r == unit && q % 2 == 1) {
        q + 1
    } else {
        q
    };
    dec_str((t / 10) as nat) + seq!['.'] + dec_str((t % 10) as nat)
}

/// The human-readable size: bytes up to 1K, then one decimal place in
/// units of 1024 per step.
pub open spec fn format_size_spec(b: u64) -> Seq<char> {
    if b < 1024 {
        dec_str(b as nat) + seq!['B']
    } else if b < 1048576 {
        scaled_str(b as int, 1024) + seq!['K']
    } else if b < 1073741824 {
        scaled_str(b as int, 1048576) + seq!['M']
    } else {
        scaled_str(b as int, 1073741824) + seq!['G']
    }
}

fn scaled(b: u64, unit: u64) -> (r: String)
    requires
        unit == 1024 || unit == 1048576 || unit == 1073741824,
    ensures
        r@ == scaled_str(b as int, unit as int),
{
    let whole = b / unit;
    let rem = b % unit;
    let q0 = (rem * 10) / unit;
    let r0 = (rem * 10) % unit;
    let round_up = 2 * r0 > unit || (2 * r0 == unit && q0 % 2 == 1);
    let carry = round_up && q0 == 9;
    let w2 = if carry {
        whole + 1
    } else {
        whole
    };
    let tenths = if carry {
        0
    } else if round_up {
        q0 + 1
    } else {
        q0
    };
    proof {
        let bi = b as int;
        let u = unit as int;
        let w = bi / u;
        let rem_i = bi % u;
        lemma_fundamental_div_mod(bi, u);
        lemma_fundamental_div_mod(rem_i * 10, u);
        lemma_mod_bound(rem_i * 10, u);
        lemma_mod_bound(bi, u);
        assert(10 * bi == (10 * w + q0) * u + r0) by (nonlinear_arith)
            requires
                bi == u * w + rem_i,
                rem_i * 10 == u * (q0 as int) + r0,
        ;
        lemma_fundamental_div_mod_converse(10 * bi, u, 10 * w + q0, r0 as int);
        let q = (10 * bi) / u;
        let r = (10 * bi) % u;
        assert(q == 10 * w + q0);
        assert(r == r0);
        assert(q0 <= 9) by (nonlinear_arith)
            requires
                rem_i * 10 == u * (q0 as int) + r0,
                0 <= r0,
                rem_i < u,
                u > 0,
        ;
        assert(q % 2 == q0 as int % 2) by {
            lemma_mod_multiples_vanish(5 * w, q0 as int, 2);
            assert(2 * (5 * w) + q0 == q);
        }
        let t = if 2 * r > u || (2 * r == u && q % 2 == 1) {
            q + 1
        } else {
            q
        };
        assert(t == (w2 as int) * 10 + tenths as int);
        lemma_fundamental_div_mod_converse(t, 10, w2 as int, tenths as int);
        assert(t / 10 == w2 as int);
        assert(t % 10 == tenths as int);
    }
    let mut s = u64_to_string(w2);
    s.push('.');
    let frac = u64_to_string(tenths);
    s.append(frac.as_str());
    proof {
        assert(s@ =~= scaled_str(b as int, unit as int));
    }
    s
}

/// Formats a byte count the way the tree annotates file sizes.
pub fn format_size(bytes: u64) -> (r: String)
    ensures
        r@ == format_size_spec(bytes),
{
    if bytes < 1024 {
        let mut s = u64_to_string(bytes);
        s.push('B');
        proof {
            assert(s@ =~= dec_str(bytes as nat) + seq!['B']);
        }
        s
    } else if bytes < 1048576 {
        let mut s = scaled(bytes, 1024);
        s.push('K');
        proof {
            assert(s@ =~= scaled_str(bytes as int, 1024) + seq!['K']);
        }
        s
    } else if bytes < 1073741824 {
        let mut s = scaled(bytes, 1048576);
        s.push('M');
        proof {
            assert(s@ =~= scaled_str(bytes as int, 1048576) + seq!['M']);
        }
        s
    } else {
        let mut s = scaled(bytes, 1073741824);
        s.push('G');
        proof {
            assert(s@ =~= scaled_str(bytes as int, 1073741824) + seq!['G']);
        }
        s
    }
}

/// The connector drawn before a node's name.
pub open spec fn connector(is_last: bool) -> Seq<char> {
    if is_last {
        seq!['└', '─', '─', ' ']
    } else {
        seq!['├', '─', '─', ' ']
    }
}

/// What a node adds to the prefix of the lines below it.
pub open spec fn child_prefix(is_last: bool) -> Seq<char> {
    if is_last {
        seq![' ', ' ', ' ', ' ']
    } else {
        seq!['│', ' ', ' ', ' ']
    }
}

/// The size annotation after a file's name; directories and sizeless
/// files get none.
pub open spec fn size_suffix(size: Option<u64>) -> Seq<char> {
    match size {
        None => Seq::empty(),
        Some(n) => seq![' ', '('] + format_size_spec(n) + seq![')'],
    }
}

/// The lines for one node: its own line, then its children's lines.
pub open spec fn render_node(t: NodeV, prefix: Seq<char>, is_last: bool) -> Seq<Seq<char>>
    decreases t, 0nat,
{
    seq![prefix + connector(is_last) + t.name + size_suffix(t.size)] + render_from(
        t.children,
        prefix + child_prefix(is_last),
        0,
    )
}

/// The lines for the children from index `i` on; only the final child is
/// drawn as last.
pub open spec fn render_from(cs: Seq<NodeV>, prefix: Seq<char>, i: int) -> Seq<Seq<char>>
    decreases cs, (if 0 <= i <= cs.len() { cs.len() - i } else { 0 }),
{
    if i < 0 || i >= cs.len() {
        Seq::empty()
    } else {
        render_node(cs[i], prefix, i == cs.len() - 1) + render_from(cs, prefix, i + 1)
    }
}

/// The text rendering of a whole tree: the root's bare name, then each
/// level's entries in pre-order with connectors and size annotations.
pub open spec fn render_lines(t: NodeV) -> Seq<Seq<char>> {
    seq![t.name] + render_from(t.children, Seq::empty(), 0)
}

pub open spec fn str_views(s: Seq<String>) -> Seq<Seq<char>> {
    s.map_values(|x: String| x@)
}

proof fn lemma_str_views_push(s: Seq<String>, x: String)
    ensures
        str_views(s.push(x)) =~= str_views(s).push(x@),
{
    assert forall|i: int| 0 <= i < s.len() + 1 implies str_views(s.push(x))[i] == str_views(
        s,
    ).push(x@)[i] by {
        if i < s.len() {
            assert(s.push(x)[i] == s[i]);
        } else {
            assert(s.push(x)[i] == x);
        }
    }
}

fn render_node_into(t: &TreeNode, prefix: &str, is_last: bool, out: &mut Vec<String>)
    ensures
        str_views(final(out)@) == str_views(old(out)@) + render_node(t@, prefix@, is_last),
    decreases *t,
{
    let ghost base = str_views(out@);
    let mut line = String::from_str(prefix);
    if is_last {
        line.append("└── ");
    } else {
        line.append("├── ");
    }
    line.append(t.name.as_str());
    match t.size {
        Some(n) => {
            line.append(" (");
            let fs = format_size(n);
            line.append(fs.as_str());
            line.append(")");
        },
        None => {},
    }
    proof {
        reveal_strlit("└── ");
        reveal_strlit("├── ");
        reveal_strlit(" (");
        reveal_strlit(")");
        assert("└── "@ =~= seq!['└', '─', '─', ' ']);
        assert("├── "@ =~= seq!['├', '─', '─', ' ']);
        assert(" ("@ =~= seq![' ', '(']);
        assert(")"@ =~= seq![')']);
        assert(line@ =~= prefix@ + connector(is_last) + t@.name + size_suffix(t@.size));
    }
    let ghost prevec = out@;
    out.push(line);
    proof {
        lemma_str_views_push(prevec, line);
    }
    let mut pref2 = String::from_str(prefix);
    if is_last {
        pref2.append("    ");
    } else {
        pref2.append("│   ");
    }
    proof {
        reveal_strlit("    ");
        reveal_strlit("│   ");
        assert("    "@ =~= seq![' ', ' ', ' ', ' ']);
        assert("│   "@ =~= seq!['│', ' ', ' ', ' ']);
        assert(pref2@ == prefix@ + child_prefix(is_last));
    }
    render_list_into(&t.children, pref2.as_str(), out);
    proof {
        assert(str_views(out@) =~= base + render_node(t@, prefix@, is_last));
    }
}

fn render_list_into(children: &Vec<TreeNode>, prefix: &str, out: &mut Vec<String>)
    ensures
        str_views(final(out)@) == str_views(old(out)@) + render_from(
            views_of(children@),
            prefix@,
            0,
        ),
    decreases children,
{
    let ghost base = str_views(out@);
    let ghost csv = views_of(children@);
    let n = children.len();
    proof {
        crate::tree::lemma_views_of_len(children@);
    }
    let mut i: usize = 0;
    while i < n
        invariant
            i <= n,
            n == children@.len(),
            csv == views_of(children@),
            csv.len() == n,
            str_views(out@) + render_from(csv, prefix@, i as int) =~= base + render_from(
                csv,
                prefix@,
                0,
            ),
        decreases n - i,
    {
        let c = &children[i];
        proof {
            crate::tree::lemma_views_of_index(children@, i as int);
            assert(c@ == csv[i as int]);
            assert(decreases_to!(*children => children@));
            assert(decreases_to!(children@ => children@[i as int]));
            assert(decreases_to!(*children => *c));
        }
        let ghost preout = str_views(out@);
        render_node_into(c, prefix, i + 1 == n, out);
        proof {
            assert(render_from(csv, prefix@, i as int) == render_node(
                csv[i as int],
                prefix@,
                i as int == csv.len() - 1,
            ) + render_from(csv, prefix@, i + 1));
            assert(str_views(out@) + render_from(csv, prefix@, i + 1) =~= base + render_from(
                csv,
                prefix@,
                0,
            )) by {
                assert(str_views(out@) =~= preout + render_node(
                    csv[i as int],
                    prefix@,
                    i as int == csv.len() - 1,
                ));
            }
        }
        i = i + 1;
    }
    proof {
        assert(render_from(csv, prefix@, n as int) =~= Seq::<Seq<char>>::empty());
        assert(str_views(out@) =~= base + render_from(csv, prefix@, 0));
    }
}

/// The icon token before a node's name: directories get their marker,
/// files the token their extension earns.
pub open spec fn icon_of_node(t: NodeV) -> Seq<char> {
    if t.is_dir {
        seq!['[', 'D', 'I', 'R', ']', ' ']
    } else {
        icon_text(t.name, false)
    }
}

/// The decorated lines for one node: as `render_node`, with the icon
/// token between the connector and the name.
pub open spec fn render_node_icons(t: NodeV, prefix: Seq<char>, is_last: bool) -> Seq<Seq<char>>
    decreases t, 0nat,
{
    seq![prefix + connector(is_last) + icon_of_node(t) + t.name + size_suffix(t.size)]
        + render_from_icons(t.children, prefix + child_prefix(is_last), 0)
}

pub open spec fn render_from_icons(cs: Seq<NodeV>, prefix: Seq<char>, i: int) -> Seq<Seq<char>>
    decreases cs, (if 0 <= i <= cs.len() { cs.len() - i } else { 0 }),
{
    if i < 0 || i >= cs.len() {
        Seq::empty()
    } else {
        render_node_icons(cs[i], prefix, i == cs.len() - 1) + render_from_icons(cs, prefix, i + 1)
    }
}

/// The decorated text rendering: the root's bare name, then each entry in
/// pre-order with its connector, icon token, name and size annotation.
pub open spec fn render_lines_icons(t: NodeV) -> Seq<Seq<char>> {
    seq![t.name] + render_from_icons(t.children, Seq::empty(), 0)
}

fn render_node_icons_into(t: &TreeNode, prefix: &str, is_last: bool, out: &mut Vec<String>)
    ensures
        str_views(final(out)@) == str_views(old(out)@) + render_node_icons(t@, prefix@, is_last),
    decreases *t,
{
    let ghost base = str_views(out@);
    let mut line = String::from_str(prefix);
    if is_last {
        line.append("└── ");
    } else {
        line.append("├── ");
    }
    if t.is_dir {
        line.append("[DIR] ");
    } else {
        let icon = crate::names::get_icon_for_name(t.name.as_str());
        line.append(icon.as_str());
    }
    line.append(t.name.as_str());
    match t.size {
        Some(n) => {
            line.append(" (");
            let fs = format_size(n);
            line.append(fs.as_str());
            line.append(")");
        },
        None => {},
    }
    proof {
        reveal_strlit("└── ");
        reveal_strlit("├── ");
        reveal_strlit("[DIR] ");
        reveal_strlit(" (");
        reveal_strlit(")");
        assert("└── "@ =~= seq!['└', '─', '─', ' ']);
        assert("├── "@ =~= seq!['├', '─', '─', ' ']);
        assert("[DIR] "@ =~= seq!['[', 'D', 'I', 'R', ']', ' ']);
        assert(" ("@ =~= seq![' ', '(']);
        assert(")"@ =~= seq![')']);
        assert(line@ =~= prefix@ + connector(is_last) + icon_of_node(t@) + t@.name + size_suffix(
            t@.size,
        ));
    }
    let ghost prevec = out@;
    out.push(line);
    proof {
        lemma_str_views_push(prevec, line);
    }
    let mut pref2 = String::from_str(prefix);
    if is_last {
        pref2.append("    ");
    } else {
        pref2.append("│   ");
    }
    proof {
        reveal_strlit("    ");
        reveal_strlit("│   ");
        assert("    "@ =~= seq![' ', ' ', ' ', ' ']);
        assert("│   "@ =~= seq!['│', ' ', ' ', ' ']);
        assert(pref2@ == prefix@ + child_prefix(is_last));
    }
    render_list_icons_into(&t.children, pref2.as_str(), out);
    proof {
        assert(str_views(out@) =~= base + render_node_icons(t@, prefix@, is_last));
    }
}

fn render_list_icons_into(children: &Vec<TreeNode>, prefix: &str, out: &mut Vec<String>)
    ensures
        str_views(final(out)@) == str_views(old(out)@) + render_from_icons(
            views_of(children@),
            prefix@,
            0,
        ),
    decreases children,
{
    let ghost base = str_views(out@);
    let ghost csv = views_of(children@);
    let n = children.len();
    proof {
        crate::tree::lemma_views_of_len(children@);
    }
    let mut i: usize = 0;
    while i < n
        invariant
            i <= n,
            n == children@.len(),
            csv == views_of(children@),
            csv.len() == n,
            str_views(out@) + render_from_icons(csv, prefix@, i as int) =~= base
                + render_from_icons(csv, prefix@, 0),
        decreases n - i,
    {
        let c = &children[i];
        proof {
            crate::tree::lemma_views_of_index(children@, i as int);
            assert(c@ == csv[i as int]);
            assert(decreases_to!(*children => children@));
            assert(decreases_to!(children@ => children@[i as int]));
            assert(decreases_to!(*children => *c));
        }
        let ghost preout = str_views(out@);
        render_node_icons_into(c, prefix, i + 1 == n, out);
        proof {
            assert(render_from_icons(csv, prefix@, i as int) == render_node_icons(
                csv[i as int],
                prefix@,
                i as int == csv.len() - 1,
            ) + render_from_icons(csv, prefix@, i + 1));
            assert(str_views(out@) + render_from_icons(csv, prefix@, i + 1) =~= base
                + render_from_icons(csv, prefix@, 0)) by {
                assert(str_views(out@) =~= preout + render_node_icons(
                    csv[i as int],
                    prefix@,
                    i as int == csv.len() - 1,
                ));
            }
        }
        i = i + 1;
    }
    proof {
        assert(render_from_icons(csv, prefix@, n as int) =~= Seq::<Seq<char>>::empty());
        assert(str_views(out@) =~= base + render_from_icons(csv, prefix@, 0));
    }
}

/// Renders the tree as display lines with icon tokens: the root's name,
/// then the pre-order walk with connectors, icons and size annotations.
pub fn render_tree_with_icons(t: &TreeNode) -> (r: Vec<String>)
    ensures
        str_views(r@) == render_lines_icons(t@),
{
    let mut out: Vec<String> = Vec::new();
    out.push(t.name.clone());
    proof {
        lemma_str_views_push(Seq::empty(), t.name);
        assert(out@ =~= Seq::<String>::empty().push(t.name));
    }
    render_list_icons_into(&t.children, "", &mut out);
    proof {
        reveal_strlit("");
        assert(""@ =~= Seq::<char>::empty());
        assert(str_views(out@) =~= render_lines_icons(t@));
    }
    out
}

/// Renders the tree as display lines: the root's name, then the pre-order
/// walk with ASCII-art connectors and size annotations.
pub fn render_tree(t: &TreeNode) -> (r: Vec<String>)
    ensures
        str_views(r@) == render_lines(t@),
{
    let mut out: Vec<String> = Vec::new();
    let ghost empty = str_views(out@);
    out.push(t.name.clone());
    proof {
        lemma_str_views_push(Seq::empty(), t.name);
        assert(out@ =~= Seq::<String>::empty().push(t.name));
    }
    render_list_into(&t.children, "", &mut out);
    proof {
        reveal_strlit("");
        assert(""@ =~= Seq::<char>::empty());
        assert(str_views(out@) =~= render_lines(t@));
    }
    out
}

} // verus!
