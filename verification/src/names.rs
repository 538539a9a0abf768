use vstd::prelude::*;
use vstd::string::{StrSliceExecFns, StringExecFns};

verus! {

/// The index of the last `.` in the name, if any.
pub open spec fn last_dot_at(name: Seq<char>) -> Option<int>
    decreases name.len(),
{
    if name.len() == 0 {
        None
    } else if name.last() == '.' {
        Some(name.len() - 1)
    } else {
        last_dot_at(name.drop_last())
    }
}

/// The extension of a file name: what follows the final `.`, except that a
/// name with no dot, or one whose only dot leads it (a dotfile), has none.
pub open spec fn extension_of(name: Seq<char>) -> Option<Seq<char>> {
    match last_dot_at(name) {
        None => None,
        Some(i) => if i == 0 {
            None
        } else {
            Some(name.skip(i + 1))
        },
    }
}

proof fn lemma_last_dot_take(name: Seq<char>, i: int)
    requires
        0 <= i <= name.len(),
        forall|j: int| i <= j < name.len() ==> name[j] != '.',
    ensures
        last_dot_at(name) == last_dot_at(name.take(i)),
    decreases name.len() - i,
{
    if i < name.len() {
        lemma_last_dot_take(name, i + 1);
        let t = name.take(i + 1);
        assert(t.last() == name[i]);
        assert(t.drop_last() =~= name.take(i));
    } else {
        assert(name.take(i) =~= name);
    }
}

fn find_last_dot(name: &str) -> (r: Option<usize>)
    ensures
        match r {
            None => last_dot_at(name@) is None,
            Some(i) => 0 <= i < name@.len() && last_dot_at(name@) == Some(i as int),
        },
{
    let n = name.unicode_len();
    let mut i: usize = n;
    while i > 0
        invariant
            i <= n,
            n == name@.len(),
            forall|j: int| i <= j < n ==> name@[j] != '.',
        decreases i,
    {
        let c = name.get_char(i - 1);
        if c == '.' {
            proof {
                lemma_last_dot_take(name@, i as int);
                let t = name@.take(i as int);
                assert(t.last() == name@[i - 1]);
            }
            return Some(i - 1);
        }
        i = i - 1;
    }
    proof {
        lemma_last_dot_take(name@, 0);
        assert(name@.take(0) =~= Seq::<char>::empty());
    }
    None
}

/// The extension of the name, as `extension_of` has it.
pub fn extension(name: &str) -> (r: Option<String>)
    ensures
        match extension_of(name@) {
            None => r is None,
            Some(e) => r is Some && r->0@ == e,
        },
{
    match find_last_dot(name) {
        None => None,
        Some(i) => {
            if i == 0 {
                None
            } else {
                let n = name.unicode_len();
                let sub = name.substring_char(i + 1, n);
                proof {
                    assert(name@.subrange(i + 1, name@.len() as int) =~= name@.skip(i + 1));
                }
                Some(String::from_str(sub))
            }
        },
    }
}

/// ASCII uppercase letters mapped to lowercase; all else unchanged.
pub open spec fn lower_ascii(c: char) -> char {
    if 65 <= c as u32 && c as u32 <= 90 {
        (((c as u32) + 32) as u8) as char
    } else {
        c
    }
}

pub open spec fn lower_seq(s: Seq<char>) -> Seq<char> {
    s.map_values(|c: char| lower_ascii(c))
}

fn lower_ascii_exec(c: char) -> (r: char)
    ensures
        r == lower_ascii(c),
{
    let u = c as u32;
    if 65 <= u && u <= 90 {
        ((u + 32) as u8) as char
    } else {
        c
    }
}

/// The ASCII-lowercased copy of a string.
pub fn lower_string(s: &str) -> (r: String)
    ensures
        r@ == lower_seq(s@),
{
    let n = s.unicode_len();
    let mut out = String::new();
    let mut i: usize = 0;
    proof {
        assert(out@ =~= lower_seq(s@.take(0)));
    }
    while i < n
        invariant
            i <= n,
            n == s@.len(),
            out@ == lower_seq(s@.take(i as int)),
        decreases n - i,
    {
        let c = s.get_char(i);
        out.push(lower_ascii_exec(c));
        i = i + 1;
        proof {
            assert(out@ =~= lower_seq(s@.take(i as int)));
        }
    }
    proof {
        assert(s@.take(i as int) =~= s@);
    }
    out
}

/// Codepoint equality of two strings.
pub fn str_eq(a: &str, b: &str) -> (r: bool)
    ensures
        r == (a@ == b@),
{
    let alen = a.unicode_len();
    let blen = b.unicode_len();
    if alen != blen {
        return false;
    }
    let mut i: usize = 0;
    while i < alen
        invariant
            i <= alen,
            alen == a@.len(),
            alen == b@.len(),
            forall|j: int| 0 <= j < i ==> a@[j] == b@[j],
        decreases alen - i,
    {
        if a.get_char(i) != b.get_char(i) {
            return false;
        }
        i = i + 1;
    }
    proof {
        assert(a@ =~= b@);
    }
    true
}

/// The icon token for a file name, from its lowercased extension. The
/// browser's flavor (`with_sh`) also treats `sh` as executable.
pub open spec fn icon_text(name: Seq<char>, with_sh: bool) -> Seq<char> {
    match extension_of(name) {
        None => seq!['[', 'F', 'I', 'L', 'E', ']', ' '],
        Some(e0) => {
            let e = lower_seq(e0);
            if e == seq!['p', 'y'] || e == seq!['r', 's'] || e == seq!['j', 's'] || e == seq![
                't',
                's',
            ] || e == seq!['h', 't', 'm', 'l'] || e == seq!['c', 's', 's'] || e == seq![
                'm',
                'd',
            ] || e == seq!['t', 'x', 't'] {
                seq!['[', '.'] + e + seq![']', ' ']
            } else if e == seq!['e', 'x', 'e'] || e == seq!['b', 'a', 't'] || e == seq![
                'c',
                'm',
                'd',
            ] || (with_sh && e == seq!['s', 'h']) {
                seq!['[', 'E', 'X', 'E', 'C', ']', ' ']
            } else {
                seq!['['] + e + seq![']', ' ']
            }
        },
    }
}

fn icon_from_ext(name: &str, with_sh: bool) -> (r: String)
    ensures
        r@ == icon_text(name@, with_sh),
{
    proof {
        reveal_strlit("[FILE] ");
        reveal_strlit("[EXEC] ");
        reveal_strlit("[.");
        reveal_strlit("[");
        reveal_strlit("] ");
        reveal_strlit("py");
        reveal_strlit("rs");
        reveal_strlit("js");
        reveal_strlit("ts");
        reveal_strlit("html");
        reveal_strlit("css");
        reveal_strlit("md");
        reveal_strlit("txt");
        reveal_strlit("exe");
        reveal_strlit("bat");
        reveal_strlit("cmd");
        reveal_strlit("sh");
        assert("[FILE] "@ =~= seq!['[', 'F', 'I', 'L', 'E', ']', ' ']);
        assert("[EXEC] "@ =~= seq!['[', 'E', 'X', 'E', 'C', ']', ' ']);
        assert("[."@ =~= seq!['[', '.']);
        assert("["@ =~= seq!['[']);
        assert("] "@ =~= seq![']', ' ']);
        assert("py"@ =~= seq!['p', 'y']);
        assert("rs"@ =~= seq!['r', 's']);
        assert("js"@ =~= seq!['j', 's']);
        assert("ts"@ =~= seq!['t', 's']);
        assert("html"@ =~= seq!['h', 't', 'm', 'l']);
        assert("css"@ =~= seq!['c', 's', 's']);
        assert("md"@ =~= seq!['m', 'd']);
        assert("txt"@ =~= seq!['t', 'x', 't']);
        assert("exe"@ =~= seq!['e', 'x', 'e']);
        assert("bat"@ =~= seq!['b', 'a', 't']);
        assert("cmd"@ =~= seq!['c', 'm', 'd']);
        assert("sh"@ =~= seq!['s', 'h']);
    }
    match extension(name) {
        None => String::from_str("[FILE] "),
        Some(e0) => {
            let e = lower_string(e0.as_str());
            let known = str_eq(e.as_str(), "py") || str_eq(e.as_str(), "rs") || str_eq(
                e.as_str(),
                "js",
            ) || str_eq(e.as_str(), "ts") || str_eq(e.as_str(), "html") || str_eq(
                e.as_str(),
                "css",
            ) || str_eq(e.as_str(), "md") || str_eq(e.as_str(), "txt");
            if known {
                let mut s = String::from_str("[.");
                s.append(e.as_str());
                s.append("] ");
                s
            } else {
                let execish = str_eq(e.as_str(), "exe") || str_eq(e.as_str(), "bat") || str_eq(
                    e.as_str(),
                    "cmd",
                ) || (with_sh && str_eq(e.as_str(), "sh"));
                if execish {
                    String::from_str("[EXEC] ")
                } else {
                    let mut s = String::from_str("[");
                    s.append(e.as_str());
                    s.append("] ");
                    s
                }
            }
        },
    }
}

/// The icon token shown before a file's name in the batch renderer.
pub fn get_icon_for_name(name: &str) -> (r: String)
    ensures
        r@ == icon_text(name@, false),
{
    icon_from_ext(name, false)
}

/// The icon token for one entry of the interactive browser's listing:
/// directories and large files get their own markers.
pub open spec fn icon_entry_text(name: Seq<char>, is_dir: bool, size: Option<u64>) -> Seq<char> {
    if is_dir {
        seq!['[', 'D', 'I', 'R', ']', ' ']
    } else if size is Some && size.unwrap() > 1048576 {
        seq!['[', 'B', 'I', 'G', ']', ' ']
    } else {
        icon_text(name, true)
    }
}

pub fn get_icon_for_entry(name: &str, is_dir: bool, size: Option<u64>) -> (r: String)
    ensures
        r@ == icon_entry_text(name@, is_dir, size),
{
    proof {
        reveal_strlit("[DIR] ");
        reveal_strlit("[BIG] ");
        assert("[DIR] "@ =~= seq!['[', 'D', 'I', 'R', ']', ' ']);
        assert("[BIG] "@ =~= seq!['[', 'B', 'I', 'G', ']', ' ']);
    }
    if is_dir {
        return String::from_str("[DIR] ");
    }
    let big = match size {
        Some(n) => n > 1048576,
        None => false,
    };
    if big {
        return String::from_str("[BIG] ");
    }
    icon_from_ext(name, true)
}

/// Whether the name's lowercased extension marks it executable.
pub open spec fn is_executable_name(name: Seq<char>) -> bool {
    match extension_of(name) {
        None => false,
        Some(e0) => {
            let e = lower_seq(e0);
            e == seq!['e', 'x', 'e'] || e == seq!['b', 'a', 't'] || e == seq!['c', 'm', 'd'] || e
                == seq!['c', 'o', 'm']
        },
    }
}

/// Whether a file counts as executable, judged by its name's extension.
pub fn is_executable(name: &str) -> (r: bool)
    ensures
        r == is_executable_name(name@),
{
    proof {
        reveal_strlit("exe");
        reveal_strlit("bat");
        reveal_strlit("cmd");
        reveal_strlit("com");
        assert("exe"@ =~= seq!['e', 'x', 'e']);
        assert("bat"@ =~= seq!['b', 'a', 't']);
        assert("cmd"@ =~= seq!['c', 'm', 'd']);
        assert("com"@ =~= seq!['c', 'o', 'm']);
    }
    match extension(name) {
        None => false,
        Some(e0) => {
            let e = lower_string(e0.as_str());
            str_eq(e.as_str(), "exe") || str_eq(e.as_str(), "bat") || str_eq(e.as_str(), "cmd")
                || str_eq(e.as_str(), "com")
        },
    }
}

} // verus!
