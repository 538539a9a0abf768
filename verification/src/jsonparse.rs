use vstd::prelude::*;
use vstd::arithmetic::div_mod::lemma_fundamental_div_mod_converse;
use vstd::string::StrSliceExecFns;
use crate::json::{esc_char, hex_digit, json_bool, json_escape, json_of, json_size};
use crate::text::{
    dec_str, is_digit_char, lemma_dec_str_digits, lemma_dec_str_injective, lemma_dec_str_leading,
    lemma_dec_str_prefix_bound,
};
use crate::tree::{node_view, views_of, NodeV, TreeNode};

verus! {

proof fn lemma_subrange_join(s: Seq<char>, a: int, b: int, c: int)
    requires
        0 <= a <= b <= c <= s.len(),
    ensures
        s.subrange(a, c) =~= s.subrange(a, b) + s.subrange(b, c),
{
}

/// Consumes `lit` at `pos`, if it stands there letter for letter; it
/// succeeds whenever the literal does stand there.
fn expect(s: &str, pos: usize, lit: &str) -> (r: Option<usize>)
    requires
        pos <= s@.len(),
    ensures
        match r {
            Some(p2) => pos + lit@.len() == p2 && p2 <= s@.len() && s@.subrange(
                pos as int,
                p2 as int,
            ) == lit@,
            None => true,
        },
        (pos + lit@.len() <= s@.len() && s@.subrange(pos as int, pos + lit@.len()) == lit@)
            ==> r is Some,
{
    let n = lit.unicode_len();
    let slen = s.unicode_len();
    if n > slen - pos || pos > slen {
        return None;
    }
    let mut i: usize = 0;
    while i < n
        invariant
            i <= n,
            n == lit@.len(),
            slen == s@.len(),
            pos + n <= slen,
            forall|j: int| 0 <= j < i ==> s@[pos + j] == lit@[j],
        decreases n - i,
    {
        if s.get_char(pos + i) != lit.get_char(i) {
            proof {
                assert(s@.subrange(pos as int, pos + n) != lit@) by {
                    assert(s@[pos + i] != lit@[i as int]);
                    assert(s@.subrange(pos as int, pos + n)[i as int] == s@[pos + i]);
                }
            }
            return None;
        }
        i = i + 1;
    }
    proof {
        assert(s@.subrange(pos as int, (pos + n) as int) =~= lit@);
    }
    Some(pos + n)
}

/// The value of one lowercase hexadecimal digit character.
fn hex_val(c: char) -> (r: Option<u32>)
    ensures
        match r {
            Some(v) => v < 16 && hex_digit(v as nat) == c,
            None => forall|v: nat| v < 16 ==> hex_digit(v) != c,
        },
{
    let u = c as u32;
    if 48 <= u && u <= 57 {
        Some(u - 48)
    } else if 97 <= u && u <= 102 {
        Some(u - 87)
    } else {
        None
    }
}

pub proof fn lemma_json_escape_append(a: Seq<char>, b: Seq<char>)
    ensures
        json_escape(a + b) =~= json_escape(a) + json_escape(b),
    decreases b.len(),
{
    if b.len() == 0 {
        assert(a + b =~= a);
        assert(json_escape(b) =~= Seq::<char>::empty());
    } else {
        assert((a + b).drop_last() =~= a + b.drop_last());
        assert((a + b).last() == b.last());
        lemma_json_escape_append(a, b.drop_last());
        assert(json_escape(b) == json_escape(b.drop_last()) + esc_char(b.last()));
        assert(json_escape(a + b) =~= json_escape(a) + json_escape(b));
    }
}

/// The escape stream starts with the first character's own block.
pub proof fn lemma_json_escape_front(w: Seq<char>)
    requires
        w.len() > 0,
    ensures
        json_escape(w) =~= esc_char(w[0]) + json_escape(w.skip(1)),
        json_escape(w).len() >= 1,
{
    assert(w =~= seq![w[0]] + w.skip(1));
    lemma_json_escape_append(seq![w[0]], w.skip(1));
    assert(seq![w[0]].drop_last() =~= Seq::<char>::empty());
    assert(json_escape(Seq::<char>::empty()) =~= Seq::<char>::empty());
    assert(seq![w[0]].last() == w[0]);
    assert(json_escape(seq![w[0]]) =~= esc_char(w[0]));
    assert(esc_char(w[0]).len() >= 1);
}

proof fn lemma_hex_inj(x: nat, y: nat)
    requires
        x < 16,
        y < 16,
        hex_digit(x) == hex_digit(y),
    ensures
        x == y,
{
    if x < 10 {
        assert(hex_digit(x) as u32 == 48 + x);
    } else {
        assert(hex_digit(x) as u32 == 87 + x);
    }
    if y < 10 {
        assert(hex_digit(y) as u32 == 48 + y);
    } else {
        assert(hex_digit(y) as u32 == 87 + y);
    }
}

/// Two escape streams that lay down the same text begin with the same
/// character.
proof fn lemma_esc_head(a: char, b: char, sa: Seq<char>, sb: Seq<char>)
    requires
        esc_char(a) + sa == esc_char(b) + sb,
    ensures
        a == b,
        sa =~= sb,
{
    let ta = esc_char(a);
    let tb = esc_char(b);
    let t = ta + sa;
    assert(t[0] == ta[0]);
    assert(t[0] == tb[0]);
    let a_esc = a == '"' || a == '\\' || (a as u32) < 32;
    let b_esc = b == '"' || b == '\\' || (b as u32) < 32;
    if !a_esc && !b_esc {
        assert(ta[0] == a && tb[0] == b);
    } else if a_esc && !b_esc {
        assert(ta[0] == '\\');
        assert(tb[0] == b);
        assert(b == '\\');
        assert(false);
    } else if !a_esc && b_esc {
        assert(tb[0] == '\\');
        assert(ta[0] == a);
        assert(a == '\\');
        assert(false);
    } else {
        assert(ta[0] == '\\' && tb[0] == '\\');
        assert(ta.len() >= 2 && tb.len() >= 2);
        assert(t[1] == ta[1]);
        assert(t[1] == tb[1]);
        if a == '"' {
            assert(ta[1] == '"');
            assert(b == '"') by {
                if b == '\\' {
                    assert(tb[1] == '\\');
                } else if b != '"' {
                    assert(tb[1] == 'u');
                }
            }
        } else if a == '\\' {
            assert(ta[1] == '\\');
            assert(b == '\\') by {
                if b == '"' {
                    assert(tb[1] == '"');
                } else if b != '\\' {
                    assert(tb[1] == 'u');
                }
            }
        } else {
            assert(ta[1] == 'u');
            assert(b != '"' && b != '\\') by {
                if b == '"' {
                    assert(tb[1] == '"');
                } else if b == '\\' {
                    assert(tb[1] == '\\');
                }
            }
            assert((b as u32) < 32);
            assert(ta.len() == 6 && tb.len() == 6);
            assert(t[4] == ta[4] && t[4] == tb[4]);
            assert(t[5] == ta[5] && t[5] == tb[5]);
            lemma_hex_inj(((a as u32) / 16) as nat, ((b as u32) / 16) as nat);
            lemma_hex_inj(((a as u32) % 16) as nat, ((b as u32) % 16) as nat);
            vstd::arithmetic::div_mod::lemma_fundamental_div_mod(a as u32 as int, 16);
            vstd::arithmetic::div_mod::lemma_fundamental_div_mod(b as u32 as int, 16);
            assert(a as u32 == b as u32);
            assert(a == b);
        }
    }
    assert(ta.len() == tb.len());
    assert forall|k: int| 0 <= k < sa.len() implies sa[k] == sb[k] by {
        assert(t[ta.len() + k] == sa[k]);
        assert(t[ta.len() + k] == sb[k]);
    }
}

/// Aligning one escape stream along a longer one aligns the characters
/// behind them, block by block.
proof fn lemma_escape_align(u: Seq<char>, w: Seq<char>)
    requires
        json_escape(u).len() <= json_escape(w).len(),
        json_escape(u) == json_escape(w).take(json_escape(u).len() as int),
    ensures
        u.len() <= w.len(),
        u =~= w.take(u.len() as int),
        json_escape(w).skip(json_escape(u).len() as int) =~= json_escape(w.skip(u.len() as int)),
        u.len() == w.len() ==> u =~= w,
    decreases u.len(),
{
    if u.len() == 0 {
        assert(json_escape(u) =~= Seq::<char>::empty());
        assert(u =~= w.take(0));
        assert(w.skip(0) =~= w);
        assert(json_escape(w).skip(0) =~= json_escape(w));
    } else {
        lemma_json_escape_front(u);
        if w.len() == 0 {
            assert(json_escape(w) =~= Seq::<char>::empty());
            assert(esc_char(u[0]).len() >= 1);
            assert(json_escape(u).len() >= 1);
            assert(false);
        }
        lemma_json_escape_front(w);
        let eu = json_escape(u);
        let ew = json_escape(w);
        let rest = ew.skip(eu.len() as int);
        assert(ew =~= eu + rest);
        assert(esc_char(u[0]) + (json_escape(u.skip(1)) + rest) =~= esc_char(w[0])
            + json_escape(w.skip(1)));
        lemma_esc_head(u[0], w[0], json_escape(u.skip(1)) + rest, json_escape(w.skip(1)));
        assert(json_escape(u.skip(1)) + rest =~= json_escape(w.skip(1)));
        assert(json_escape(u.skip(1)).len() <= json_escape(w.skip(1)).len());
        assert(json_escape(u.skip(1)) =~= json_escape(w.skip(1)).take(
            json_escape(u.skip(1)).len() as int,
        )) by {
            assert(forall|k: int|
                0 <= k < json_escape(u.skip(1)).len() ==> json_escape(w.skip(1))[k] == (
                json_escape(u.skip(1)) + rest)[k]);
        }
        lemma_escape_align(u.skip(1), w.skip(1));
        assert(u.len() <= w.len());
        assert(u =~= w.take(u.len() as int)) by {
            assert(u[0] == w[0]);
            assert forall|k: int| 1 <= k < u.len() implies u[k] == w[k] by {
                assert(u[k] == u.skip(1)[k - 1]);
                assert(u.skip(1)[k - 1] == w.skip(1).take(u.len() - 1)[k - 1]);
                assert(w.skip(1).take(u.len() - 1)[k - 1] == w.skip(1)[k - 1]);
                assert(w.skip(1)[k - 1] == w[k]);
            }
        }
        assert(json_escape(w).skip(eu.len() as int) =~= json_escape(w.skip(u.len() as int))) by {
            assert(rest =~= json_escape(w.skip(1)).skip(json_escape(u.skip(1)).len() as int)) by {
                assert(forall|k: int|
                    0 <= k < rest.len() ==> rest[k] == (json_escape(u.skip(1)) + rest)[
                    json_escape(u.skip(1)).len() + k]);
            }
            assert(w.skip(u.len() as int) =~= w.skip(1).skip(u.len() - 1));
        }
    }
}

/// Where the escape of `w`, closed by a quote, stands at `pos`.
pub open spec fn str_at(s: Seq<char>, pos: int, w: Seq<char>) -> bool {
    &&& 0 <= pos
    &&& pos + json_escape(w).len() < s.len()
    &&& s.subrange(pos, pos + json_escape(w).len()) == json_escape(w)
    &&& s[pos + json_escape(w).len()] == '"'
}

/// What a partial scan can look like against a quoted escape laid down at
/// `pos`: it either ended exactly at the quote or sits at the start of a
/// whole block.
proof fn lemma_escape_scan(s: Seq<char>, pos: int, i: int, out: Seq<char>, w: Seq<char>)
    requires
        0 <= pos <= i <= s.len(),
        s.subrange(pos, i) == json_escape(out),
        str_at(s, pos, w),
    ensures
        out.len() <= w.len(),
        out =~= w.take(out.len() as int),
        i == pos + json_escape(out).len(),
        out.len() == w.len() ==> (out =~= w && i == pos + json_escape(w).len()),
        out.len() < w.len() ==> {
            let c0 = w[out.len() as int];
            &&& i + esc_char(c0).len() <= pos + json_escape(w).len()
            &&& forall|k: int| 0 <= k < esc_char(c0).len() ==> s[i + k] == esc_char(c0)[k]
        },
{
    let eo = json_escape(out);
    let ew = json_escape(w);
    assert(i == pos + eo.len());
    if eo.len() > ew.len() {
        assert(ew =~= eo.take(ew.len() as int)) by {
            assert(forall|k: int|
                0 <= k < ew.len() ==> s.subrange(pos, pos + ew.len())[k] == s.subrange(pos, i)[k]);
        }
        lemma_escape_align(w, out);
        assert(eo.skip(ew.len() as int) =~= json_escape(out.skip(w.len() as int)));
        assert(out.skip(w.len() as int).len() > 0) by {
            if out.skip(w.len() as int).len() == 0 {
                assert(json_escape(out.skip(w.len() as int)) =~= Seq::<char>::empty());
            }
        }
        let o2 = out.skip(w.len() as int);
        lemma_json_escape_front(o2);
        assert(json_escape(o2)[0] == esc_char(o2[0])[0]);
        assert(esc_char(o2[0])[0] != '"') by {
            if o2[0] != '"' && o2[0] != '\\' && (o2[0] as u32) >= 32 {
                assert(esc_char(o2[0])[0] == o2[0]);
                if o2[0] == '"' {
                    assert(false);
                }
            } else {
                assert(esc_char(o2[0])[0] == '\\');
            }
        }
        assert(eo[ew.len() as int] == s[pos + ew.len()]) by {
            assert(s.subrange(pos, i)[ew.len() as int] == s[pos + ew.len()]);
        }
        assert(eo.skip(ew.len() as int)[0] == eo[ew.len() as int]);
        assert(s[pos + ew.len()] == '"');
        assert(false);
    }
    assert(ew.take(eo.len() as int) =~= eo) by {
        assert(forall|k: int|
            0 <= k < eo.len() ==> s.subrange(pos, pos + ew.len())[k] == s.subrange(pos, i)[k]);
    }
    lemma_escape_align(out, w);
    if out.len() < w.len() {
        let c0 = w[out.len() as int];
        let w2 = w.skip(out.len() as int);
        assert(w2.len() > 0);
        assert(w2[0] == c0);
        lemma_json_escape_front(w2);
        assert(ew.skip(eo.len() as int) =~= json_escape(w2));
        assert(esc_char(c0).len() <= json_escape(w2).len());
        assert(i + esc_char(c0).len() <= pos + ew.len());
        assert forall|k: int| 0 <= k < esc_char(c0).len() implies s[i + k] == esc_char(c0)[k] by {
            assert(json_escape(w2)[k] == esc_char(c0)[k]);
            assert(ew.skip(eo.len() as int)[k] == ew[eo.len() + k]);
            assert(s.subrange(pos, pos + ew.len())[eo.len() + k] == s[pos + eo.len() + k]);
        }
    } else {
        assert(out.len() == w.len());
    }
}

/// With a quoted escape stream at `pos` and a backslash under the scan,
/// a whole escaped block stands at the scan position.
proof fn lemma_bs_block(s: Seq<char>, pos: int, i: int, out: Seq<char>, w: Seq<char>)
    requires
        0 <= pos <= i <= s.len(),
        s.subrange(pos, i) == json_escape(out),
        str_at(s, pos, w),
        i < s.len(),
        s[i] == '\\',
    ensures
        out.len() < w.len(),
        ({
            let c0 = w[out.len() as int];
            &&& (c0 == '"' || c0 == '\\' || (c0 as u32) < 32)
            &&& 2 <= esc_char(c0).len()
            &&& i + esc_char(c0).len() <= pos + json_escape(w).len()
            &&& pos + json_escape(w).len() < s.len()
            &&& forall|k: int| 0 <= k < esc_char(c0).len() ==> s[i + k] == esc_char(c0)[k]
        }),
{
    lemma_escape_scan(s, pos, i, out, w);
    if out.len() == w.len() {
        assert(s[i] == '"');
        assert(false);
    }
    let c0 = w[out.len() as int];
    assert(esc_char(c0)[0] == s[i]);
    if c0 != '"' && c0 != '\\' && (c0 as u32) >= 32 {
        assert(esc_char(c0)[0] == c0);
        assert(c0 == '\\');
        assert(false);
    }
}

/// Reads string contents up to (not including) the closing quote,
/// undoing exactly the escapes the serializer writes. It succeeds, with
/// that very text, whenever a quoted escape stream stands at `pos`.
fn parse_string(s: &str, pos: usize) -> (r: Option<(String, usize)>)
    requires
        pos <= s@.len(),
    ensures
        match r {
            Some(tp) => pos <= tp.1 <= s@.len() && s@.subrange(pos as int, tp.1 as int)
                == json_escape(tp.0@),
            None => true,
        },
        forall|w: Seq<char>| #[trigger]
            str_at(s@, pos as int, w) ==> r is Some && r.unwrap().0@ == w && r.unwrap().1 == pos
                + json_escape(w).len(),
{
    let slen = s.unicode_len();
    let mut out = String::new();
    let mut i: usize = pos;
    proof {
        assert(s@.subrange(pos as int, pos as int) =~= json_escape(out@));
    }
    loop
        invariant
            pos <= i <= slen,
            slen == s@.len(),
            s@.subrange(pos as int, i as int) == json_escape(out@),
        decreases slen - i,
    {
        if i >= slen {
            proof {
                assert forall|w: Seq<char>| str_at(s@, pos as int, w) implies false by {
                    lemma_escape_scan(s@, pos as int, i as int, out@, w);
                    if out@.len() < w.len() {
                        let c0 = w[out@.len() as int];
                        assert(esc_char(c0).len() >= 1);
                    }
                }
            }
            return None;
        }
        let c = s.get_char(i);
        if c == '"' {
            proof {
                assert forall|w: Seq<char>| #[trigger]
                    str_at(s@, pos as int, w) implies out@ == w && i == pos + json_escape(
                    w,
                ).len() by {
                    lemma_escape_scan(s@, pos as int, i as int, out@, w);
                    if out@.len() < w.len() {
                        let c0 = w[out@.len() as int];
                        assert(esc_char(c0)[0] == s@[i as int]);
                        if c0 != '"' && c0 != '\\' && (c0 as u32) >= 32 {
                            assert(esc_char(c0)[0] == c0);
                        } else {
                            assert(esc_char(c0)[0] == '\\');
                        }
                        assert(false);
                    }
                }
            }
            return Some((out, i));
        }
        let ghost preout = out@;
        let ghost prei = i as int;
        proof {
            assert forall|w: Seq<char>| #[trigger]
                str_at(s@, pos as int, w) implies out@.len() < w.len() && esc_char(
                w[out@.len() as int],
            )[0] == s@[i as int] by {
                lemma_escape_scan(s@, pos as int, i as int, out@, w);
                if out@.len() == w.len() {
                    assert(s@[i as int] == '"');
                    assert(false);
                }
                assert(esc_char(w[out@.len() as int])[0] == s@[i as int]);
            }
        }
        if c == '\\' {
            if i + 1 >= slen {
                proof {
                    assert forall|w: Seq<char>| str_at(s@, pos as int, w) implies false by {
                        lemma_escape_scan(s@, pos as int, i as int, out@, w);
                        let c0 = w[out@.len() as int];
                        assert(esc_char(c0)[0] == '\\');
                        if c0 != '"' && c0 != '\\' && (c0 as u32) >= 32 {
                            assert(esc_char(c0)[0] == c0);
                        }
                        assert(esc_char(c0).len() >= 2);
                        assert(i + 2 <= pos + json_escape(w).len());
                    }
                }
                return None;
            }
            let d = s.get_char(i + 1);
            if d == '"' {
                out.push('"');
                i = i + 2;
            } else if d == '\\' {
                out.push('\\');
                i = i + 2;
            } else if d == 'u' {
                proof {
                    assert forall|w: Seq<char>| #[trigger]
                        str_at(s@, pos as int, w) implies ({
                        let c0 = w[out@.len() as int];
                        &&& out@.len() < w.len()
                        &&& (c0 as u32) < 32
                        &&& esc_char(c0).len() == 6
                        &&& i + 6 < slen
                        &&& forall|k: int| 0 <= k < 6 ==> s@[i + k] == esc_char(c0)[k]
                    }) by {
                        lemma_bs_block(s@, pos as int, i as int, out@, w);
                        let c0 = w[out@.len() as int];
                        if c0 == '"' {
                            assert(esc_char(c0)[1] == '"');
                        } else if c0 == '\\' {
                            assert(esc_char(c0)[1] == '\\');
                        }
                        assert((c0 as u32) < 32);
                    }
                }
                if slen - i < 6 {
                    proof {
                        assert forall|w: Seq<char>| str_at(s@, pos as int, w) implies false by {
                            assert(str_at(s@, pos as int, w));
                        }
                    }
                    return None;
                }
                if s.get_char(i + 2) != '0' || s.get_char(i + 3) != '0' {
                    proof {
                        assert forall|w: Seq<char>| str_at(s@, pos as int, w) implies false by {
                            let c0 = w[out@.len() as int];
                            assert(s@[i + 2] == esc_char(c0)[2]);
                            assert(s@[i + 3] == esc_char(c0)[3]);
                        }
                    }
                    return None;
                }
                let h1 = match hex_val(s.get_char(i + 4)) {
                    Some(v) => v,
                    None => {
                        proof {
                            assert forall|w: Seq<char>| str_at(s@, pos as int, w) implies false by {
                                let c0 = w[out@.len() as int];
                                assert(s@[i + 4] == esc_char(c0)[4]);
                                assert(esc_char(c0)[4] == hex_digit(((c0 as u32) / 16) as nat));
                                assert((((c0 as u32) / 16) as nat) < 16);
                            }
                        }
                        return None;
                    },
                };
                let h2 = match hex_val(s.get_char(i + 5)) {
                    Some(v) => v,
                    None => {
                        proof {
                            assert forall|w: Seq<char>| str_at(s@, pos as int, w) implies false by {
                                let c0 = w[out@.len() as int];
                                assert(s@[i + 5] == esc_char(c0)[5]);
                                assert(esc_char(c0)[5] == hex_digit(((c0 as u32) % 16) as nat));
                                assert((((c0 as u32) % 16) as nat) < 16);
                            }
                        }
                        return None;
                    },
                };
                let code = h1 * 16 + h2;
                if code >= 32 {
                    proof {
                        assert forall|w: Seq<char>| str_at(s@, pos as int, w) implies false by {
                            let c0 = w[out@.len() as int];
                            assert(s@[i + 4] == esc_char(c0)[4]);
                            assert(s@[i + 5] == esc_char(c0)[5]);
                            lemma_hex_inj(h1 as nat, ((c0 as u32) / 16) as nat);
                            lemma_hex_inj(h2 as nat, ((c0 as u32) % 16) as nat);
                            vstd::arithmetic::div_mod::lemma_fundamental_div_mod(
                                c0 as u32 as int,
                                16,
                            );
                            assert(code == c0 as u32);
                        }
                    }
                    return None;
                }
                let ch = (code as u8) as char;
                out.push(ch);
                i = i + 6;
                proof {
                    lemma_fundamental_div_mod_converse(code as int, 16, h1 as int, h2 as int);
                    assert(esc_char(ch) == seq!['\\', 'u', '0', '0', hex_digit(h1 as nat),
                        hex_digit(h2 as nat)]);
                }
            } else {
                proof {
                    assert forall|w: Seq<char>| str_at(s@, pos as int, w) implies false by {
                        lemma_bs_block(s@, pos as int, i as int, out@, w);
                        let c0 = w[out@.len() as int];
                        assert(s@[i + 1] == esc_char(c0)[1]);
                        if c0 == '"' {
                            assert(esc_char(c0)[1] == '"');
                        } else if c0 == '\\' {
                            assert(esc_char(c0)[1] == '\\');
                        } else {
                            assert(esc_char(c0)[1] == 'u');
                        }
                    }
                }
                return None;
            }
        } else {
            let u = c as u32;
            if u < 32 {
                proof {
                    assert forall|w: Seq<char>| str_at(s@, pos as int, w) implies false by {
                        let c0 = w[out@.len() as int];
                        assert(esc_char(c0)[0] == s@[i as int]);
                        if c0 != '"' && c0 != '\\' && (c0 as u32) >= 32 {
                            assert(esc_char(c0)[0] == c0);
                        } else {
                            assert(esc_char(c0)[0] == '\\');
                        }
                    }
                }
                return None;
            }
            out.push(c);
            i = i + 1;
        }
        proof {
            assert(out@.drop_last() =~= preout);
            assert(json_escape(out@) == json_escape(preout) + esc_char(out@.last()));
            lemma_subrange_join(s@, pos as int, prei, i as int);
            assert(s@.subrange(prei, i as int) =~= esc_char(out@.last()));
        }
    }
}

/// Where the decimal text for `n` stands at `pos`, with no digit right
/// after it.
pub open spec fn dec_at(s: Seq<char>, pos: int, n: u64) -> bool {
    &&& 0 <= pos
    &&& pos + dec_str(n as nat).len() <= s.len()
    &&& s.subrange(pos, pos + dec_str(n as nat).len()) == dec_str(n as nat)
    &&& (pos + dec_str(n as nat).len() == s.len() || !is_digit_char(
        s[pos + dec_str(n as nat).len()],
    ))
}

/// The scan stopped rightly: whatever number stands at `pos`, it is the
/// scanned one.
proof fn lemma_u64_scan_stop(s: Seq<char>, pos: int, i: int, v: u64)
    requires
        0 <= pos < i <= s.len(),
        s.subrange(pos, i) == dec_str(v as nat),
        i == s.len() || !is_digit_char(s[i]),
    ensures
        forall|n: u64| #[trigger]
            dec_at(s, pos, n) ==> n == v && i == pos + dec_str(n as nat).len(),
{
    lemma_dec_str_digits(v as nat);
    assert(dec_str(v as nat).len() == i - pos);
    assert forall|n: u64| #[trigger] dec_at(s, pos, n) implies n == v && i == pos + dec_str(
        n as nat,
    ).len() by {
        let ln = dec_str(n as nat).len() as int;
        lemma_dec_str_digits(n as nat);
        assert(forall|j: int| pos <= j < i ==> #[trigger] s[j] == dec_str(v as nat)[j - pos]);
        assert(forall|j: int|
            pos <= j < pos + ln ==> #[trigger] s[j] == dec_str(n as nat)[j - pos]);
        if i < pos + ln {
            assert(is_digit_char(dec_str(n as nat)[i - pos]));
            assert(s[i] == dec_str(n as nat)[i - pos]);
            assert(false);
        } else if i > pos + ln {
            assert(is_digit_char(dec_str(v as nat)[ln]));
            assert(s[pos + ln] == dec_str(v as nat)[ln]);
            assert(false);
        } else {
            assert(dec_str(v as nat) =~= dec_str(n as nat));
            lemma_dec_str_injective(v as nat, n as nat);
        }
    }
}

/// Reads a decimal number as the serializer writes one: no sign, no
/// leading zero. It succeeds, with the number and the position after it,
/// whenever such a number stands at `pos`.
fn parse_u64(s: &str, pos: usize) -> (r: Option<(u64, usize)>)
    requires
        pos <= s@.len(),
    ensures
        match r {
            Some(tp) => pos < tp.1 <= s@.len() && s@.subrange(pos as int, tp.1 as int) == dec_str(
                tp.0 as nat,
            ),
            None => true,
        },
        forall|n: u64| #[trigger]
            dec_at(s@, pos as int, n) ==> r is Some && r.unwrap().0 == n && r.unwrap().1 == pos
                + dec_str(n as nat).len(),
{
    let slen = s.unicode_len();
    if pos >= slen {
        proof {
            assert forall|n: u64| !dec_at(s@, pos as int, n) by {
                lemma_dec_str_digits(n as nat);
            }
        }
        return None;
    }
    let c0 = s.get_char(pos);
    let u0 = c0 as u32;
    if !(48 <= u0 && u0 <= 57) {
        proof {
            assert forall|n: u64| !dec_at(s@, pos as int, n) by {
                lemma_dec_str_digits(n as nat);
                if dec_at(s@, pos as int, n) {
                    assert(s@.subrange(pos as int, pos + dec_str(n as nat).len())[0] == s@[
                        pos as int]);
                    assert(is_digit_char(dec_str(n as nat)[0]));
                }
            }
        }
        return None;
    }
    let d0 = (u0 - 48) as u64;
    if d0 == 0 {
        proof {
            assert(dec_str(0) =~= seq![crate::text::digit_char(0)]);
            assert(s@.subrange(pos as int, pos + 1) =~= seq![c0]);
            assert forall|n: u64| #[trigger] dec_at(s@, pos as int, n) implies n == 0
                && dec_str(n as nat).len() == 1 by {
                lemma_dec_str_digits(n as nat);
                assert(s@.subrange(pos as int, pos + dec_str(n as nat).len())[0] == s@[
                    pos as int]);
                assert(dec_str(n as nat)[0] == c0);
                if n >= 10 {
                    crate::text::lemma_dec_str_leading(n as nat);
                    assert(crate::text::digit_char(0) as u32 == 48);
                    assert(dec_str(n as nat)[0] as u32 == 48);
                } else {
                    assert(dec_str(n as nat)[0] == crate::text::digit_char(n as nat));
                    assert(crate::text::digit_char(n as nat) as u32 == 48 + n);
                }
            }
        }
        return Some((0, pos + 1));
    }
    let mut v: u64 = d0;
    let mut i: usize = pos + 1;
    proof {
        assert(s@.subrange(pos as int, pos + 1) =~= seq![c0]);
        assert(dec_str(v as nat) =~= seq![crate::text::digit_char(v as nat)]);
    }
    loop
        invariant
            pos < i <= slen,
            slen == s@.len(),
            1 <= v,
            s@.subrange(pos as int, i as int) == dec_str(v as nat),
        decreases slen - i,
    {
        if i >= slen {
            proof {
                lemma_u64_scan_stop(s@, pos as int, i as int, v);
            }
            return Some((v, i));
        }
        let c = s.get_char(i);
        let u = c as u32;
        if !(48 <= u && u <= 57) {
            proof {
                lemma_u64_scan_stop(s@, pos as int, i as int, v);
            }
            return Some((v, i));
        }
        let d = (u - 48) as u64;
        let limit = (18446744073709551615u64 - d) / 10;
        if v > limit {
            proof {
                assert forall|n: u64| !dec_at(s@, pos as int, n) by {
                    if dec_at(s@, pos as int, n) {
                        let ln = dec_str(n as nat).len() as int;
                        lemma_dec_str_digits(n as nat);
                        lemma_dec_str_digits(v as nat);
                        let lv = dec_str(v as nat).len() as int;
                        assert(lv == i - pos);
                        assert(forall|j: int|
                            pos <= j < i ==> #[trigger] s@[j] == dec_str(v as nat)[j - pos]);
                        assert(forall|j: int|
                            pos <= j < pos + ln ==> #[trigger] s@[j] == dec_str(n as nat)[j
                                - pos]);
                        if i < pos + ln {
                            assert(dec_str(v as nat) =~= dec_str(n as nat).take(lv));
                            assert(dec_str(n as nat)[lv] == s@[i as int]);
                            lemma_dec_str_prefix_bound(v as nat, n as nat, (u - 48) as nat);
                            vstd::arithmetic::div_mod::lemma_fundamental_div_mod(
                                (18446744073709551615u64 - d) as int,
                                10,
                            );
                            vstd::arithmetic::div_mod::lemma_mod_bound(
                                (18446744073709551615u64 - d) as int,
                                10,
                            );
                            assert(n as int >= 10 * (v as int) + d);
                            assert(false);
                        } else if i == pos + ln {
                            assert(dec_str(v as nat) == dec_str(n as nat));
                            assert(is_digit_char(s@[pos + ln]));
                            assert(false);
                        } else {
                            assert(is_digit_char(dec_str(v as nat)[ln]));
                            assert(s@[pos + ln] == dec_str(v as nat)[ln]);
                            assert(false);
                        }
                    }
                }
            }
            return None;
        }
        proof {
            vstd::arithmetic::div_mod::lemma_fundamental_div_mod(
                (18446744073709551615u64 - d) as int,
                10,
            );
        }
        let ghost prev = v as nat;
        let ghost prei = i as int;
        v = v * 10 + d;
        i = i + 1;
        proof {
            lemma_fundamental_div_mod_converse(v as int, 10, prev as int, d as int);
            assert(dec_str(v as nat) == dec_str(prev).push(crate::text::digit_char(d as nat)));
            lemma_subrange_join(s@, pos as int, prei, i as int);
            assert(s@.subrange(prei, i as int) =~= seq![c]);
            assert(dec_str(prev) + seq![c] =~= dec_str(prev).push(c));
        }
    }
}

/// Where the serialized text of `t` stands at `pos`.
pub open spec fn node_at(s: Seq<char>, pos: int, t: NodeV) -> bool {
    &&& 0 <= pos
    &&& pos + json_of(t).len() <= s.len()
    &&& s.subrange(pos, pos + json_of(t).len()) == json_of(t)
}

proof fn lemma_sub_at(s: Seq<char>, pos: int, full: Seq<char>, a: int, b: int)
    requires
        0 <= pos,
        pos + full.len() <= s.len(),
        s.subrange(pos, pos + full.len()) == full,
        0 <= a <= b <= full.len(),
    ensures
        s.subrange(pos + a, pos + b) =~= full.subrange(a, b),
{
    assert forall|k: int| 0 <= k < b - a implies s.subrange(pos + a, pos + b)[k] == full.subrange(
        a,
        b,
    )[k] by {
        assert(s.subrange(pos, pos + full.len())[a + k] == s[pos + a + k]);
    }
}

/// Every serialized node starts with a brace and is reasonably long.
proof fn lemma_json_of_head(t: NodeV)
    ensures
        json_of(t).len() >= 11,
        json_of(t)[0] == '{',
{
    reveal_strlit("{\"name\":\"");
    reveal_strlit("]}");
    assert(json_of(t)[0] == "{\"name\":\""@[0]);
    assert("{\"name\":\""@[0] == '{');
}

/// The joined children text splits at each comma.
proof fn lemma_jc_split(cs: Seq<NodeV>, j: int)
    requires
        1 <= j < cs.len(),
    ensures
        crate::json::json_children(cs, 0) == crate::json::json_children(cs.take(j), 0)
            + seq![','] + crate::json::json_children(cs, j),
    decreases j,
{
    if j == 1 {
        assert(cs.take(1) =~= seq![cs[0]]);
        assert(crate::json::json_children(seq![cs[0]], 0) == json_of(cs[0]));
        assert(crate::json::json_children(cs, 0) == json_of(cs[0]) + seq![',']
            + crate::json::json_children(cs, 1));
    } else {
        lemma_jc_split(cs, j - 1);
        assert(cs.take(j) =~= cs.take(j - 1).push(cs[j - 1]));
        assert(cs.take(j - 1).len() >= 1);
        lemma_json_children_grow(cs.take(j - 1), cs[j - 1]);
        assert(crate::json::json_children(cs, j - 1) == json_of(cs[j - 1]) + seq![',']
            + crate::json::json_children(cs, j));
        assert(crate::json::json_children(cs, 0) =~= crate::json::json_children(cs.take(j), 0)
            + seq![','] + crate::json::json_children(cs, j));
    }
}

/// The pieces of one serialized node, each at its own offset.
proof fn lemma_node_at_parts(s: Seq<char>, pos: int, t: NodeV)
    requires
        node_at(s, pos, t),
    ensures
        ({
            let o1 = pos + 9;
            let o2 = o1 + json_escape(t.name).len();
            let o3 = o2 + 11;
            let o4 = o3 + json_bool(t.is_dir).len();
            let o5 = o4 + 8;
            let o6 = o5 + json_size(t.size).len();
            let o7 = o6 + 13;
            let o8 = o7 + crate::json::json_children(t.children, 0).len();
            &&& pos + json_of(t).len() == o8 + 2
            &&& s.subrange(pos, o1) == "{\"name\":\""@
            &&& str_at(s, o1, t.name)
            &&& s.subrange(o2, o3) == "\",\"is_dir\":"@
            &&& s.subrange(o3, o4) == json_bool(t.is_dir)
            &&& s.subrange(o4, o5) == ",\"size\":"@
            &&& s.subrange(o5, o6) == json_size(t.size)
            &&& (t.size is Some ==> dec_at(s, o5, t.size.unwrap()))
            &&& s.subrange(o6, o7) == ",\"children\":["@
            &&& s.subrange(o7, o8) == crate::json::json_children(t.children, 0)
            &&& s[o8] == ']'
            &&& s[o8 + 1] == '}'
        }),
{
    reveal_strlit("{\"name\":\"");
    reveal_strlit("\",\"is_dir\":");
    reveal_strlit(",\"size\":");
    reveal_strlit(",\"children\":[");
    reveal_strlit("]}");
    reveal_strlit("true");
    reveal_strlit("false");
    reveal_strlit("null");
    let x = json_of(t);
    let a1 = "{\"name\":\""@;
    let a2 = "\",\"is_dir\":"@;
    let a3 = ",\"size\":"@;
    let a4 = ",\"children\":["@;
    let a5 = "]}"@;
    let en = json_escape(t.name);
    let bl = json_bool(t.is_dir);
    let sz = json_size(t.size);
    let jc = crate::json::json_children(t.children, 0);
    assert(a1.len() == 9 && a2.len() == 11 && a3.len() == 8 && a4.len() == 13 && a5.len() == 2);
    let o1 = pos + 9;
    let o2 = o1 + en.len();
    let o3 = o2 + 11;
    let o4 = o3 + bl.len();
    let o5 = o4 + 8;
    let o6 = o5 + sz.len();
    let o7 = o6 + 13;
    let o8 = o7 + jc.len();
    assert(x == a1 + en + a2 + bl + a3 + sz + a4 + jc + a5);
    assert(x.len() == 9 + en.len() + 11 + bl.len() + 8 + sz.len() + 13 + jc.len() + 2);
    lemma_sub_at(s, pos, x, 0, 9);
    assert(x.subrange(0, 9) =~= a1);
    lemma_sub_at(s, pos, x, 9, 9 + en.len() as int);
    assert(x.subrange(9, 9 + en.len() as int) =~= en);
    lemma_sub_at(s, pos, x, o2 - pos, o3 - pos);
    assert(x.subrange(o2 - pos, o3 - pos) =~= a2);
    lemma_sub_at(s, pos, x, o3 - pos, o4 - pos);
    assert(x.subrange(o3 - pos, o4 - pos) =~= bl);
    lemma_sub_at(s, pos, x, o4 - pos, o5 - pos);
    assert(x.subrange(o4 - pos, o5 - pos) =~= a3);
    lemma_sub_at(s, pos, x, o5 - pos, o6 - pos);
    assert(x.subrange(o5 - pos, o6 - pos) =~= sz);
    lemma_sub_at(s, pos, x, o6 - pos, o7 - pos);
    assert(x.subrange(o6 - pos, o7 - pos) =~= a4);
    lemma_sub_at(s, pos, x, o7 - pos, o8 - pos);
    assert(x.subrange(o7 - pos, o8 - pos) =~= jc);
    lemma_sub_at(s, pos, x, o8 - pos, o8 + 2 - pos);
    assert(x.subrange(o8 - pos, o8 + 2 - pos) =~= a5);
    assert(s.subrange(o8, o8 + 2)[0] == s[o8]);
    assert(s.subrange(o8, o8 + 2)[1] == s[o8 + 1]);
    assert(a5[0] == ']' && a5[1] == '}');
    assert(str_at(s, o1, t.name)) by {
        assert(s.subrange(o2, o3)[0] == s[o2]);
        assert(a2[0] == '"');
    }
    if t.size is Some {
        let n = t.size.unwrap();
        assert(sz == dec_str(n as nat));
        assert(dec_at(s, o5, n)) by {
            assert(s.subrange(o6, o7)[0] == s[o6]);
            assert(a4[0] == ',');
            assert(!is_digit_char(','));
        }
    }
}

/// Where a node's children text begins, after the fixed fields.
pub open spec fn child_zone(pos: int, t: NodeV) -> int {
    pos + 9 + json_escape(t.name).len() + 11 + json_bool(t.is_dir).len() + 8 + json_size(
        t.size,
    ).len() + 13
}

/// Where the joined children text stands at `p7`, closed by a bracket.
pub open spec fn children_at(s: Seq<char>, p7: int, cs: Seq<NodeV>) -> bool {
    &&& 0 <= p7
    &&& p7 + crate::json::json_children(cs, 0).len() < s.len()
    &&& s.subrange(p7, p7 + crate::json::json_children(cs, 0).len())
        == crate::json::json_children(cs, 0)
    &&& s[p7 + crate::json::json_children(cs, 0).len()] == ']'
}

/// At the start of the children zone stands the first child (or the
/// closing bracket when there are none).
proof fn lemma_children_start(s: Seq<char>, p7: int, cs: Seq<NodeV>)
    requires
        children_at(s, p7, cs),
    ensures
        cs.len() == 0 ==> s[p7] == ']',
        cs.len() > 0 ==> node_at(s, p7, cs[0]) && s[p7] == '{' && crate::json::json_children(
            cs.take(1),
            0,
        ).len() == json_of(cs[0]).len(),
{
    let jc = crate::json::json_children(cs, 0);
    if cs.len() == 0 {
        assert(jc =~= Seq::<char>::empty());
    } else {
        if cs.len() == 1 {
            assert(jc == json_of(cs[0]));
        } else {
            assert(jc == json_of(cs[0]) + seq![','] + crate::json::json_children(cs, 1));
        }
        lemma_json_of_head(cs[0]);
        lemma_sub_at(s, p7, jc, 0, json_of(cs[0]).len() as int);
        assert(jc.subrange(0, json_of(cs[0]).len() as int) =~= json_of(cs[0]));
        assert(s[p7] == s.subrange(p7, p7 + json_of(cs[0]).len())[0]);
        assert(cs.take(1) =~= seq![cs[0]]);
        assert(crate::json::json_children(seq![cs[0]], 0) == json_of(cs[0]));
    }
}

/// After `j` children (and their separators), the children text offers a
/// comma and the next child, or the closing bracket.
proof fn lemma_children_state(s: Seq<char>, p7: int, cs: Seq<NodeV>, j: int, p: int)
    requires
        children_at(s, p7, cs),
        0 < j <= cs.len(),
        p == p7 + crate::json::json_children(cs.take(j), 0).len(),
    ensures
        p <= p7 + crate::json::json_children(cs, 0).len(),
        j == cs.len() ==> p == p7 + crate::json::json_children(cs, 0).len() && s[p] == ']',
        j < cs.len() ==> s[p] == ',' && node_at(s, p + 1, cs[j]) && p + 1 + json_of(
            cs[j],
        ).len() == p7 + crate::json::json_children(cs.take(j + 1), 0).len(),
{
    let jc = crate::json::json_children(cs, 0);
    let o8 = p7 + jc.len();
    if j == cs.len() {
        assert(cs.take(j) =~= cs);
    } else {
        lemma_jc_split(cs, j);
        let pre = crate::json::json_children(cs.take(j), 0);
        let suf = crate::json::json_children(cs, j);
        assert(jc == pre + seq![','] + suf);
        let off = pre.len() as int;
        assert(jc[off] == ',');
        assert(s[p] == s.subrange(p7, o8)[off]);
        let cj = json_of(cs[j]);
        if j == cs.len() - 1 {
            assert(suf == cj);
        } else {
            assert(suf == cj + seq![','] + crate::json::json_children(cs, j + 1));
        }
        assert(jc.subrange(off + 1, off + 1 + cj.len()) =~= cj) by {
            assert(forall|k: int| 0 <= k < cj.len() ==> jc[off + 1 + k] == #[trigger] cj[k]);
        }
        lemma_sub_at(s, p7, jc, off + 1, off + 1 + cj.len() as int);
        assert(node_at(s, p + 1, cs[j]));
        assert(cs.take(j + 1) =~= cs.take(j).push(cs[j]));
        if j >= 1 {
            lemma_json_children_grow(cs.take(j), cs[j]);
        }
        assert(crate::json::json_children(cs.take(j + 1), 0).len() == pre.len() + 1 + cj.len());
    }
}

/// Parses the bracketed children list beginning at `p7`, returning the
/// children with the position of the closing bracket. Whatever parses is
/// exactly the joined children text, and whenever a bracketed children
/// text stands at `p7`, parsing succeeds and returns those very children.
#[verifier::rlimit(100)]
fn parse_children(s: &str, p7: usize) -> (r: Option<(Vec<TreeNode>, usize)>)
    requires
        p7 <= s@.len(),
    ensures
        match r {
            Some(tp) => p7 <= tp.1 < s@.len() && s@.subrange(p7 as int, tp.1 as int)
                == crate::json::json_children(views_of(tp.0@), 0) && s@[tp.1 as int] == ']',
            None => true,
        },
        forall|cs: Seq<NodeV>| #[trigger]
            children_at(s@, p7 as int, cs) ==> r is Some && views_of(r.unwrap().0@) =~= cs
                && r.unwrap().1 == p7 + crate::json::json_children(cs, 0).len(),
    decreases s@.len() - p7, 1nat,
{
    let slen = s.unicode_len();
    let mut children: Vec<TreeNode> = Vec::new();
    let mut p = p7;
    if p >= slen {
        proof {
            assert forall|cs: Seq<NodeV>| children_at(s@, p7 as int, cs) implies false by {}
        }
        return None;
    }
    if s.get_char(p) == ']' {
        proof {
            assert(views_of(children@) =~= Seq::<NodeV>::empty());
            assert(crate::json::json_children(views_of(children@), 0) =~= Seq::<char>::empty());
            assert(s@.subrange(p7 as int, p7 as int) =~= Seq::<char>::empty());
            assert forall|cs: Seq<NodeV>| #[trigger]
                children_at(s@, p7 as int, cs) implies views_of(children@) =~= cs && p7 as int
                == p7 + crate::json::json_children(cs, 0).len() by {
                lemma_children_start(s@, p7 as int, cs);
                if cs.len() > 0 {
                    assert(s@[p7 as int] == '{');
                }
                assert(cs.len() == 0);
                assert(crate::json::json_children(cs, 0) =~= Seq::<char>::empty());
            }
        }
        return Some((children, p));
    }
    proof {
        assert forall|cs: Seq<NodeV>| #[trigger]
            children_at(s@, p7 as int, cs) implies cs.len() > 0 by {
            lemma_children_start(s@, p7 as int, cs);
        }
    }
    loop
        invariant_except_break
            p7 <= p <= slen,
            slen == s@.len(),
            children@.len() > 0 ==> s@.subrange(p7 as int, p as int)
                == crate::json::json_children(views_of(children@), 0) + seq![','],
            children@.len() == 0 ==> p == p7,
            forall|cs: Seq<NodeV>| #[trigger]
                children_at(s@, p7 as int, cs) ==> children@.len() < cs.len() && views_of(
                    children@,
                ) =~= cs.take(children@.len() as int),
        ensures
            p7 <= p < slen,
            slen == s@.len(),
            children@.len() > 0,
            s@.subrange(p7 as int, p as int) == crate::json::json_children(
                views_of(children@),
                0,
            ),
            s@[p as int] == ']',
            forall|cs: Seq<NodeV>| #[trigger]
                children_at(s@, p7 as int, cs) ==> views_of(children@) =~= cs && p as int == p7
                    + crate::json::json_children(cs, 0).len(),
        decreases slen - p,
    {
        let ghost prechildren = children@;
        let ghost prep = p as int;
        proof {
            assert forall|cs: Seq<NodeV>| #[trigger]
                children_at(s@, p7 as int, cs) implies node_at(
                s@,
                p as int,
                cs[prechildren.len() as int],
            ) by {
                let j = prechildren.len() as int;
                if j == 0 {
                    lemma_children_start(s@, p7 as int, cs);
                } else {
                    assert(p - 1 == p7 + crate::json::json_children(cs.take(j), 0).len()) by {
                        assert(views_of(prechildren) =~= cs.take(j));
                    }
                    lemma_children_state(s@, p7 as int, cs, j, p - 1);
                }
            }
        }
        let (child, pc) = match parse_node(s, p) {
            Some(tp) => tp,
            None => {
                proof {
                    assert forall|cs: Seq<NodeV>| children_at(s@, p7 as int, cs) implies false by {
                        assert(node_at(s@, p as int, cs[prechildren.len() as int]));
                    }
                }
                return None;
            },
        };
        if pc <= p {
            proof {
                assert forall|cs: Seq<NodeV>| children_at(s@, p7 as int, cs) implies false by {
                    let cj = cs[prechildren.len() as int];
                    assert(node_at(s@, p as int, cj));
                    lemma_json_of_head(cj);
                }
            }
            return None;
        }
        children.push(child);
        p = pc;
        proof {
            assert(children@.drop_last() =~= prechildren);
            assert(children@.last() == child);
            lemma_views_push(prechildren, child);
            if prechildren.len() == 0 {
                assert(views_of(children@) =~= seq![node_view(child)]);
                assert(crate::json::json_children(views_of(children@), 0) == json_of(
                    node_view(child),
                ));
                assert(s@.subrange(p7 as int, p as int) == json_of(child@));
            } else {
                lemma_json_children_grow(views_of(prechildren), node_view(child));
                lemma_subrange_join(s@, p7 as int, prep, p as int);
            }
            assert(s@.subrange(p7 as int, p as int) == crate::json::json_children(
                views_of(children@),
                0,
            ));
            assert forall|cs: Seq<NodeV>| #[trigger]
                children_at(s@, p7 as int, cs) implies views_of(children@) =~= cs.take(
                children@.len() as int,
            ) && p as int == p7 + crate::json::json_children(
                cs.take(children@.len() as int),
                0,
            ).len() by {
                let j = prechildren.len() as int;
                let cj = cs[j];
                assert(node_at(s@, prep, cj));
                assert(node_view(child) == cj);
                assert(pc == prep + json_of(cj).len());
                assert(cs.take(j + 1) =~= cs.take(j).push(cj));
                assert(views_of(children@) =~= cs.take(j + 1));
                if j == 0 {
                    lemma_children_start(s@, p7 as int, cs);
                } else {
                    lemma_children_state(s@, p7 as int, cs, j, prep - 1);
                }
            }
        }
        if p >= slen {
            proof {
                assert forall|cs: Seq<NodeV>| children_at(s@, p7 as int, cs) implies false by {
                    lemma_children_state(s@, p7 as int, cs, children@.len() as int, p as int);
                }
            }
            return None;
        }
        let nxt = s.get_char(p);
        if nxt == ']' {
            proof {
                assert forall|cs: Seq<NodeV>| #[trigger]
                    children_at(s@, p7 as int, cs) implies views_of(children@) =~= cs
                    && p as int == p7 + crate::json::json_children(cs, 0).len() by {
                    let j = children@.len() as int;
                    lemma_children_state(s@, p7 as int, cs, j, p as int);
                    if j < cs.len() {
                        assert(s@[p as int] == ',');
                    }
                    assert(cs.take(cs.len() as int) =~= cs);
                }
            }
            break;
        }
        if nxt != ',' {
            proof {
                assert forall|cs: Seq<NodeV>| children_at(s@, p7 as int, cs) implies false by {
                    lemma_children_state(s@, p7 as int, cs, children@.len() as int, p as int);
                }
            }
            return None;
        }
        let ghost pre2 = p as int;
        p = p + 1;
        proof {
            assert(s@.subrange(pre2, p as int) =~= seq![',']);
            lemma_subrange_join(s@, p7 as int, pre2, p as int);
            assert forall|cs: Seq<NodeV>| #[trigger]
                children_at(s@, p7 as int, cs) implies children@.len() < cs.len() by {
                let j = children@.len() as int;
                lemma_children_state(s@, p7 as int, cs, j, pre2);
                if j == cs.len() {
                    assert(s@[pre2] == ']');
                }
            }
        }
    }
    Some((children, p))
}

/// Where the boolean text for `b` stands at `pos`.
pub open spec fn bool_at(s: Seq<char>, pos: int, b: bool) -> bool {
    &&& 0 <= pos
    &&& pos + json_bool(b).len() <= s.len()
    &&& s.subrange(pos, pos + json_bool(b).len()) == json_bool(b)
}

/// Reads `true` or `false`; it succeeds, with that value, whenever one of
/// the two stands at `pos`.
fn parse_bool(s: &str, pos: usize) -> (r: Option<(bool, usize)>)
    requires
        pos <= s@.len(),
    ensures
        match r {
            Some(tp) => pos <= tp.1 <= s@.len() && s@.subrange(pos as int, tp.1 as int)
                == json_bool(tp.0),
            None => true,
        },
        forall|b: bool| #[trigger]
            bool_at(s@, pos as int, b) ==> r is Some && r.unwrap().0 == b && r.unwrap().1 == pos
                + json_bool(b).len(),
{
    proof {
        reveal_strlit("true");
        reveal_strlit("false");
    }
    match expect(s, pos, "true") {
        Some(p) => {
            proof {
                assert forall|b: bool| #[trigger] bool_at(s@, pos as int, b) implies b by {
                    if !b {
                        assert(s@.subrange(pos as int, pos + 4) == "true"@);
                        assert(s@.subrange(pos as int, pos + 4)[0] == s@[pos as int]);
                        assert(s@.subrange(pos as int, pos + 5)[0] == s@[pos as int]);
                        assert("true"@[0] == 't' && "false"@[0] == 'f');
                    }
                }
            }
            Some((true, p))
        },
        None => match expect(s, pos, "false") {
            Some(p) => {
                proof {
                    assert forall|b: bool| #[trigger] bool_at(s@, pos as int, b) implies !b by {
                        if b {
                            assert(s@.subrange(pos as int, pos + 4) == "true"@);
                        }
                    }
                }
                Some((false, p))
            },
            None => {
                proof {
                    assert forall|b: bool| bool_at(s@, pos as int, b) implies false by {
                        if b {
                            assert(s@.subrange(pos as int, pos + 4) == "true"@);
                        } else {
                            assert(s@.subrange(pos as int, pos + 5) == "false"@);
                        }
                    }
                }
                None
            },
        },
    }
}

/// Where the size text for `z` stands at `pos`: `null`, or a decimal with
/// no digit right after it.
pub open spec fn size_at(s: Seq<char>, pos: int, z: Option<u64>) -> bool {
    match z {
        None => 0 <= pos && pos + 4 <= s.len() && s.subrange(pos, pos + 4) == "null"@,
        Some(n) => dec_at(s, pos, n),
    }
}

/// Reads the size field; it succeeds, with that value, whenever a size
/// text stands at `pos`.
fn parse_size(s: &str, pos: usize) -> (r: Option<(Option<u64>, usize)>)
    requires
        pos <= s@.len(),
    ensures
        match r {
            Some(tp) => pos <= tp.1 <= s@.len() && s@.subrange(pos as int, tp.1 as int)
                == json_size(tp.0),
            None => true,
        },
        forall|z: Option<u64>| #[trigger]
            size_at(s@, pos as int, z) ==> r is Some && r.unwrap().0 == z && r.unwrap().1 == pos
                + json_size(z).len(),
{
    proof {
        reveal_strlit("null");
    }
    match expect(s, pos, "null") {
        Some(p) => {
            proof {
                assert forall|z: Option<u64>| #[trigger]
                    size_at(s@, pos as int, z) implies z is None by {
                    if z is Some {
                        let n = z.unwrap();
                        lemma_dec_str_digits(n as nat);
                        assert(s@.subrange(pos as int, pos + 4) == "null"@);
                        assert(s@.subrange(pos as int, pos + 4)[0] == s@[pos as int]);
                        assert(s@[pos as int] == 'n');
                        assert(s@.subrange(pos as int, pos + dec_str(n as nat).len())[0] == s@[
                            pos as int]);
                        assert(is_digit_char(dec_str(n as nat)[0]));
                    }
                }
            }
            Some((None, p))
        },
        None => match parse_u64(s, pos) {
            Some(tp) => {
                proof {
                    assert forall|z: Option<u64>| #[trigger]
                        size_at(s@, pos as int, z) implies z is Some by {
                        if z is None {
                            assert(s@.subrange(pos as int, pos + 4) == "null"@);
                        }
                    }
                }
                Some((Some(tp.0), tp.1))
            },
            None => {
                proof {
                    assert forall|z: Option<u64>| size_at(s@, pos as int, z) implies false by {
                        if z is None {
                            assert(s@.subrange(pos as int, pos + 4) == "null"@);
                        }
                    }
                }
                None
            },
        },
    }
}

/// Parses one node of the export format, returning it with the position
/// after its closing brace. Whatever parses is exactly the serializer's
/// text for the returned tree, and whenever a serialized node stands at
/// `pos`, parsing succeeds and returns that very tree.
#[verifier::rlimit(100)]
fn parse_node(s: &str, pos: usize) -> (r: Option<(TreeNode, usize)>)
    requires
        pos <= s@.len(),
    ensures
        match r {
            Some(tp) => pos <= tp.1 <= s@.len() && s@.subrange(pos as int, tp.1 as int) == json_of(
                tp.0@,
            ),
            None => true,
        },
        forall|t: NodeV| #[trigger]
            node_at(s@, pos as int, t) ==> r is Some && node_view(r.unwrap().0) == t
                && r.unwrap().1 == pos + json_of(t).len(),
    decreases s@.len() - pos, 0nat,
{
    proof {
        reveal_strlit("{\"name\":\"");
        reveal_strlit("\",\"is_dir\":");
        reveal_strlit("true");
        reveal_strlit("false");
        reveal_strlit(",\"size\":");
        reveal_strlit("null");
        reveal_strlit(",\"children\":[");
        reveal_strlit("]}");
    }
    let p1 = match expect(s, pos, "{\"name\":\"") {
        Some(p) => p,
        None => {
            proof {
                assert forall|t: NodeV| node_at(s@, pos as int, t) implies false by {
                    lemma_node_at_parts(s@, pos as int, t);
                }
            }
            return None;
        },
    };
    let (name, p2) = match parse_string(s, p1) {
        Some(tp) => tp,
        None => {
            proof {
                assert forall|t: NodeV| node_at(s@, pos as int, t) implies false by {
                    lemma_node_at_parts(s@, pos as int, t);
                    assert(str_at(s@, p1 as int, t.name));
                }
            }
            return None;
        },
    };
    let p3 = match expect(s, p2, "\",\"is_dir\":") {
        Some(p) => p,
        None => {
            proof {
                assert forall|t: NodeV| node_at(s@, pos as int, t) implies false by {
                    lemma_node_at_parts(s@, pos as int, t);
                    assert(str_at(s@, p1 as int, t.name));
                }
            }
            return None;
        },
    };
    let (is_dir, p4) = match parse_bool(s, p3) {
        Some(tp) => tp,
        None => {
            proof {
                assert forall|t: NodeV| node_at(s@, pos as int, t) implies false by {
                    lemma_node_at_parts(s@, pos as int, t);
                    assert(str_at(s@, p1 as int, t.name));
                    assert(bool_at(s@, p3 as int, t.is_dir));
                }
            }
            return None;
        },
    };
    proof {
        assert forall|t: NodeV| #[trigger]
            node_at(s@, pos as int, t) implies name@ == t.name && is_dir == t.is_dir && p4 as int
            == p3 + json_bool(t.is_dir).len() by {
            lemma_node_at_parts(s@, pos as int, t);
            assert(str_at(s@, p1 as int, t.name));
            assert(bool_at(s@, p3 as int, t.is_dir));
        }
    }
    let p5 = match expect(s, p4, ",\"size\":") {
        Some(p) => p,
        None => {
            proof {
                assert forall|t: NodeV| node_at(s@, pos as int, t) implies false by {
                    lemma_node_at_parts(s@, pos as int, t);
                }
            }
            return None;
        },
    };
    let (size, p6) = match parse_size(s, p5) {
        Some(tp) => tp,
        None => {
            proof {
                assert forall|t: NodeV| node_at(s@, pos as int, t) implies false by {
                    lemma_node_at_parts(s@, pos as int, t);
                    assert(size_at(s@, p5 as int, t.size));
                }
            }
            return None;
        },
    };
    proof {
        assert forall|t: NodeV| #[trigger]
            node_at(s@, pos as int, t) implies size == t.size && p6 as int == p5 + json_size(
            t.size,
        ).len() by {
            lemma_node_at_parts(s@, pos as int, t);
            assert(size_at(s@, p5 as int, t.size));
        }
    }
    let p7 = match expect(s, p6, ",\"children\":[") {
        Some(p) => p,
        None => {
            proof {
                assert forall|t: NodeV| node_at(s@, pos as int, t) implies false by {
                    lemma_node_at_parts(s@, pos as int, t);
                }
            }
            return None;
        },
    };
    proof {
        assert forall|t: NodeV| #[trigger] node_at(s@, pos as int, t) implies p7 as int
            == child_zone(pos as int, t) && children_at(s@, p7 as int, t.children) by {
            lemma_node_at_parts(s@, pos as int, t);
        }
    }
    let (children, p) = match parse_children(s, p7) {
        Some(tp) => tp,
        None => {
            proof {
                assert forall|t: NodeV| node_at(s@, pos as int, t) implies false by {
                    assert(children_at(s@, p7 as int, t.children));
                }
            }
            return None;
        },
    };
    let p8 = match expect(s, p, "]}") {
        Some(q) => q,
        None => {
            proof {
                assert forall|t: NodeV| node_at(s@, pos as int, t) implies false by {
                    lemma_node_at_parts(s@, pos as int, t);
                    let o8 = child_zone(pos as int, t) + crate::json::json_children(
                        t.children,
                        0,
                    ).len();
                    assert(p as int == o8);
                    assert(s@.subrange(p as int, p + 2) =~= "]}"@);
                }
            }
            return None;
        },
    };
    let node = TreeNode { name, is_dir, size, children };
    proof {
        let t = node_view(node);
        assert(t.name == node.name@);
        assert(views_of(node.children@) == t.children);
        lemma_subrange_join(s@, pos as int, p1 as int, p2 as int);
        lemma_subrange_join(s@, pos as int, p2 as int, p3 as int);
        lemma_subrange_join(s@, pos as int, p3 as int, p4 as int);
        lemma_subrange_join(s@, pos as int, p4 as int, p5 as int);
        lemma_subrange_join(s@, pos as int, p5 as int, p6 as int);
        lemma_subrange_join(s@, pos as int, p6 as int, p7 as int);
        lemma_subrange_join(s@, pos as int, p7 as int, p as int);
        lemma_subrange_join(s@, pos as int, p as int, p8 as int);
        assert(s@.subrange(p as int, p8 as int) =~= "]}"@) by {
            assert(s@.subrange(p as int, p8 as int) == "]}"@);
        }
        assert(s@.subrange(pos as int, p8 as int) =~= json_of(t));
        assert forall|u: NodeV| #[trigger] node_at(s@, pos as int, u) implies node_view(node) == u
            && p8 as int == pos + json_of(u).len() by {
            lemma_node_at_parts(s@, pos as int, u);
            assert(name@ == u.name && is_dir == u.is_dir && size == u.size);
            assert(children_at(s@, p7 as int, u.children));
            assert(views_of(children@) =~= u.children);
            assert(node_view(node) =~= u);
            assert(p8 as int == child_zone(pos as int, u) + crate::json::json_children(
                u.children,
                0,
            ).len() + 2);
        }
    }
    Some((node, p8))
}

proof fn lemma_views_push(s: Seq<TreeNode>, t: TreeNode)
    ensures
        views_of(s.push(t)) =~= views_of(s).push(node_view(t)),
{
    assert(s.push(t).drop_last() =~= s);
    assert(s.push(t).last() == t);
}

/// Appending one more child extends the joined children text with a
/// comma and that child's object.
proof fn lemma_json_children_grow(cs: Seq<NodeV>, x: NodeV)
    requires
        cs.len() >= 1,
    ensures
        crate::json::json_children(cs.push(x), 0) == crate::json::json_children(cs, 0)
            + seq![','] + json_of(x),
{
    lemma_json_children_grow_from(cs, x, 0);
}

proof fn lemma_json_children_grow_from(cs: Seq<NodeV>, x: NodeV, i: int)
    requires
        0 <= i < cs.len(),
    ensures
        crate::json::json_children(cs.push(x), i) == crate::json::json_children(cs, i)
            + seq![','] + json_of(x),
    decreases cs.len() - i,
{
    let ps = cs.push(x);
    assert(ps[i] == cs[i]);
    if i == cs.len() - 1 {
        assert(ps[i + 1] == x);
        assert(crate::json::json_children(ps, i + 1) == json_of(x));
        assert(crate::json::json_children(cs, i) == json_of(cs[i]));
        assert(crate::json::json_children(ps, i) == json_of(cs[i]) + seq![','] + json_of(x));
    } else {
        lemma_json_children_grow_from(cs, x, i + 1);
        assert(crate::json::json_children(ps, i) == json_of(ps[i]) + seq![',']
            + crate::json::json_children(ps, i + 1));
        assert(crate::json::json_children(cs, i) == json_of(cs[i]) + seq![',']
            + crate::json::json_children(cs, i + 1));
        assert(crate::json::json_children(ps, i) =~= crate::json::json_children(cs, i)
            + seq![','] + json_of(x));
    }
}

/// Reads a tree back from the export format. This parser accepts exactly
/// what `to_json` writes: whenever it returns a tree, serializing that
/// tree reproduces the input letter for letter, and whenever the input is
/// the serialization of some tree, parsing succeeds and returns that very
/// tree.
pub fn from_json(s: &str) -> (r: Option<TreeNode>)
    ensures
        match r {
            Some(t) => json_of(t@) == s@,
            None => true,
        },
        forall|t: NodeV| s@ == json_of(t) ==> r is Some && node_view(r.unwrap()) == t,
{
    let slen = s.unicode_len();
    proof {
        assert forall|t: NodeV| s@ == json_of(t) implies node_at(s@, 0, t) by {
            assert(s@.subrange(0, json_of(t).len() as int) =~= s@);
        }
    }
    match parse_node(s, 0) {
        Some(tp) => {
            if tp.1 == slen {
                proof {
                    assert(s@.subrange(0, slen as int) =~= s@);
                }
                Some(tp.0)
            } else {
                proof {
                    assert forall|t: NodeV| s@ == json_of(t) implies false by {
                        assert(node_at(s@, 0, t));
                    }
                }
                None
            }
        },
        None => {
            proof {
                assert forall|t: NodeV| s@ == json_of(t) implies false by {
                    assert(node_at(s@, 0, t));
                }
            }
            None
        },
    }
}

} // verus!
