use vstd::prelude::*;

verus! {

/// Relies on std's `String::push`: appends the given character to the end of
/// the string.
pub assume_specification[ String::push ](s: &mut String, c: char)
    ensures
        final(s)@ == old(s)@.push(c),
;

/// Byte/codepoint-lexicographic "less or equal" on character sequences:
/// the empty sequence comes first, otherwise the first differing codepoint
/// decides, and a proper prefix comes before its extensions.
pub open spec fn lex_le(a: Seq<char>, b: Seq<char>) -> bool
    decreases a.len(),
{
    if a.len() == 0 {
        true
    } else if b.len() == 0 {
        false
    } else if (a[0] as u32) < (b[0] as u32) {
        true
    } else if (a[0] as u32) > (b[0] as u32) {
        false
    } else {
        lex_le(a.skip(1), b.skip(1))
    }
}

pub proof fn lemma_lex_le_refl(a: Seq<char>)
    ensures
        lex_le(a, a),
    decreases a.len(),
{
    if a.len() != 0 {
        lemma_lex_le_refl(a.skip(1));
    }
}

pub proof fn lemma_lex_le_total(a: Seq<char>, b: Seq<char>)
    ensures
        lex_le(a, b) || lex_le(b, a),
    decreases a.len(),
{
    if a.len() != 0 && b.len() != 0 && (a[0] as u32) == (b[0] as u32) {
        lemma_lex_le_total(a.skip(1), b.skip(1));
    }
}

pub proof fn lemma_lex_le_trans(a: Seq<char>, b: Seq<char>, c: Seq<char>)
    requires
        lex_le(a, b),
        lex_le(b, c),
    ensures
        lex_le(a, c),
    decreases a.len(),
{
    if a.len() != 0 && b.len() != 0 && c.len() != 0 && (a[0] as u32) == (b[0] as u32) && (b[0]
        as u32) == (c[0] as u32) {
        lemma_lex_le_trans(a.skip(1), b.skip(1), c.skip(1));
    }
}

/// When the first `i` characters agree, the order is decided by the rest.
pub proof fn lemma_lex_le_skip(a: Seq<char>, b: Seq<char>, i: int)
    requires
        0 <= i <= a.len(),
        i <= b.len(),
        forall|j: int| 0 <= j < i ==> a[j] == b[j],
    ensures
        lex_le(a, b) == lex_le(a.skip(i), b.skip(i)),
    decreases i,
{
    if i == 0 {
        assert(a.skip(0) =~= a);
        assert(b.skip(0) =~= b);
    } else {
        lemma_lex_le_skip(a.skip(1), b.skip(1), i - 1);
        assert(a.skip(1).skip(i - 1) =~= a.skip(i));
        assert(b.skip(1).skip(i - 1) =~= b.skip(i));
        assert(forall|j: int| 0 <= j < i - 1 ==> a.skip(1)[j] == b.skip(1)[j]);
    }
}

/// Compares two strings in codepoint-lexicographic order.
pub fn str_le(a: &str, b: &str) -> (r: bool)
    ensures
        r == lex_le(a@, b@),
{
    let alen = a.unicode_len();
    let blen = b.unicode_len();
    let mut i: usize = 0;
    loop
        invariant
            i <= alen <= a@.len(),
            i <= blen <= b@.len(),
            alen == a@.len(),
            blen == b@.len(),
            forall|j: int| 0 <= j < i ==> a@[j] == b@[j],
        decreases alen - i,
    {
        if i >= alen || i >= blen {
            proof {
                lemma_lex_le_skip(a@, b@, i as int);
            }
            return i >= alen;
        }
        let ca = a.get_char(i);
        let cb = b.get_char(i);
        if ca as u32 != cb as u32 {
            proof {
                lemma_lex_le_skip(a@, b@, i as int);
                assert(a@.skip(i as int)[0] == a@[i as int]);
                assert(b@.skip(i as int)[0] == b@[i as int]);
            }
            return (ca as u32) < (cb as u32);
        }
        proof {
            assert(a@[i as int] == b@[i as int]);
        }
        i = i + 1;
    }
}

/// The character for one decimal digit.
pub open spec fn digit_char(d: nat) -> char
    recommends
        d < 10,
{
    ((48 + d) as u8) as char
}

/// The decimal rendering of a natural number, most significant digit first.
pub open spec fn dec_str(n: nat) -> Seq<char>
    decreases n,
{
    if n < 10 {
        seq![digit_char(n)]
    } else {
        dec_str(n / 10).push(digit_char(n % 10))
    }
}

/// A decimal digit character.
pub open spec fn is_digit_char(c: char) -> bool {
    48 <= c as u32 <= 57
}

pub proof fn lemma_dec_str_digits(n: nat)
    ensures
        dec_str(n).len() >= 1,
        forall|i: int| 0 <= i < dec_str(n).len() ==> is_digit_char(#[trigger] dec_str(n)[i]),
    decreases n,
{
    if n < 10 {
        assert(is_digit_char(digit_char(n)));
    } else {
        lemma_dec_str_digits(n / 10);
        assert forall|i: int| 0 <= i < dec_str(n).len() implies is_digit_char(
            #[trigger] dec_str(n)[i],
        ) by {
            if i < dec_str(n).len() - 1 {
                assert(dec_str(n)[i] == dec_str(n / 10)[i]);
            } else {
                assert(dec_str(n)[i] == digit_char(n % 10));
                assert(is_digit_char(digit_char(n % 10)));
            }
        }
    }
}

pub proof fn lemma_dec_str_injective(a: nat, b: nat)
    requires
        dec_str(a) == dec_str(b),
    ensures
        a == b,
    decreases a,
{
    lemma_dec_str_digits(a);
    lemma_dec_str_digits(b);
    if a < 10 && b < 10 {
        assert(dec_str(a)[0] == digit_char(a));
        assert(dec_str(b)[0] == digit_char(b));
    } else if a < 10 {
        assert(dec_str(b).len() >= 2) by {
            lemma_dec_str_digits(b / 10);
        }
    } else if b < 10 {
        assert(dec_str(a).len() >= 2) by {
            lemma_dec_str_digits(a / 10);
        }
    } else {
        assert(dec_str(a).drop_last() =~= dec_str(a / 10));
        assert(dec_str(b).drop_last() =~= dec_str(b / 10));
        assert(dec_str(a / 10) == dec_str(b / 10));
        lemma_dec_str_injective(a / 10, b / 10);
        assert(dec_str(a).last() == digit_char(a % 10));
        assert(dec_str(b).last() == digit_char(b % 10));
        assert(digit_char(a % 10) == digit_char(b % 10));
        assert(digit_char(a % 10) as u32 == 48 + (a % 10));
        assert(digit_char(b % 10) as u32 == 48 + (b % 10));
        assert(a % 10 == b % 10);
        vstd::arithmetic::div_mod::lemma_fundamental_div_mod(a as int, 10);
        vstd::arithmetic::div_mod::lemma_fundamental_div_mod(b as int, 10);
    }
}

/// A longer decimal number never begins with a shorter one's digits
/// without being at least ten times it plus the next digit.
pub proof fn lemma_dec_str_prefix_bound(a: nat, b: nat, d: nat)
    requires
        d < 10,
        dec_str(a).len() < dec_str(b).len(),
        dec_str(a) == dec_str(b).take(dec_str(a).len() as int),
        dec_str(b)[dec_str(a).len() as int] as u32 == 48 + d,
    ensures
        b >= 10 * a + d,
    decreases b,
{
    lemma_dec_str_digits(a);
    lemma_dec_str_digits(b);
    if b < 10 {
        // dec_str(b) has one digit, so no shorter prefix exists
        assert(false);
    } else {
        lemma_dec_str_digits(b / 10);
        vstd::arithmetic::div_mod::lemma_fundamental_div_mod(b as int, 10);
        if dec_str(a).len() == dec_str(b).len() - 1 {
            assert(dec_str(a) =~= dec_str(b / 10)) by {
                assert(forall|i: int|
                    0 <= i < dec_str(a).len() ==> dec_str(b).take(dec_str(a).len() as int)[i]
                        == #[trigger] dec_str(b / 10)[i]);
            }
            lemma_dec_str_injective(a, b / 10);
            assert(dec_str(b)[dec_str(a).len() as int] == digit_char(b % 10));
            assert(digit_char(b % 10) as u32 == 48 + (b % 10));
            assert(b % 10 == d);
        } else {
            assert(dec_str(a) =~= dec_str(b / 10).take(dec_str(a).len() as int)) by {
                assert(forall|i: int|
                    0 <= i < dec_str(a).len() ==> dec_str(b).take(dec_str(a).len() as int)[i]
                        == #[trigger] dec_str(b / 10)[i]);
            }
            assert(dec_str(b / 10)[dec_str(a).len() as int] == dec_str(b)[dec_str(
                a,
            ).len() as int]);
            assert(dec_str(b / 10)[dec_str(a).len() as int] as u32 == 48 + d);
            lemma_dec_str_prefix_bound(a, b / 10, d);
            assert(b >= 10 * (b / 10));
            assert(b / 10 >= 10 * a + d);
            assert(10 * (10 * a + d) >= 10 * a + d);
        }
    }
}

/// A number of ten or more never prints a leading zero.
pub proof fn lemma_dec_str_leading(n: nat)
    requires
        n >= 10,
    ensures
        dec_str(n)[0] != digit_char(0),
    decreases n,
{
    lemma_dec_str_digits(n / 10);
    assert(dec_str(n)[0] == dec_str(n / 10)[0]);
    if n / 10 >= 10 {
        lemma_dec_str_leading(n / 10);
    } else {
        assert(n / 10 >= 1);
        assert(dec_str(n / 10)[0] == digit_char(n / 10));
        assert(digit_char(n / 10) != digit_char(0));
    }
}

fn digit_to_char(d: u64) -> (c: char)
    requires
        d < 10,
    ensures
        c == digit_char(d as nat),
{
    (48 + d as u8) as char
}

/// Renders a number in decimal.
pub fn u64_to_string(n: u64) -> (r: String)
    ensures
        r@ == dec_str(n as nat),
    decreases n,
{
    if n < 10 {
        let mut s = String::new();
        s.push(digit_to_char(n));
        s
    } else {
        let mut s = u64_to_string(n / 10);
        s.push(digit_to_char(n % 10));
        s
    }
}

} // verus!
