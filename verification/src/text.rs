//! Text building blocks for the generated source: decimal rendering of
//! integers, a fixed-width hexadecimal encoding of characters, and a
//! separator-joined concatenation of parts. The encoding and the join are
//! proved injective, which makes content-addressed struct names provably
//! collision-free within one compilation unit.

use vstd::prelude::*;

verus! {

use vstd::string::StringExecFns;
use vstd::string::StrSliceExecFns;
use vstd::arithmetic::div_mod::lemma_fundamental_div_mod;
use vstd::arithmetic::div_mod::lemma_div_denominator;

// ---------------------------------------------------------------------------
// Decimal rendering
// ---------------------------------------------------------------------------

pub open spec fn digit_char(d: nat) -> char {
    if d == 0 {
        '0'
    } else if d == 1 {
        '1'
    } else if d == 2 {
        '2'
    } else if d == 3 {
        '3'
    } else if d == 4 {
        '4'
    } else if d == 5 {
        '5'
    } else if d == 6 {
        '6'
    } else if d == 7 {
        '7'
    } else if d == 8 {
        '8'
    } else {
        '9'
    }
}

/// The decimal digit sequence of `n`, most significant digit first,
/// without leading zeros (a single `'0'` for zero).
pub open spec fn dec_digits(n: nat) -> Seq<char>
    decreases n,
{
    if n < 10 {
        seq![digit_char(n)]
    } else {
        dec_digits(n / 10).push(digit_char(n % 10))
    }
}

fn digit_str(d: u64) -> (r: &'static str)
    requires
        d < 10,
    ensures
        r@ == seq![digit_char(d as nat)],
{
    proof {
        reveal_strlit("0");
        reveal_strlit("1");
        reveal_strlit("2");
        reveal_strlit("3");
        reveal_strlit("4");
        reveal_strlit("5");
        reveal_strlit("6");
        reveal_strlit("7");
        reveal_strlit("8");
        reveal_strlit("9");
    }
    let r: &'static str = match d {
        0 => "0",
        1 => "1",
        2 => "2",
        3 => "3",
        4 => "4",
        5 => "5",
        6 => "6",
        7 => "7",
        8 => "8",
        _ => "9",
    };
    proof {
        assert(r@ =~= seq![digit_char(d as nat)]);
    }
    r
}

/// Renders `n` in decimal, matching `dec_digits`.
pub fn dec_u64(n: u64) -> (s: String)
    ensures
        s@ == dec_digits(n as nat),
    decreases n,
{
    if n < 10 {
        digit_str(n).to_owned()
    } else {
        let mut s = dec_u64(n / 10);
        s.append(digit_str(n % 10));
        proof {
            assert(s@ =~= dec_digits((n / 10) as nat).push(digit_char((n % 10) as nat)));
        }
        s
    }
}

pub proof fn lemma_dec_digits_nonempty(n: nat)
    ensures
        dec_digits(n).len() >= 1,
    decreases n,
{
    if n >= 10 {
        lemma_dec_digits_nonempty(n / 10);
    }
}

pub proof fn lemma_dec_digits_sep_free(n: nat)
    ensures
        sep_free(dec_digits(n)),
    decreases n,
{
    if n >= 10 {
        lemma_dec_digits_sep_free(n / 10);
        assert forall|i: int| 0 <= i < dec_digits(n).len() implies dec_digits(n)[i] != '_' by {
            if i < dec_digits(n / 10).len() {
                assert(dec_digits(n)[i] == dec_digits(n / 10)[i]);
            }
        }
    }
}

proof fn lemma_digit_char_injective(d1: nat, d2: nat)
    requires
        d1 < 10,
        d2 < 10,
        digit_char(d1) == digit_char(d2),
    ensures
        d1 == d2,
{
}

/// Distinct naturals have distinct decimal renderings.
pub proof fn lemma_dec_digits_injective(a: nat, b: nat)
    requires
        dec_digits(a) == dec_digits(b),
    ensures
        a == b,
    decreases a,
{
    lemma_dec_digits_nonempty(a);
    lemma_dec_digits_nonempty(b);
    if a < 10 && b < 10 {
        assert(dec_digits(a) == seq![digit_char(a)]);
        assert(dec_digits(b) == seq![digit_char(b)]);
        assert(dec_digits(a)[0] == dec_digits(b)[0]);
        assert(seq![digit_char(a)][0] == digit_char(a));
        assert(seq![digit_char(b)][0] == digit_char(b));
        lemma_digit_char_injective(a, b);
    } else if a < 10 {
        lemma_dec_digits_nonempty(b / 10);
        assert(dec_digits(b).len() >= 2);
    } else if b < 10 {
        lemma_dec_digits_nonempty(a / 10);
        assert(dec_digits(a).len() >= 2);
    } else {
        assert(dec_digits(a) == dec_digits(a / 10).push(digit_char(a % 10)));
        assert(dec_digits(b) == dec_digits(b / 10).push(digit_char(b % 10)));
        assert(dec_digits(a).last() == digit_char(a % 10));
        assert(dec_digits(b).last() == digit_char(b % 10));
        lemma_digit_char_injective(a % 10, b % 10);
        assert(a % 10 == b % 10);
        assert(dec_digits(a).drop_last() =~= dec_digits(a / 10));
        assert(dec_digits(b).drop_last() =~= dec_digits(b / 10));
        lemma_dec_digits_injective(a / 10, b / 10);
        lemma_fundamental_div_mod(a as int, 10);
        lemma_fundamental_div_mod(b as int, 10);
    }
}

// ---------------------------------------------------------------------------
// Fixed-width hexadecimal encoding of characters
// ---------------------------------------------------------------------------

pub open spec fn hex_digit(d: nat) -> char {
    if d < 10 {
        digit_char(d)
    } else if d == 10 {
        'a'
    } else if d == 11 {
        'b'
    } else if d == 12 {
        'c'
    } else if d == 13 {
        'd'
    } else if d == 14 {
        'e'
    } else {
        'f'
    }
}

/// Six hexadecimal digits covering every Unicode code point, most
/// significant nibble first.
pub open spec fn hex6(c: char) -> Seq<char> {
    let v = c as nat;
    seq![
        hex_digit(v / 0x100000 % 16),
        hex_digit(v / 0x10000 % 16),
        hex_digit(v / 0x1000 % 16),
        hex_digit(v / 0x100 % 16),
        hex_digit(v / 0x10 % 16),
        hex_digit(v % 16),
    ]
}

/// The concatenation of `hex6` over every character of `s`.
pub open spec fn hex_chars(s: Seq<char>) -> Seq<char>
    decreases s.len(),
{
    if s.len() == 0 {
        Seq::empty()
    } else {
        hex_chars(s.drop_last()) + hex6(s.last())
    }
}

fn hex_digit_str(d: u32) -> (r: &'static str)
    requires
        d < 16,
    ensures
        r@ == seq![hex_digit(d as nat)],
{
    if d < 10 {
        digit_str(d as u64)
    } else {
        proof {
            reveal_strlit("a");
            reveal_strlit("b");
            reveal_strlit("c");
            reveal_strlit("d");
            reveal_strlit("e");
            reveal_strlit("f");
        }
        let r: &'static str = match d {
            10 => "a",
            11 => "b",
            12 => "c",
            13 => "d",
            14 => "e",
            _ => "f",
        };
        proof {
            assert(r@ =~= seq![hex_digit(d as nat)]);
        }
        r
    }
}

/// Appends the six-digit encoding of `c` to `s`.
fn push_hex6(s: &mut String, c: char)
    ensures
        final(s)@ == old(s)@ + hex6(c),
{
    let v = c as u32;
    s.append(hex_digit_str(v / 0x100000 % 16));
    s.append(hex_digit_str(v / 0x10000 % 16));
    s.append(hex_digit_str(v / 0x1000 % 16));
    s.append(hex_digit_str(v / 0x100 % 16));
    s.append(hex_digit_str(v / 0x10 % 16));
    s.append(hex_digit_str(v % 16));
    proof {
        assert(final(s)@ =~= old(s)@ + hex6(c));
    }
}

/// Appends the character-wise hexadecimal encoding of `part` to `s`.
pub fn push_hex_chars(s: &mut String, part: &str)
    ensures
        final(s)@ == old(s)@ + hex_chars(part@),
{
    let n = part.unicode_len();
    let mut i: usize = 0;
    while i < n
        invariant
            i <= n,
            n == part@.len(),
            s@ == old(s)@ + hex_chars(part@.take(i as int)),
        decreases n - i,
    {
        let c = part.get_char(i);
        push_hex6(s, c);
        proof {
            assert(part@.take(i + 1 as int).drop_last() =~= part@.take(i as int));
            assert(part@.take(i + 1 as int).last() == part@[i as int]);
            assert(s@ =~= old(s)@ + hex_chars(part@.take(i + 1 as int)));
        }
        i = i + 1;
    }
    proof {
        assert(part@.take(n as int) =~= part@);
    }
}

pub proof fn lemma_hex6_len(c: char)
    ensures
        hex6(c).len() == 6,
{
}

pub proof fn lemma_hex_chars_len(s: Seq<char>)
    ensures
        hex_chars(s).len() == 6 * s.len(),
    decreases s.len(),
{
    if s.len() > 0 {
        lemma_hex_chars_len(s.drop_last());
    }
}

proof fn lemma_hex_digit_injective(d1: nat, d2: nat)
    requires
        d1 < 16,
        d2 < 16,
        hex_digit(d1) == hex_digit(d2),
    ensures
        d1 == d2,
{
}

proof fn lemma_hex6_injective(c1: char, c2: char)
    requires
        hex6(c1) == hex6(c2),
    ensures
        c1 == c2,
{
    let v1 = c1 as nat;
    let v2 = c2 as nat;
    assert(hex6(c1)[0] == hex6(c2)[0]);
    assert(hex6(c1)[1] == hex6(c2)[1]);
    assert(hex6(c1)[2] == hex6(c2)[2]);
    assert(hex6(c1)[3] == hex6(c2)[3]);
    assert(hex6(c1)[4] == hex6(c2)[4]);
    assert(hex6(c1)[5] == hex6(c2)[5]);
    lemma_hex_digit_injective(v1 / 0x100000 % 16, v2 / 0x100000 % 16);
    lemma_hex_digit_injective(v1 / 0x10000 % 16, v2 / 0x10000 % 16);
    lemma_hex_digit_injective(v1 / 0x1000 % 16, v2 / 0x1000 % 16);
    lemma_hex_digit_injective(v1 / 0x100 % 16, v2 / 0x100 % 16);
    lemma_hex_digit_injective(v1 / 0x10 % 16, v2 / 0x10 % 16);
    lemma_hex_digit_injective(v1 % 16, v2 % 16);
    assert(v1 < 0x110000);
    assert(v2 < 0x110000);
    lemma_nibbles_determine(v1, v2);
    assert(c1 as nat == c2 as nat);
    assert(c1 == c2) by {
        assert(c1 as char == c2 as char);
    }
}

proof fn lemma_nibbles_determine(v1: nat, v2: nat)
    requires
        v1 < 0x110000,
        v2 < 0x110000,
        v1 / 0x100000 % 16 == v2 / 0x100000 % 16,
        v1 / 0x10000 % 16 == v2 / 0x10000 % 16,
        v1 / 0x1000 % 16 == v2 / 0x1000 % 16,
        v1 / 0x100 % 16 == v2 / 0x100 % 16,
        v1 / 0x10 % 16 == v2 / 0x10 % 16,
        v1 % 16 == v2 % 16,
    ensures
        v1 == v2,
{
    lemma_nibble_step(v1, v2, 0x100000);
    assert(v1 / 0x100000 == v2 / 0x100000) by {
        assert(v1 / 0x100000 < 16) by {
            assert(v1 < 16 * 0x100000);
        };
        assert(v2 / 0x100000 < 16) by {
            assert(v2 < 16 * 0x100000);
        };
    }
    lemma_nibble_step(v1, v2, 0x10000);
    assert(v1 / 0x10000 == v2 / 0x10000);
    lemma_nibble_step(v1, v2, 0x1000);
    assert(v1 / 0x1000 == v2 / 0x1000);
    lemma_nibble_step(v1, v2, 0x100);
    assert(v1 / 0x100 == v2 / 0x100);
    lemma_nibble_step(v1, v2, 0x10);
    assert(v1 / 0x10 == v2 / 0x10);
    lemma_nibble_step(v1, v2, 0x1);
    assert(v1 == v2);
}

/// If the quotients by `16 * k` agree and the `k`-th nibbles agree, the
/// quotients by `k` agree.
proof fn lemma_nibble_step(v1: nat, v2: nat, k: nat)
    requires
        k >= 1,
        v1 / (16 * k) == v2 / (16 * k) || k == 0x100000,
    ensures
        k < 0x100000 && v1 / (16 * k) == v2 / (16 * k) && v1 / k % 16 == v2 / k % 16 ==> v1 / k
            == v2 / k,
        v1 / k / 16 == v1 / (16 * k),
        v2 / k / 16 == v2 / (16 * k),
{
    lemma_div_denominator(v1 as int, k as int, 16);
    lemma_div_denominator(v2 as int, k as int, 16);
    lemma_fundamental_div_mod((v1 / k) as int, 16);
    lemma_fundamental_div_mod((v2 / k) as int, 16);
}

pub proof fn lemma_hex_chars_sep_free(s: Seq<char>)
    ensures
        sep_free(hex_chars(s)),
    decreases s.len(),
{
    if s.len() > 0 {
        lemma_hex_chars_sep_free(s.drop_last());
        let h = hex_chars(s);
        let p = hex_chars(s.drop_last());
        let t = hex6(s.last());
        assert forall|i: int| 0 <= i < h.len() implies h[i] != '_' by {
            if i < p.len() {
                assert(h[i] == p[i]);
            } else {
                assert(h[i] == t[i - p.len()]);
            }
        }
    }
}

/// Distinct character sequences have distinct hexadecimal encodings.
pub proof fn lemma_hex_chars_injective(s1: Seq<char>, s2: Seq<char>)
    requires
        hex_chars(s1) == hex_chars(s2),
    ensures
        s1 == s2,
    decreases s1.len(),
{
    lemma_hex_chars_len(s1);
    lemma_hex_chars_len(s2);
    assert(s1.len() == s2.len());
    if s1.len() == 0 {
        assert(s1 =~= s2);
    } else {
        lemma_hex6_len(s1.last());
        lemma_hex6_len(s2.last());
        lemma_append_split(
            hex_chars(s1.drop_last()),
            hex6(s1.last()),
            hex_chars(s2.drop_last()),
            hex6(s2.last()),
        );
        lemma_hex6_injective(s1.last(), s2.last());
        lemma_hex_chars_injective(s1.drop_last(), s2.drop_last());
        assert(s1 =~= s1.drop_last().push(s1.last()));
        assert(s2 =~= s2.drop_last().push(s2.last()));
    }
}

// ---------------------------------------------------------------------------
// Separator-joined parts
// ---------------------------------------------------------------------------

/// Holds when `s` avoids the join separator.
pub open spec fn sep_free(s: Seq<char>) -> bool {
    forall|i: int| 0 <= i < s.len() ==> s[i] != '_'
}

/// The parts concatenated with a single `'_'` between consecutive parts.
pub open spec fn join_parts(parts: Seq<Seq<char>>) -> Seq<char>
    decreases parts.len(),
{
    if parts.len() == 0 {
        Seq::empty()
    } else if parts.len() == 1 {
        parts[0]
    } else {
        parts[0] + seq!['_'] + join_parts(parts.drop_first())
    }
}

/// The forward accumulation of a join: every part followed by one
/// separator. `join_parts(parts.push(x)) == pre_join(parts) + x`.
pub open spec fn pre_join(parts: Seq<Seq<char>>) -> Seq<char>
    decreases parts.len(),
{
    if parts.len() == 0 {
        Seq::empty()
    } else {
        pre_join(parts.drop_last()) + parts.last() + seq!['_']
    }
}

pub proof fn lemma_pre_join_first(parts: Seq<Seq<char>>)
    requires
        parts.len() > 0,
    ensures
        pre_join(parts) == parts[0] + seq!['_'] + pre_join(parts.drop_first()),
    decreases parts.len(),
{
    if parts.len() == 1 {
        assert(parts.drop_last() =~= Seq::<Seq<char>>::empty());
        assert(parts.drop_first() =~= Seq::<Seq<char>>::empty());
        assert(pre_join(parts) =~= parts[0] + seq!['_'] + pre_join(parts.drop_first()));
    } else {
        lemma_pre_join_first(parts.drop_last());
        assert(parts.drop_last().drop_first() =~= parts.drop_first().drop_last());
        assert(parts.drop_first().last() == parts.last());
        assert(pre_join(parts.drop_first()) == pre_join(parts.drop_first().drop_last())
            + parts.last() + seq!['_']);
        assert(parts.drop_last()[0] == parts[0]);
        assert(pre_join(parts) =~= parts[0] + seq!['_'] + pre_join(parts.drop_first()));
    }
}

pub proof fn lemma_join_push(parts: Seq<Seq<char>>, x: Seq<char>)
    ensures
        join_parts(parts.push(x)) == pre_join(parts) + x,
    decreases parts.len(),
{
    let p = parts.push(x);
    if parts.len() == 0 {
        assert(p.len() == 1);
        assert(join_parts(p) == p[0]);
        assert(pre_join(parts) + x =~= p[0]);
    } else {
        assert(p.len() >= 2);
        assert(p.drop_first() =~= parts.drop_first().push(x));
        lemma_join_push(parts.drop_first(), x);
        assert(join_parts(p) == p[0] + seq!['_'] + (pre_join(parts.drop_first()) + x));
        lemma_pre_join_first(parts);
        assert(p[0] == parts[0]);
        assert(p[0] + seq!['_'] + (pre_join(parts.drop_first()) + x) =~= pre_join(parts) + x);
    }
}

/// Splitting equal concatenations at equal lengths gives equal halves.
pub proof fn lemma_append_split(a: Seq<char>, b: Seq<char>, c: Seq<char>, d: Seq<char>)
    requires
        a + b == c + d,
        a.len() == c.len(),
    ensures
        a == c,
        b == d,
{
    assert(a =~= (a + b).take(a.len() as int));
    assert(c =~= (c + d).take(a.len() as int));
    assert(b =~= (a + b).skip(a.len() as int));
    assert(d =~= (c + d).skip(a.len() as int));
}

/// Joining with a separator that no part contains is injective on
/// sequences of nonempty parts.
pub proof fn lemma_join_parts_injective(p1: Seq<Seq<char>>, p2: Seq<Seq<char>>)
    requires
        forall|i: int| 0 <= i < p1.len() ==> sep_free(#[trigger] p1[i]) && p1[i].len() > 0,
        forall|i: int| 0 <= i < p2.len() ==> sep_free(#[trigger] p2[i]) && p2[i].len() > 0,
        join_parts(p1) == join_parts(p2),
    ensures
        p1 == p2,
    decreases p1.len(),
{
    if p1.len() == 0 || p2.len() == 0 {
        if p1.len() == 0 && p2.len() == 0 {
            assert(p1 =~= p2);
        } else if p1.len() == 0 {
            assert(join_parts(p2).len() > 0) by {
                lemma_join_parts_lower_len(p2);
            }
        } else {
            assert(join_parts(p1).len() > 0) by {
                lemma_join_parts_lower_len(p1);
            }
        }
    } else if p1.len() == 1 && p2.len() == 1 {
        assert(p1 =~= p2);
    } else if p1.len() == 1 {
        // join(p2) has a separator at index p2[0].len(), join(p1) has none.
        let j = join_parts(p2);
        assert(j == p2[0] + seq!['_'] + join_parts(p2.drop_first()));
        let k = p2[0].len() as int;
        assert(j[k] == '_');
        assert(join_parts(p1) == p1[0]);
        assert(p1[0][k] != '_');
        assert(false);
    } else if p2.len() == 1 {
        let j = join_parts(p1);
        assert(j == p1[0] + seq!['_'] + join_parts(p1.drop_first()));
        let k = p1[0].len() as int;
        assert(j[k] == '_');
        assert(join_parts(p2) == p2[0]);
        assert(p2[0][k] != '_');
        assert(false);
    } else {
        let j1 = join_parts(p1);
        let j2 = join_parts(p2);
        assert(j1 == p1[0] + seq!['_'] + join_parts(p1.drop_first()));
        assert(j2 == p2[0] + seq!['_'] + join_parts(p2.drop_first()));
        let a = p1[0].len() as int;
        let b = p2[0].len() as int;
        assert(j1[a] == '_');
        assert(j2[b] == '_');
        if a < b {
            assert(j2[a] == p2[0][a]);
            assert(p2[0][a] != '_');
            assert(false);
        }
        if b < a {
            assert(j1[b] == p1[0][b]);
            assert(p1[0][b] != '_');
            assert(false);
        }
        lemma_append_split(
            p1[0] + seq!['_'],
            join_parts(p1.drop_first()),
            p2[0] + seq!['_'],
            join_parts(p2.drop_first()),
        );
        lemma_append_split(p1[0], seq!['_'], p2[0], seq!['_']);
        lemma_join_parts_injective(p1.drop_first(), p2.drop_first());
        assert(p1 =~= seq![p1[0]] + p1.drop_first());
        assert(p2 =~= seq![p2[0]] + p2.drop_first());
    }
}

proof fn lemma_join_parts_lower_len(p: Seq<Seq<char>>)
    requires
        p.len() > 0,
        forall|i: int| 0 <= i < p.len() ==> (#[trigger] p[i]).len() > 0,
    ensures
        join_parts(p).len() > 0,
{
}

// ---------------------------------------------------------------------------
// Indentation
// ---------------------------------------------------------------------------

/// Four spaces per indentation level.
pub open spec fn indent_text(n: nat) -> Seq<char>
    decreases n,
{
    if n == 0 {
        Seq::empty()
    } else {
        indent_text((n - 1) as nat) + "    "@
    }
}

} // verus!
