//! Decimal numerals: the canonical base-ten spelling of a number, an
//! executable printer for it, and the lemmas that make the spelling
//! parseable back into the number it came from.

use vstd::prelude::*;
use vstd::string::StrSliceExecFns;
use vstd::string::StringExecFns;

verus! {

/// True of the ten ASCII digit characters.
pub open spec fn is_digit(c: char) -> bool {
    ('0' as int) <= (c as int) && (c as int) <= ('9' as int)
}

/// The numeric value of a digit character.
pub open spec fn digit_val(c: char) -> nat {
    ((c as int) - ('0' as int)) as nat
}

/// The digit character for a value below ten.
pub open spec fn digit_char(d: nat) -> char {
    if d == 0 {
        '0'
    } else if d == 1 {
        '1'
    } else if d == 2 {
        '2'
    } else if d == 3 {
        '3'
    } else if d == 4 {
        '4'
    } else if d == 5 {
        '5'
    } else if d == 6 {
        '6'
    } else if d == 7 {
        '7'
    } else if d == 8 {
        '8'
    } else {
        '9'
    }
}

/// The canonical decimal spelling of `n`: no leading zeros, and `0` for zero.
pub open spec fn dec_rep(n: nat) -> Seq<char>
    decreases n,
{
    if n < 10 {
        seq![digit_char(n)]
    } else {
        dec_rep(n / 10).push(digit_char(n % 10))
    }
}

/// The number spelled by a sequence of digit characters.
pub open spec fn dec_val(ds: Seq<char>) -> nat
    decreases ds.len(),
{
    if ds.len() == 0 {
        0
    } else {
        dec_val(ds.drop_last()) * 10 + digit_val(ds.last())
    }
}

/// True when every character in `ds` is a digit.
pub open spec fn all_digits(ds: Seq<char>) -> bool {
    forall|i: int| 0 <= i < ds.len() ==> is_digit(ds[i])
}

proof fn lemma_digit_char_is_digit(d: nat)
    requires
        d < 10,
    ensures
        is_digit(digit_char(d)),
        digit_val(digit_char(d)) == d,
        d > 0 ==> digit_char(d) != '0',
{
}

/// The canonical spelling consists of digits and is never empty.
pub proof fn lemma_dec_rep_digits(n: nat)
    ensures
        dec_rep(n).len() >= 1,
        all_digits(dec_rep(n)),
        n > 0 ==> dec_rep(n)[0] != '0',
        n < 10 ==> dec_rep(n).len() == 1,
    decreases n,
{
    if n < 10 {
        lemma_digit_char_is_digit(n);
        assert(dec_rep(n) =~= seq![digit_char(n)]);
    } else {
        lemma_dec_rep_digits(n / 10);
        lemma_digit_char_is_digit(n % 10);
        assert(dec_rep(n) == dec_rep(n / 10).push(digit_char(n % 10)));
        assert(dec_rep(n)[0] == dec_rep(n / 10)[0]);
        assert forall|i: int| 0 <= i < dec_rep(n).len() implies is_digit(dec_rep(n)[i]) by {
            if i < dec_rep(n / 10).len() {
                assert(dec_rep(n)[i] == dec_rep(n / 10)[i]);
            }
        }
    }
}

/// Printing and then evaluating a number gives the number back.
pub proof fn lemma_dec_val_of_rep(n: nat)
    ensures
        dec_val(dec_rep(n)) == n,
    decreases n,
{
    if n < 10 {
        lemma_digit_char_is_digit(n);
        let ds = dec_rep(n);
        assert(ds == seq![digit_char(n)]);
        assert(ds.len() == 1);
        assert(ds.last() == digit_char(n));
        assert(ds.drop_last() =~= Seq::<char>::empty());
        assert(dec_val(ds.drop_last()) == 0);
        assert(dec_val(ds) == 0 * 10 + digit_val(ds.last()));
    } else {
        lemma_dec_val_of_rep(n / 10);
        lemma_digit_char_is_digit(n % 10);
        let ds = dec_rep(n);
        assert(ds.drop_last() =~= dec_rep(n / 10));
        assert(dec_val(ds) == (n / 10) * 10 + n % 10);
        assert(n == (n / 10) * 10 + n % 10) by {
            vstd::arithmetic::div_mod::lemma_fundamental_div_mod(n as int, 10);
        }
    }
}

/// The number of leading digit characters of `s`.
pub open spec fn digit_prefix_len(s: Seq<char>) -> nat
    decreases s.len(),
{
    if s.len() > 0 && is_digit(s[0]) {
        1 + digit_prefix_len(s.skip(1))
    } else {
        0
    }
}

/// Reads a canonical decimal numeral from the front of `s`: the value of
/// the digit prefix and the remaining characters. Fails when there is no
/// digit, when the numeral has a leading zero, or when the value does not
/// fit a `usize`.
pub open spec fn parse_num(s: Seq<char>) -> Option<(nat, Seq<char>)> {
    let k = digit_prefix_len(s) as int;
    if k == 0 {
        None
    } else {
        let ds = s.take(k);
        if (ds.len() == 1 || ds[0] != '0') && dec_val(ds) <= usize::MAX as nat {
            Some((dec_val(ds), s.skip(k)))
        } else {
            None
        }
    }
}

/// The digit prefix never reaches past the end.
pub proof fn lemma_dpl_le(s: Seq<char>)
    ensures
        digit_prefix_len(s) <= s.len(),
    decreases s.len(),
{
    if s.len() > 0 && is_digit(s[0]) {
        lemma_dpl_le(s.skip(1));
    }
}

/// When `a` is all digits and `b` does not begin with one, the digit
/// prefix of their concatenation is exactly `a`.
pub proof fn lemma_dpl_concat(a: Seq<char>, b: Seq<char>)
    requires
        all_digits(a),
        b.len() == 0 || !is_digit(b[0]),
    ensures
        digit_prefix_len(a + b) == a.len(),
    decreases a.len(),
{
    if a.len() == 0 {
        assert(a + b =~= b);
    } else {
        assert((a + b)[0] == a[0]);
        assert((a + b).skip(1) =~= a.skip(1) + b);
        assert(all_digits(a.skip(1)));
        lemma_dpl_concat(a.skip(1), b);
    }
}

/// At least `m` digits at the front means a digit prefix of at least `m`.
pub proof fn lemma_dpl_min(s: Seq<char>, m: nat)
    requires
        m <= s.len(),
        forall|p: int| 0 <= p < m ==> is_digit(s[p]),
    ensures
        digit_prefix_len(s) >= m,
    decreases m,
{
    if m > 0 {
        assert(is_digit(s[0]));
        assert(forall|p: int| 0 <= p < m - 1 ==> is_digit(s.skip(1)[p]));
        lemma_dpl_min(s.skip(1), (m - 1) as nat);
    }
}

/// The value of a digit string only grows as more digits are read.
pub proof fn lemma_dec_val_take(ds: Seq<char>, m: int)
    requires
        0 <= m <= ds.len(),
    ensures
        dec_val(ds.take(m)) <= dec_val(ds),
    decreases ds.len(),
{
    if m == ds.len() {
        assert(ds.take(m) =~= ds);
    } else {
        assert(ds.drop_last().take(m) =~= ds.take(m));
        lemma_dec_val_take(ds.drop_last(), m);
    }
}

/// Reading back a printed numeral yields the number and the untouched
/// remainder, whenever the remainder does not begin with a digit.
pub proof fn lemma_parse_num_of_rep(n: nat, b: Seq<char>)
    requires
        b.len() == 0 || !is_digit(b[0]),
        n <= usize::MAX as nat,
    ensures
        parse_num(dec_rep(n) + b) == Some((n, b)),
{
    lemma_dec_rep_digits(n);
    lemma_dec_val_of_rep(n);
    let a = dec_rep(n);
    lemma_dpl_concat(a, b);
    let s = a + b;
    let k = a.len() as int;
    assert(s.take(k) =~= a);
    assert(s.skip(k) =~= b);
    if n > 0 {
        assert(s.take(k)[0] != '0');
    } else {
        assert(s.take(k).len() == 1);
    }
}

/// Appends the decimal digit for `d` to `out`.
fn push_digit(out: &mut String, d: usize)
    requires
        d < 10,
    ensures
        final(out)@ == old(out)@.push(digit_char(d as nat)),
{
    let s: &str = if d == 0 {
        "0"
    } else if d == 1 {
        "1"
    } else if d == 2 {
        "2"
    } else if d == 3 {
        "3"
    } else if d == 4 {
        "4"
    } else if d == 5 {
        "5"
    } else if d == 6 {
        "6"
    } else if d == 7 {
        "7"
    } else if d == 8 {
        "8"
    } else {
        "9"
    };
    proof {
        reveal_strlit("0");
        reveal_strlit("1");
        reveal_strlit("2");
        reveal_strlit("3");
        reveal_strlit("4");
        reveal_strlit("5");
        reveal_strlit("6");
        reveal_strlit("7");
        reveal_strlit("8");
        reveal_strlit("9");
    }
    out.append(s);
    proof {
        assert(out@ =~= old(out)@.push(digit_char(d as nat)));
    }
}

/// Whether `c` is an ASCII digit; mirrors `is_digit`.
fn digit_check(c: char) -> (b: bool)
    ensures
        b == is_digit(c),
{
    let u = c as u32;
    ('0' as u32) <= u && u <= ('9' as u32)
}

/// The numeric value of a digit character; mirrors `digit_val`.
fn digit_value(c: char) -> (d: usize)
    requires
        is_digit(c),
    ensures
        d as nat == digit_val(c),
        d < 10,
{
    ((c as u32) - ('0' as u32)) as usize
}

/// Reads a canonical decimal numeral from `s` starting at character
/// position `i`; returns the value and the position after the numeral.
/// Mirrors `parse_num` on the remaining characters.
#[verifier::loop_isolation(false)]
pub fn parse_num_at(s: &str, n: usize, i: usize) -> (r: Option<(usize, usize)>)
    requires
        n == s@.len(),
        i <= n,
    ensures
        r matches Some((v, j)) ==> i < j <= n && parse_num(s@.skip(i as int)) == Some(
            (v as nat, s@.skip(j as int)),
        ),
        r is None ==> parse_num(s@.skip(i as int)) is None,
{
    let ghost t = s@.skip(i as int);
    if i >= n || !digit_check(s.get_char(i)) {
        proof {
            if i < n {
                assert(t[0] == s@[i as int]);
            }
            assert(digit_prefix_len(t) == 0);
        }
        return None;
    }
    let c0 = s.get_char(i);
    proof {
        assert(t[0] == s@[i as int]);
    }
    let d0 = digit_value(c0);
    if d0 == 0 {
        // a canonical numeral with leading zero is just "0"
        if i + 1 < n && digit_check(s.get_char(i + 1)) {
            proof {
                assert(t[1] == s@[i + 1]);
                lemma_dpl_min(t, 2);
                lemma_dpl_le(t);
                let k = digit_prefix_len(t) as int;
                assert(t.take(k).len() >= 2);
                assert(t.take(k)[0] == '0');
            }
            return None;
        }
        proof {
            assert(forall|p: int| 0 <= p < 1 ==> is_digit(t[p]));
            lemma_dpl_min(t, 1);
            assert(t.skip(1) =~= s@.skip(i + 1));
            if i + 1 < n {
                assert(t.skip(1)[0] == s@[i + 1]);
            }
            assert(digit_prefix_len(t) == 1 + digit_prefix_len(t.skip(1)));
            assert(digit_prefix_len(t.skip(1)) == 0);
            let ds = t.take(1);
            assert(ds =~= seq![t[0]]);
            assert(ds.drop_last() =~= Seq::<char>::empty());
            assert(dec_val(ds.drop_last()) == 0);
            assert(ds.last() == t[0]);
            assert(dec_val(ds) == 0 * 10 + digit_val(t[0]));
            assert(dec_val(ds) == 0);
        }
        return Some((0, i + 1));
    }
    let mut acc: usize = d0;
    let mut j: usize = i + 1;
    proof {
        let ghost ds0 = s@.subrange(i as int, j as int);
        assert(ds0 =~= seq![s@[i as int]]);
        assert(ds0.drop_last() =~= Seq::<char>::empty());
        assert(dec_val(ds0.drop_last()) == 0);
        assert(ds0.last() == s@[i as int]);
        assert(dec_val(ds0) == 0 * 10 + digit_val(s@[i as int]));
        assert(acc as nat == dec_val(ds0));
    }
    while j < n && digit_check(s.get_char(j))
        invariant
            i < j <= n,
            forall|p: int| i <= p < j ==> is_digit(s@[p]),
            acc as nat == dec_val(s@.subrange(i as int, j as int)),
            s@[i as int] != '0',
        decreases n - j,
    {
        let c = s.get_char(j);
        let d = digit_value(c);
        let ghost pre = s@.subrange(i as int, j as int);
        let ghost ext = s@.subrange(i as int, j as int + 1);
        proof {
            assert(ext.drop_last() =~= pre);
            assert(ext.last() == s@[j as int]);
            assert(dec_val(ext) == dec_val(pre) * 10 + digit_val(s@[j as int]));
        }
        if acc > usize::MAX / 10 || (acc == usize::MAX / 10 && d > usize::MAX % 10) {
            proof {
                assert(dec_val(ext) > usize::MAX as nat) by {
                    vstd::arithmetic::div_mod::lemma_fundamental_div_mod(usize::MAX as int, 10);
                }
                lemma_dpl_le(t);
                let k = digit_prefix_len(t) as int;
                let ds = t.take(k);
                assert(forall|p: int| i <= p < j + 1 ==> is_digit(s@[p]));
                assert(forall|p: int| 0 <= p < j + 1 - i ==> is_digit(t[p]));
                lemma_dpl_min(t, (j + 1 - i) as nat);
                assert(ds.take(j + 1 - i) =~= ext);
                lemma_dec_val_take(ds, j + 1 - i);
                assert(dec_val(ds) > usize::MAX as nat);
            }
            return None;
        }
        acc = acc * 10 + d;
        j = j + 1;
    }
    proof {
        let ds = s@.subrange(i as int, j as int);
        assert(forall|p: int| 0 <= p < ds.len() ==> is_digit(ds[p]));
        assert(t =~= ds + s@.skip(j as int));
        if j < n {
            assert(s@.skip(j as int)[0] == s@[j as int]);
            assert(!is_digit(s@[j as int]));
        }
        lemma_dpl_concat(ds, s@.skip(j as int));
        let k = digit_prefix_len(t) as int;
        assert(k == ds.len());
        assert(t.take(k) =~= ds);
        assert(t.skip(k) =~= s@.skip(j as int));
        assert(ds[0] == s@[i as int]);
    }
    Some((acc, j))
}

/// Writes `n` in canonical decimal notation.
pub fn to_decimal(n: usize) -> (r: String)
    ensures
        r@ == dec_rep(n as nat),
    decreases n,
{
    if n < 10 {
        let mut out = String::new();
        push_digit(&mut out, n);
        proof {
            assert(out@ =~= dec_rep(n as nat));
        }
        out
    } else {
        let mut out = to_decimal(n / 10);
        push_digit(&mut out, n % 10);
        out
    }
}

} // verus!
