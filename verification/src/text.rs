//! Character-level helpers: CSS whitespace, trimming, and decimal text of
//! integers. Reconstructed token text is built as a sequence of characters
//! and turned into an owned `String` only at the syntax-node boundary.
use vstd::prelude::*;

verus! {

/// The CSS whitespace characters: space, tab, line feed, carriage return
/// and form feed.
pub open spec fn is_css_ws(c: char) -> bool {
    c == ' ' || c == '\t' || c == '\n' || c == '\r' || c == '\u{c}'
}

/// `s` without its leading whitespace.
pub open spec fn ltrim(s: Seq<char>) -> Seq<char>
    decreases s.len(),
{
    if s.len() > 0 && is_css_ws(s[0]) {
        ltrim(s.drop_first())
    } else {
        s
    }
}

/// `s` without its trailing whitespace.
pub open spec fn rtrim(s: Seq<char>) -> Seq<char>
    decreases s.len(),
{
    if s.len() > 0 && is_css_ws(s.last()) {
        rtrim(s.drop_last())
    } else {
        s
    }
}

/// `s` without leading and trailing whitespace.
pub open spec fn trim(s: Seq<char>) -> Seq<char> {
    rtrim(ltrim(s))
}

/// The decimal digit character for `d` (meaningful for `d < 10`).
pub open spec fn digit_char(d: nat) -> char {
    ((d + 48) as u8) as char
}

/// The decimal digits of `n`, most significant first.
pub open spec fn dec_digits(n: nat) -> Seq<char>
    decreases n,
{
    if n < 10 {
        seq![digit_char(n)]
    } else {
        dec_digits(n / 10) + seq![digit_char(n % 10)]
    }
}

/// The decimal text of an integer, with a leading `-` when negative.
pub open spec fn dec_int(n: int) -> Seq<char> {
    if n < 0 {
        seq!['-'] + dec_digits((-n) as nat)
    } else {
        dec_digits(n as nat)
    }
}

fn is_ws(c: char) -> (b: bool)
    ensures
        b == is_css_ws(c),
{
    c == ' ' || c == '\t' || c == '\n' || c == '\r' || c == '\u{c}'
}

proof fn lemma_reverse_push(s: Seq<char>, x: char)
    ensures
        s.push(x).reverse() == seq![x] + s.reverse(),
{
    assert(s.push(x).reverse() =~= seq![x] + s.reverse());
}

/// Appends the decimal digits of `n` to `acc`.
pub fn push_dec_u64(acc: &mut Vec<char>, n: u64)
    ensures
        final(acc)@ == old(acc)@ + dec_digits(n as nat),
{
    let mut ds: Vec<char> = Vec::new();
    let mut m: u64 = n;
    loop
        invariant_except_break
            dec_digits(n as nat) == dec_digits(m as nat) + ds@.reverse(),
        ensures
            dec_digits(n as nat) == ds@.reverse(),
        decreases m,
    {
        let d: u64 = m % 10;
        let ghost ds0 = ds@;
        let ghost m0 = m as nat;
        ds.push(((d as u8) + 48) as char);
        proof {
            lemma_reverse_push(ds0, digit_char(m0 % 10));
            assert(ds@.reverse() == seq![digit_char(m0 % 10)] + ds0.reverse());
        }
        m = m / 10;
        if m == 0 {
            proof {
                assert(m0 < 10) by {
                    assert(m0 >= 10 ==> m0 / 10 >= 1) by (nonlinear_arith);
                }
                assert(dec_digits(m0) == seq![digit_char(m0)]);
                assert(dec_digits(n as nat) =~= ds@.reverse());
            }
            break;
        }
        proof {
            assert(m0 >= 10) by {
                assert(m0 < 10 ==> m0 / 10 == 0) by (nonlinear_arith);
            }
            assert(dec_digits(m0) == dec_digits(m0 / 10) + seq![digit_char(m0 % 10)]);
            assert(dec_digits(m as nat) + ds@.reverse()
                =~= (dec_digits(m0 / 10) + seq![digit_char(m0 % 10)]) + ds0.reverse());
        }
    }
    let ghost acc0 = acc@;
    let mut j: usize = ds.len();
    while j > 0
        invariant
            j <= ds@.len(),
            acc@ == acc0 + ds@.reverse().take(ds@.len() - j),
        decreases j,
    {
        j = j - 1;
        acc.push(ds[j]);
        proof {
            assert(ds@.reverse()[ds@.len() - j - 1] == ds@[j as int]);
            assert(acc@ =~= acc0 + ds@.reverse().take(ds@.len() - j));
        }
    }
    proof {
        assert(ds@.reverse().take(ds@.len() as int) =~= ds@.reverse());
        assert(acc@ == old(acc)@ + dec_digits(n as nat));
    }
}

/// Appends the decimal text of `n`, with a `-` sign when negative, to `acc`.
pub fn push_dec_i32(acc: &mut Vec<char>, n: i32)
    ensures
        final(acc)@ == old(acc)@ + dec_int(n as int),
{
    if n < 0 {
        acc.push('-');
        let m: u64 = (-(n as i64)) as u64;
        push_dec_u64(acc, m);
        proof {
            assert(m as nat == (-(n as int)) as nat);
            assert(acc@ =~= old(acc)@ + dec_int(n as int));
        }
    } else {
        push_dec_u64(acc, n as u64);
    }
}

proof fn lemma_ltrim_at(s: Seq<char>, k: int)
    requires
        0 <= k <= s.len(),
        forall|j: int| 0 <= j < k ==> is_css_ws(s[j]),
        k == s.len() || !is_css_ws(s[k]),
    ensures
        ltrim(s) == s.subrange(k, s.len() as int),
    decreases k,
{
    if k == 0 {
        assert(ltrim(s) =~= s.subrange(0, s.len() as int)) by {
            if s.len() > 0 && is_css_ws(s[0]) {
                assert(false);
            }
            assert(s =~= s.subrange(0, s.len() as int));
        }
    } else {
        assert(is_css_ws(s[0]));
        let t = s.drop_first();
        assert(forall|j: int| 0 <= j < k - 1 ==> is_css_ws(t[j]));
        lemma_ltrim_at(t, k - 1);
        assert(t.subrange(k - 1, t.len() as int) =~= s.subrange(k, s.len() as int));
    }
}

proof fn lemma_rtrim_at(s: Seq<char>, k: int)
    requires
        0 <= k <= s.len(),
        forall|j: int| k <= j < s.len() ==> is_css_ws(s[j]),
        k == 0 || !is_css_ws(s[k - 1]),
    ensures
        rtrim(s) == s.subrange(0, k),
    decreases s.len(),
{
    if k == s.len() {
        assert(rtrim(s) =~= s.subrange(0, k)) by {
            if s.len() > 0 && is_css_ws(s.last()) {
                assert(false);
            }
            assert(s =~= s.subrange(0, k));
        }
    } else {
        assert(is_css_ws(s.last()));
        let t = s.drop_last();
        lemma_rtrim_at(t, k);
        assert(t.subrange(0, k) =~= s.subrange(0, k));
    }
}

/// `v` with leading and trailing whitespace removed.
pub fn trim_chars(v: &Vec<char>) -> (r: Vec<char>)
    ensures
        r@ == trim(v@),
{
    let n = v.len();
    let mut lo: usize = 0;
    while lo < n && is_ws(v[lo])
        invariant
            lo <= n == v@.len(),
            forall|j: int| 0 <= j < lo ==> is_css_ws(v@[j]),
        decreases n - lo,
    {
        lo = lo + 1;
    }
    let mut hi: usize = n;
    while hi > lo && is_ws(v[hi - 1])
        invariant
            lo <= hi <= n == v@.len(),
            forall|j: int| 0 <= j < lo ==> is_css_ws(v@[j]),
            forall|j: int| hi <= j < n ==> is_css_ws(v@[j]),
        decreases hi,
    {
        hi = hi - 1;
    }
    let mut r: Vec<char> = Vec::new();
    let mut i: usize = lo;
    while i < hi
        invariant
            lo <= i <= hi <= v@.len(),
            r@ == v@.subrange(lo as int, i as int),
        decreases hi - i,
    {
        r.push(v[i]);
        i = i + 1;
        proof {
            assert(r@ =~= v@.subrange(lo as int, i as int));
        }
    }
    proof {
        lemma_ltrim_at(v@, lo as int);
        let u = v@.subrange(lo as int, v@.len() as int);
        lemma_rtrim_at(u, hi - lo);
        assert(u.subrange(0, hi - lo) =~= v@.subrange(lo as int, hi as int));
    }
    r
}

/// Relies on `String`'s `FromIterator<char>` impl from std: collecting
/// characters yields the string of exactly those characters, in order.
#[verifier::external_body]
pub fn chars_to_string(v: &Vec<char>) -> (r: String)
    ensures
        r@ == v@,
{
    v.iter().collect()
}

} // verus!
