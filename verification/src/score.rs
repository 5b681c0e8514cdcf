//! Decimal parsing and formatting of the persisted top score.
//!
//! The score store itself is a plain file owned by the caller; what the
//! library owns is the exact meaning of its contents: a decimal number,
//! surrounded by optional ASCII whitespace.

use vstd::prelude::*;

verus! {

/// `c` is an ASCII decimal digit.
pub open spec fn is_digit(c: u8) -> bool {
    48 <= c <= 57
}

/// `c` is ASCII whitespace (space, tab, line feed, vertical tab, form
/// feed, or carriage return).
pub open spec fn is_space(c: u8) -> bool {
    c == 32 || c == 9 || c == 10 || c == 11 || c == 12 || c == 13
}

/// Every byte of `s` is a decimal digit.
pub open spec fn all_digits(s: Seq<u8>) -> bool {
    forall|j: int| 0 <= j < s.len() ==> is_digit(#[trigger] s[j])
}

/// The number a sequence of digit bytes denotes in decimal.
pub open spec fn digits_value(s: Seq<u8>) -> int
    decreases s.len(),
{
    if s.len() == 0 {
        0
    } else {
        digits_value(s.drop_last()) * 10 + (s.last() - 48)
    }
}

/// `s` without its leading whitespace.
pub open spec fn trim_front(s: Seq<u8>) -> Seq<u8>
    decreases s.len(),
{
    if s.len() > 0 && is_space(s.first()) {
        trim_front(s.drop_first())
    } else {
        s
    }
}

/// `s` without its trailing whitespace.
pub open spec fn trim_back(s: Seq<u8>) -> Seq<u8>
    decreases s.len(),
{
    if s.len() > 0 && is_space(s.last()) {
        trim_back(s.drop_last())
    } else {
        s
    }
}

/// `s` without leading and trailing whitespace.
pub open spec fn trimmed(s: Seq<u8>) -> Seq<u8> {
    trim_back(trim_front(s))
}

/// Ten to the `k`.
pub open spec fn pow10(k: nat) -> int
    decreases k,
{
    if k == 0 {
        1
    } else {
        10 * pow10((k - 1) as nat)
    }
}

/// Dropping leading whitespace leaves the suffix that starts at the first
/// non-space byte.
proof fn lemma_trim_front_at(s: Seq<u8>, k: int)
    requires
        0 <= k <= s.len(),
        forall|j: int| 0 <= j < k ==> is_space(#[trigger] s[j]),
        k == s.len() || !is_space(s[k]),
    ensures
        trim_front(s) == s.subrange(k, s.len() as int),
    decreases k,
{
    if k == 0 {
        assert(trim_front(s) =~= s.subrange(0, s.len() as int));
    } else {
        let t = s.drop_first();
        assert forall|j: int| 0 <= j < k - 1 implies is_space(#[trigger] t[j]) by {
            assert(t[j] == s[j + 1]);
        }
        lemma_trim_front_at(t, k - 1);
        assert(t.subrange(k - 1, t.len() as int) =~= s.subrange(k, s.len() as int));
    }
}

/// Dropping trailing whitespace leaves the prefix that ends after the
/// last non-space byte.
proof fn lemma_trim_back_at(s: Seq<u8>, k: int)
    requires
        0 <= k <= s.len(),
        forall|j: int| k <= j < s.len() ==> is_space(#[trigger] s[j]),
        k == 0 || !is_space(s[k - 1]),
    ensures
        trim_back(s) == s.subrange(0, k),
    decreases s.len(),
{
    if k == s.len() {
        assert(trim_back(s) =~= s.subrange(0, k));
    } else {
        let t = s.drop_last();
        assert(is_space(s.last()));
        lemma_trim_back_at(t, k);
        assert(t.subrange(0, k) =~= s.subrange(0, k));
    }
}

/// A nonempty run of digits is its own trimmed form.
pub proof fn lemma_trim_digits(s: Seq<u8>)
    requires
        all_digits(s),
    ensures
        trimmed(s) == s,
{
    if s.len() > 0 {
        assert(!is_space(s[0]));
        assert(!is_space(s[s.len() - 1]));
    }
    lemma_trim_front_at(s, 0);
    assert(s.subrange(0, s.len() as int) =~= s);
    lemma_trim_back_at(s, s.len() as int);
}

/// The value of a digit sequence is never negative.
proof fn lemma_digits_value_nonneg(s: Seq<u8>)
    requires
        all_digits(s),
    ensures
        digits_value(s) >= 0,
    decreases s.len(),
{
    if s.len() > 0 {
        assert(all_digits(s.drop_last())) by {
            assert(forall|j: int|
                0 <= j < s.len() - 1 ==> is_digit(#[trigger] s.drop_last()[j]) && s.drop_last()[j]
                    == s[j]);
        }
        lemma_digits_value_nonneg(s.drop_last());
    }
}

/// A digit sequence is worth at least any of its prefixes.
proof fn lemma_digits_value_mono(s: Seq<u8>, k: int)
    requires
        all_digits(s),
        0 <= k <= s.len(),
    ensures
        digits_value(s) >= digits_value(s.subrange(0, k)),
    decreases s.len() - k,
{
    if k == s.len() {
        assert(s.subrange(0, k) =~= s);
    } else {
        lemma_digits_value_mono(s, k + 1);
        let longer = s.subrange(0, k + 1);
        assert(all_digits(longer)) by {
            assert(forall|j: int| 0 <= j < k + 1 ==> #[trigger] longer[j] == s[j]);
        }
        assert(longer.drop_last() =~= s.subrange(0, k));
        assert(all_digits(s.subrange(0, k))) by {
            assert(forall|j: int| 0 <= j < k ==> #[trigger] s.subrange(0, k)[j] == s[j]);
        }
        lemma_digits_value_nonneg(s.subrange(0, k));
        assert(digits_value(longer) == digits_value(s.subrange(0, k)) * 10 + (s[k] - 48));
        assert(digits_value(s.subrange(0, k)) * 10 >= digits_value(s.subrange(0, k))) by (
        nonlinear_arith)
            requires
                digits_value(s.subrange(0, k)) >= 0,
        ;
    }
}

/// Prepending one digit multiplies the rest by the matching power of ten.
proof fn lemma_digits_value_cons(d: u8, t: Seq<u8>)
    ensures
        digits_value(seq![d] + t) == (d - 48) * pow10(t.len()) + digits_value(t),
    decreases t.len(),
{
    if t.len() == 0 {
        assert(seq![d] + t =~= seq![d]);
        assert(seq![d].drop_last() =~= Seq::<u8>::empty());
        assert(digits_value(Seq::<u8>::empty()) == 0);
        assert(digits_value(seq![d]) == d - 48);
    } else {
        let u = seq![d] + t;
        assert(u.drop_last() =~= seq![d] + t.drop_last());
        lemma_digits_value_cons(d, t.drop_last());
        assert(digits_value(u) == digits_value(seq![d] + t.drop_last()) * 10 + (t.last() - 48));
        assert(((d - 48) * pow10((t.len() - 1) as nat) + digits_value(t.drop_last())) * 10 == (d
            - 48) * (10 * pow10((t.len() - 1) as nat)) + digits_value(t.drop_last()) * 10) by (
        nonlinear_arith);
    }
}

/// Whether `b` is an ASCII whitespace byte.
fn is_space_byte(b: u8) -> (r: bool)
    ensures
        r == is_space(b),
{
    b == 32 || b == 9 || b == 10 || b == 11 || b == 12 || b == 13
}

/// Parse a decimal score: the bytes, less surrounding ASCII whitespace,
/// must be a nonempty run of digits whose value fits in a `u32`;
/// otherwise nothing is returned.
pub fn parse_score(bytes: &[u8]) -> (r: Option<u32>)
    ensures
        r == if trimmed(bytes@).len() > 0 && all_digits(trimmed(bytes@)) && digits_value(
            trimmed(bytes@),
        ) <= u32::MAX {
            Some(digits_value(trimmed(bytes@)) as u32)
        } else {
            None::<u32>
        },
{
    let n = bytes.len();
    let mut lo: usize = 0;
    while lo < n && is_space_byte(bytes[lo])
        invariant
            n == bytes@.len(),
            0 <= lo <= n,
            forall|j: int| 0 <= j < lo ==> is_space(#[trigger] bytes@[j]),
        decreases n - lo,
    {
        lo = lo + 1;
    }
    proof {
        lemma_trim_front_at(bytes@, lo as int);
    }
    let mut hi: usize = n;
    while hi > lo && is_space_byte(bytes[hi - 1])
        invariant
            n == bytes@.len(),
            0 <= lo <= hi <= n,
            forall|j: int| 0 <= j < lo ==> is_space(#[trigger] bytes@[j]),
            forall|j: int| hi <= j < n ==> is_space(#[trigger] bytes@[j]),
        decreases hi,
    {
        hi = hi - 1;
    }
    let ghost front = bytes@.subrange(lo as int, n as int);
    let ghost t = bytes@.subrange(lo as int, hi as int);
    proof {
        assert forall|j: int| hi - lo <= j < front.len() implies is_space(
            #[trigger] front[j],
        ) by {
            assert(front[j] == bytes@[j + lo]);
        }
        if hi > lo {
            assert(!is_space(front[hi - lo - 1]));
        }
        lemma_trim_back_at(front, hi - lo);
        assert(front.subrange(0, hi - lo) =~= t);
        assert(trimmed(bytes@) == t);
    }
    if lo == hi {
        return None;
    }
    let mut acc: u32 = 0;
    let mut i: usize = lo;
    while i < hi
        invariant
            n == bytes@.len(),
            0 <= lo <= i <= hi <= n,
            lo < hi,
            t == bytes@.subrange(lo as int, hi as int),
            trimmed(bytes@) == t,
            forall|j: int| 0 <= j < i - lo ==> is_digit(#[trigger] t[j]),
            acc == digits_value(t.subrange(0, i - lo)),
        decreases hi - i,
    {
        let b = bytes[i];
        if b < 48 || b > 57 {
            proof {
                assert(t[i - lo] == bytes@[i as int]);
                assert(!is_digit(t[i - lo]));
                assert(!all_digits(t));
            }
            return None;
        }
        let d: u32 = (b - 48) as u32;
        proof {
            assert(t.subrange(0, i - lo + 1).drop_last() =~= t.subrange(0, i - lo));
            assert(t.subrange(0, i - lo + 1).last() == bytes@[i as int]);
        }
        if acc > (u32::MAX - d) / 10 {
            proof {
                let prefix = t.subrange(0, i - lo + 1);
                assert(digits_value(prefix) == acc * 10 + d);
                assert(acc * 10 + d > u32::MAX) by (nonlinear_arith)
                    requires
                        acc > (u32::MAX - d) / 10,
                        0 <= d <= 9,
                        acc <= u32::MAX,
                ;
                if all_digits(t) {
                    lemma_digits_value_mono(t, i - lo + 1);
                    assert(digits_value(t) > u32::MAX);
                }
            }
            return None;
        }
        proof {
            assert(acc * 10 + d <= u32::MAX) by (nonlinear_arith)
                requires
                    acc <= (u32::MAX - d) / 10,
                    0 <= d <= 9,
            ;
        }
        acc = acc * 10 + d;
        i = i + 1;
    }
    proof {
        assert(t.subrange(0, hi - lo) =~= t);
        assert(all_digits(t));
    }
    Some(acc)
}

/// Format a score as its decimal digits, with no sign, no padding and no
/// leading zero.
pub fn format_score(score: u32) -> (r: Vec<u8>)
    ensures
        r@.len() >= 1,
        all_digits(r@),
        digits_value(r@) == score,
        r@.len() > 1 ==> r@[0] != 48,
{
    if score == 0 {
        let mut r: Vec<u8> = Vec::new();
        r.push(48);
        proof {
            assert(r@ =~= seq![48u8]);
            assert(seq![48u8].drop_last() =~= Seq::<u8>::empty());
            assert(digits_value(Seq::<u8>::empty()) == 0);
            assert(digits_value(seq![48u8]) == 0);
        }
        return r;
    }
    let mut rev: Vec<u8> = Vec::new();
    let mut m: u32 = score;
    while m > 0
        invariant
            all_digits(rev@),
            score == digits_value(rev@.reverse()) + m * pow10(rev@.len()),
            m == 0 ==> rev@.len() > 0,
            (m == 0 && rev@.len() > 0) ==> rev@.reverse()[0] != 48,
            rev@.len() > 0 || m > 0,
        decreases m,
    {
        let d: u8 = (m % 10) as u8;
        let ghost rev0 = rev@;
        let ghost m0 = m;
        rev.push(d + 48);
        m = m / 10;
        proof {
            assert(rev@.reverse() =~= seq![(d + 48) as u8] + rev0.reverse());
            lemma_digits_value_cons((d + 48) as u8, rev0.reverse());
            assert(rev0.reverse().len() == rev0.len());
            assert(m0 == (m0 / 10) * 10 + (m0 % 10)) by (nonlinear_arith)
                requires
                    m0 > 0,
            ;
            assert((m0 as int) * pow10(rev0.len()) == (m0 as int / 10) * (10 * pow10(rev0.len()))
                + (m0 as int % 10) * pow10(rev0.len())) by (nonlinear_arith);
            assert(pow10(rev@.len()) == 10 * pow10(rev0.len()));
            if m == 0 {
                assert(m0 <= 9);
                assert(d == m0);
                assert(rev@.reverse()[0] == d + 48);
            }
        }
    }
    let mut r: Vec<u8> = Vec::new();
    let mut k: usize = rev.len();
    while k > 0
        invariant
            k <= rev@.len(),
            r@.len() == rev@.len() - k,
            forall|j: int| 0 <= j < r@.len() ==> #[trigger] r@[j] == rev@.reverse()[j],
        decreases k,
    {
        k = k - 1;
        r.push(rev[k]);
    }
    proof {
        assert(r@ =~= rev@.reverse());
    }
    r
}

} // verus!
