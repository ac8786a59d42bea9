//! Verified text primitives: substring search, whitespace trimming, decimal
//! integer parsing with a lenient default, and substring replacement. These
//! carry the expression evaluator and the template substitution.

use vstd::prelude::*;

verus! {

/// The pattern `pat` occurs in `s` starting at position `i`.
pub open spec fn occurs_at(s: Seq<char>, pat: Seq<char>, i: int) -> bool {
    0 <= i && i + pat.len() <= s.len() && s.subrange(i, i + pat.len()) == pat
}

/// `s` contains `pat` somewhere.
pub open spec fn contains_pat(s: Seq<char>, pat: Seq<char>) -> bool {
    exists|i: int| occurs_at(s, pat, i)
}

/// The position of the first occurrence of `pat` in `s`, if any.
pub open spec fn first_occurrence(s: Seq<char>, pat: Seq<char>) -> Option<int>
    decreases s.len(),
{
    if occurs_at(s, pat, 0) {
        Some(0)
    } else if s.len() == 0 {
        None
    } else {
        match first_occurrence(s.drop_first(), pat) {
            Some(j) => Some(j + 1),
            None => None,
        }
    }
}

/// `first_occurrence` returns exactly the least position at which `pat`
/// occurs, and `None` exactly when there is none.
pub proof fn lemma_first_occurrence(s: Seq<char>, pat: Seq<char>)
    ensures
        match first_occurrence(s, pat) {
            Some(i) => occurs_at(s, pat, i) && forall|j: int| 0 <= j < i ==> !occurs_at(s, pat, j),
            None => forall|j: int| !occurs_at(s, pat, j),
        },
    decreases s.len(),
{
    if occurs_at(s, pat, 0) {
    } else if s.len() == 0 {
        assert forall|j: int| !occurs_at(s, pat, j) by {}
    } else {
        lemma_first_occurrence(s.drop_first(), pat);
        let t = s.drop_first();
        assert forall|j: int| 1 <= j && occurs_at(s, pat, j) implies occurs_at(t, pat, j - 1) by {
            assert(t.subrange(j - 1, j - 1 + pat.len()) =~= s.subrange(j, j + pat.len()));
        }
        assert forall|j: int| 0 <= j && occurs_at(t, pat, j) implies occurs_at(s, pat, j + 1) by {
            assert(s.subrange(j + 1, j + 1 + pat.len()) =~= t.subrange(j, j + pat.len()));
        }
        match first_occurrence(t, pat) {
            Some(j) => {
                assert(occurs_at(s, pat, j + 1));
            }
            None => {
                assert forall|j: int| !occurs_at(s, pat, j) by {
                    if 1 <= j && occurs_at(s, pat, j) {
                        assert(occurs_at(t, pat, j - 1));
                    }
                }
            }
        }
    }
}

/// Whether `pat` occurs at position `i` of `s`, decided by comparing
/// characters.
fn match_at(s: &str, pat: &str, i: usize, n: usize, m: usize) -> (r: bool)
    requires
        n == s@.len(),
        m == pat@.len(),
        i + m <= n,
    ensures
        r == occurs_at(s@, pat@, i as int),
{
    let mut k: usize = 0;
    while k < m
        invariant
            n == s@.len(),
            m == pat@.len(),
            i + m <= n,
            0 <= k <= m,
            forall|t: int| 0 <= t < k ==> s@[i + t] == pat@[t],
        decreases m - k,
    {
        if s.get_char(i + k) != pat.get_char(k) {
            assert(!occurs_at(s@, pat@, i as int)) by {
                if occurs_at(s@, pat@, i as int) {
                    assert(s@.subrange(i as int, i + pat@.len())[k as int] == pat@[k as int]);
                }
            }
            return false;
        }
        k = k + 1;
    }
    assert(s@.subrange(i as int, i + pat@.len()) =~= pat@);
    true
}

/// The least position at which `pat` occurs in `s`, or `None` when `s` does
/// not contain `pat`.
pub fn find_first(s: &str, pat: &str) -> (r: Option<usize>)
    ensures
        match r {
            Some(i) => first_occurrence(s@, pat@) == Some(i as int) && occurs_at(
                s@,
                pat@,
                i as int,
            ),
            None => first_occurrence(s@, pat@) is None && !contains_pat(s@, pat@),
        },
{
    proof {
        lemma_first_occurrence(s@, pat@);
    }
    let n = s.unicode_len();
    let m = pat.unicode_len();
    if m > n {
        assert forall|j: int| !occurs_at(s@, pat@, j) by {}
        return None;
    }
    if m == 0 {
        assert(occurs_at(s@, pat@, 0)) by {
            assert(s@.subrange(0, 0) =~= pat@);
        }
        return Some(0);
    }
    let mut i: usize = 0;
    while i <= n - m
        invariant
            n == s@.len(),
            m == pat@.len(),
            0 < m <= n,
            0 <= i <= n - m + 1,
            forall|j: int| 0 <= j < i ==> !occurs_at(s@, pat@, j),
        decreases n - i,
    {
        if match_at(s, pat, i, n, m) {
            proof {
                lemma_first_occurrence(s@, pat@);
                match first_occurrence(s@, pat@) {
                    Some(f) => {
                        assert(!(f < i) && !(f > i));
                    }
                    None => {
                        assert(occurs_at(s@, pat@, i as int));
                    }
                }
            }
            return Some(i);
        }
        i = i + 1;
    }
    assert forall|j: int| !occurs_at(s@, pat@, j) by {
        if occurs_at(s@, pat@, j) {
            assert(j + m <= n);
        }
    }
    None
}

/// The characters that surrounding-whitespace trimming removes (the Unicode
/// white-space code points).
pub open spec fn is_space(c: char) -> bool {
    let u = c as u32;
    u == 0x20 || (0x09 <= u && u <= 0x0D) || u == 0x85 || u == 0xA0 || u == 0x1680 || (0x2000
        <= u && u <= 0x200A) || u == 0x2028 || u == 0x2029 || u == 0x202F || u == 0x205F || u
        == 0x3000
}

fn is_space_char(c: char) -> (r: bool)
    ensures
        r == is_space(c),
{
    let u = c as u32;
    u == 0x20 || (0x09 <= u && u <= 0x0D) || u == 0x85 || u == 0xA0 || u == 0x1680 || (0x2000 <= u
        && u <= 0x200A) || u == 0x2028 || u == 0x2029 || u == 0x202F || u == 0x205F || u == 0x3000
}

/// `s` with leading white space removed.
pub open spec fn trim_front(s: Seq<char>) -> Seq<char>
    decreases s.len(),
{
    if s.len() > 0 && is_space(s[0]) {
        trim_front(s.drop_first())
    } else {
        s
    }
}

/// `s` with trailing white space removed.
pub open spec fn trim_back(s: Seq<char>) -> Seq<char>
    decreases s.len(),
{
    if s.len() > 0 && is_space(s.last()) {
        trim_back(s.drop_last())
    } else {
        s
    }
}

/// `s` with surrounding white space removed.
pub open spec fn trim_spec(s: Seq<char>) -> Seq<char> {
    trim_back(trim_front(s))
}

proof fn lemma_trim_front_skip(s: Seq<char>, k: int)
    requires
        0 <= k <= s.len(),
        forall|t: int| 0 <= t < k ==> is_space(s[t]),
        k == s.len() || !is_space(s[k]),
    ensures
        trim_front(s) == s.subrange(k, s.len() as int),
    decreases k,
{
    if k == 0 {
        assert(s.subrange(0, s.len() as int) =~= s);
    } else {
        let t = s.drop_first();
        lemma_trim_front_skip(t, k - 1);
        assert(t.subrange(k - 1, t.len() as int) =~= s.subrange(k, s.len() as int));
    }
}

proof fn lemma_trim_back_take(s: Seq<char>, k: int)
    requires
        0 <= k <= s.len(),
        forall|t: int| k <= t < s.len() ==> is_space(s[t]),
        k == 0 || !is_space(s[k - 1]),
    ensures
        trim_back(s) == s.subrange(0, k),
    decreases s.len(),
{
    if k == s.len() {
        assert(s.subrange(0, k) =~= s);
        if s.len() > 0 {
            assert(!is_space(s.last()));
        }
    } else {
        assert(is_space(s.last()));
        let t = s.drop_last();
        lemma_trim_back_take(t, k);
        assert(t.subrange(0, k) =~= s.subrange(0, k));
    }
}

/// `s` with surrounding white space removed, as `str::trim` removes it.
pub fn trim_str<'a>(s: &'a str) -> (r: &'a str)
    ensures
        r@ == trim_spec(s@),
{
    let n = s.unicode_len();
    let mut a: usize = 0;
    while a < n && is_space_char(s.get_char(a))
        invariant
            n == s@.len(),
            0 <= a <= n,
            forall|t: int| 0 <= t < a ==> is_space(s@[t]),
        decreases n - a,
    {
        a = a + 1;
    }
    let mut b: usize = n;
    while b > a && is_space_char(s.get_char(b - 1))
        invariant
            n == s@.len(),
            0 <= a <= b <= n,
            forall|t: int| b <= t < n ==> is_space(s@[t]),
        decreases b,
    {
        b = b - 1;
    }
    proof {
        lemma_trim_front_skip(s@, a as int);
        let u = s@.subrange(a as int, n as int);
        lemma_trim_back_take(u, b - a);
        assert(u.subrange(0, b - a) =~= s@.subrange(a as int, b as int));
    }
    s.substring_char(a, b)
}

/// An ASCII decimal digit.
pub open spec fn is_digit(c: char) -> bool {
    0x30 <= c as u32 && c as u32 <= 0x39
}

/// The numeric value of an ASCII decimal digit.
pub open spec fn digit_val(c: char) -> int {
    c as u32 - 0x30
}

pub open spec fn all_digits(s: Seq<char>) -> bool {
    forall|i: int| 0 <= i < s.len() ==> is_digit(s[i])
}

/// The value of a sequence of decimal digits, most significant first.
pub open spec fn digits_val(s: Seq<char>) -> int
    decreases s.len(),
{
    if s.len() == 0 {
        0
    } else {
        digits_val(s.drop_last()) * 10 + digit_val(s.last())
    }
}

proof fn lemma_digits_val_nonneg(s: Seq<char>)
    requires
        all_digits(s),
    ensures
        digits_val(s) >= 0,
    decreases s.len(),
{
    if s.len() > 0 {
        lemma_digits_val_nonneg(s.drop_last());
    }
}

proof fn lemma_digits_val_prefix(s: Seq<char>, j: int)
    requires
        all_digits(s),
        0 <= j <= s.len(),
    ensures
        digits_val(s.subrange(0, j)) <= digits_val(s),
    decreases s.len(),
{
    if j == s.len() {
        assert(s.subrange(0, j) =~= s);
    } else {
        let t = s.drop_last();
        lemma_digits_val_prefix(t, j);
        assert(t.subrange(0, j) =~= s.subrange(0, j));
        lemma_digits_val_nonneg(t);
    }
}

/// What `str::parse::<i64>` accepts: an optional sign and at least one
/// decimal digit, with the value in range; anything else falls back to 0,
/// the lenient-degrade policy of the evaluator.
pub open spec fn parse_i64_spec(s: Seq<char>) -> i64 {
    let signed = s.len() > 0 && (s[0] == '-' || s[0] == '+');
    let neg = s.len() > 0 && s[0] == '-';
    let ds = if signed {
        s.drop_first()
    } else {
        s
    };
    if ds.len() > 0 && all_digits(ds) {
        if neg {
            if digits_val(ds) <= 0x8000_0000_0000_0000 {
                (-digits_val(ds)) as i64
            } else {
                0
            }
        } else {
            if digits_val(ds) <= 0x7fff_ffff_ffff_ffff {
                digits_val(ds) as i64
            } else {
                0
            }
        }
    } else {
        0
    }
}

/// Parses `s` as a signed 64-bit decimal integer, as `str::parse::<i64>`
/// does; any string that does not parse (or overflows) yields 0.
pub fn parse_i64_or_zero(s: &str) -> (r: i64)
    ensures
        r == parse_i64_spec(s@),
{
    let n = s.unicode_len();
    if n == 0 {
        return 0;
    }
    let c0 = s.get_char(0);
    let start: usize = if c0 == '-' || c0 == '+' {
        1
    } else {
        0
    };
    let neg = c0 == '-';
    let ghost ds = s@.subrange(start as int, n as int);
    proof {
        if start == 1 {
            assert(ds =~= s@.drop_first());
        } else {
            assert(ds =~= s@);
        }
    }
    if start >= n {
        return 0;
    }
    let bound: u64 = 0x8000_0000_0000_0000;
    let mut m: u64 = 0;
    let mut k: usize = start;
    while k < n
        invariant
            n == s@.len(),
            start <= k <= n,
            start < n,
            start <= 1,
            bound == 0x8000_0000_0000_0000,
            ds == s@.subrange(start as int, n as int),
            ds == (if s@[0] == '-' || s@[0] == '+' {
                s@.drop_first()
            } else {
                s@
            }),
            (start == 1) == (s@[0] == '-' || s@[0] == '+'),
            all_digits(ds.subrange(0, k - start)),
            m == digits_val(ds.subrange(0, k - start)),
            m <= bound,
        decreases n - k,
    {
        let c = s.get_char(k);
        let u = c as u32;
        if u < 0x30 || u > 0x39 {
            assert(ds[k - start] == s@[k as int]);
            assert(!all_digits(ds));
            return 0;
        }
        let d = (u - 0x30) as u64;
        let q = (bound - d) / 10;
        proof {
            vstd::arithmetic::div_mod::lemma_fundamental_div_mod((bound - d) as int, 10);
            vstd::arithmetic::div_mod::lemma_mod_division_less_than_divisor(
                (bound - d) as int,
                10,
            );
            assert(ds.subrange(0, k - start + 1).drop_last() =~= ds.subrange(0, k - start));
            assert(ds.subrange(0, k - start + 1).last() == ds[k - start]);
            assert(ds[k - start] == s@[k as int]);
        }
        if m > q {
            proof {
                if all_digits(ds) {
                    lemma_digits_val_prefix(ds, k - start + 1);
                    assert(digits_val(ds.subrange(0, k - start + 1)) > bound);
                }
            }
            return 0;
        }
        m = m * 10 + d;
        k = k + 1;
    }
    proof {
        assert(ds.subrange(0, n - start) =~= ds);
    }
    if neg {
        if m == bound {
            i64::MIN
        } else {
            -(m as i64)
        }
    } else {
        if m >= bound {
            0
        } else {
            m as i64
        }
    }
}

/// `to` interleaved around every character of `s`: what replacing the empty
/// pattern by `to` produces.
pub open spec fn interleave(s: Seq<char>, to: Seq<char>) -> Seq<char>
    decreases s.len(),
{
    if s.len() == 0 {
        to
    } else {
        to + seq![s[0]] + interleave(s.drop_first(), to)
    }
}

spec fn interleave_tail(s: Seq<char>, to: Seq<char>) -> Seq<char>
    decreases s.len(),
{
    if s.len() == 0 {
        Seq::empty()
    } else {
        seq![s[0]] + to + interleave_tail(s.drop_first(), to)
    }
}

proof fn lemma_interleave_tail(s: Seq<char>, to: Seq<char>)
    ensures
        interleave(s, to) == to + interleave_tail(s, to),
    decreases s.len(),
{
    if s.len() == 0 {
        assert(to + Seq::<char>::empty() =~= to);
    } else {
        lemma_interleave_tail(s.drop_first(), to);
        assert(to + (seq![s[0]] + to + interleave_tail(s.drop_first(), to)) =~= to + seq![s[0]]
            + interleave(s.drop_first(), to));
    }
}

/// Every occurrence of `from` in `s` replaced by `to`, scanning left to
/// right over non-overlapping matches, as `str::replace` does.
pub open spec fn replace_spec(s: Seq<char>, from: Seq<char>, to: Seq<char>) -> Seq<char>
    decreases s.len(),
{
    if from.len() == 0 {
        interleave(s, to)
    } else if s.len() < from.len() {
        s
    } else if s.subrange(0, from.len() as int) == from {
        to + replace_spec(s.subrange(from.len() as int, s.len() as int), from, to)
    } else {
        seq![s[0]] + replace_spec(s.drop_first(), from, to)
    }
}

proof fn lemma_replace_step(u: Seq<char>, from: Seq<char>, to: Seq<char>)
    requires
        from.len() > 0,
    ensures
        match first_occurrence(u, from) {
            Some(i) => replace_spec(u, from, to) == u.subrange(0, i) + to + replace_spec(
                u.subrange(i + from.len(), u.len() as int),
                from,
                to,
            ),
            None => replace_spec(u, from, to) == u,
        },
    decreases u.len(),
{
    lemma_first_occurrence(u, from);
    match first_occurrence(u, from) {
        Some(i) => {
            if i == 0 {
                assert(u.subrange(0, from.len() as int) == from);
                assert(u.subrange(0, 0) + to + replace_spec(
                    u.subrange(from.len() as int, u.len() as int),
                    from,
                    to,
                ) =~= to + replace_spec(u.subrange(from.len() as int, u.len() as int), from, to));
            } else {
                assert(u.len() >= i + from.len() >= 1);
                let t = u.drop_first();
                assert(u.subrange(0, from.len() as int) != from) by {
                    if u.subrange(0, from.len() as int) == from {
                        assert(occurs_at(u, from, 0));
                    }
                }
                lemma_replace_step(t, from, to);
                assert(first_occurrence(t, from) == Some(i - 1)) by {
                    lemma_first_occurrence(t, from);
                    assert(occurs_at(t, from, i - 1)) by {
                        assert(t.subrange(i - 1, i - 1 + from.len()) =~= u.subrange(
                            i,
                            i + from.len(),
                        ));
                    }
                    match first_occurrence(t, from) {
                        Some(f) => {
                            if f < i - 1 {
                                assert(occurs_at(u, from, f + 1)) by {
                                    assert(u.subrange(f + 1, f + 1 + from.len()) =~= t.subrange(
                                        f,
                                        f + from.len(),
                                    ));
                                }
                            }
                        }
                        None => {}
                    }
                }
                assert(seq![u[0]] + (t.subrange(0, i - 1) + to + replace_spec(
                    t.subrange(i - 1 + from.len(), t.len() as int),
                    from,
                    to,
                )) =~= u.subrange(0, i) + to + replace_spec(
                    u.subrange(i + from.len(), u.len() as int),
                    from,
                    to,
                )) by {
                    assert(t.subrange(i - 1 + from.len(), t.len() as int) =~= u.subrange(
                        i + from.len(),
                        u.len() as int,
                    ));
                    assert(seq![u[0]] + t.subrange(0, i - 1) =~= u.subrange(0, i));
                }
            }
        }
        None => {
            if u.len() < from.len() {
            } else {
                assert(u.subrange(0, from.len() as int) != from) by {
                    if u.subrange(0, from.len() as int) == from {
                        assert(occurs_at(u, from, 0));
                    }
                }
                let t = u.drop_first();
                lemma_replace_step(t, from, to);
                assert(first_occurrence(t, from) is None) by {
                    lemma_first_occurrence(t, from);
                    match first_occurrence(t, from) {
                        Some(f) => {
                            assert(occurs_at(u, from, f + 1)) by {
                                assert(u.subrange(f + 1, f + 1 + from.len()) =~= t.subrange(
                                    f,
                                    f + from.len(),
                                ));
                            }
                        }
                        None => {}
                    }
                }
                assert(seq![u[0]] + t =~= u);
            }
        }
    }
}

/// Every occurrence of `from` in `s` replaced by `to`, as `str::replace`.
pub fn replace_all(s: &str, from: &str, to: &str) -> (r: String)
    ensures
        r@ == replace_spec(s@, from@, to@),
{
    let m = from.unicode_len();
    let mut out = String::new();
    if m == 0 {
        let n = s.unicode_len();
        out.append(to);
        proof {
            lemma_interleave_tail(s@, to@);
            assert(s@.subrange(0, n as int) =~= s@);
        }
        let mut p: usize = 0;
        while p < n
            invariant
                n == s@.len(),
                0 <= p <= n,
                replace_spec(s@, from@, to@) == out@ + interleave_tail(
                    s@.subrange(p as int, n as int),
                    to@,
                ),
            decreases n - p,
        {
            let ch = s.substring_char(p, p + 1);
            out.append(ch);
            out.append(to);
            proof {
                let u = s@.subrange(p as int, n as int);
                assert(u.drop_first() =~= s@.subrange(p + 1, n as int));
                assert(seq![u[0]] =~= ch@);
            }
            p = p + 1;
        }
        assert(interleave_tail(s@.subrange(n as int, n as int), to@) == Seq::<char>::empty());
        assert(out@ + Seq::<char>::empty() =~= out@);
        return out;
    }
    let mut rem: &str = s;
    proof {
        assert(out@ + replace_spec(rem@, from@, to@) =~= replace_spec(s@, from@, to@));
    }
    loop
        invariant
            from@.len() == m > 0,
            replace_spec(s@, from@, to@) == out@ + replace_spec(rem@, from@, to@),
        decreases rem@.len(),
    {
        proof {
            lemma_replace_step(rem@, from@, to@);
        }
        match find_first(rem, from) {
            Some(i) => {
                let len = rem.unicode_len();
                let head = rem.substring_char(0, i);
                out.append(head);
                out.append(to);
                rem = rem.substring_char(i + m, len);
                proof {
                    assert(out@ + replace_spec(rem@, from@, to@) =~= replace_spec(
                        s@,
                        from@,
                        to@,
                    ));
                }
            }
            None => {
                out.append(rem);
                return out;
            }
        }
    }
}

} // verus!
