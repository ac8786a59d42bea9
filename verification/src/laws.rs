//! Laws of the evaluator and the routing entry point, proved once and for
//! all: a comparison written as two decimal literals around an operator
//! evaluates to the mathematical comparison, and routing is a function of
//! the stored configuration and the substitutions alone.

use vstd::prelude::*;

use crate::sink_config::{
    classify_spec, eval_spec, pat_ge, pat_gt, pat_le, pat_lt, route_spec, CompareType, ContextView,
};
use crate::text::{
    all_digits, digit_val, digits_val, first_occurrence, is_digit, is_space, occurs_at,
    parse_i64_spec, trim_back, trim_front, trim_spec, contains_pat,
};

verus! {

/// The character of one decimal digit value.
pub open spec fn digit_char(d: int) -> char {
    ((48 + d) as u32) as char
}

/// The decimal digits of `n`, most significant first; empty for 0.
pub open spec fn dec_digits(n: int) -> Seq<char>
    decreases n,
{
    if n <= 0 {
        Seq::empty()
    } else {
        dec_digits(n / 10).push(digit_char(n % 10))
    }
}

/// The canonical decimal writing of an integer, as `i64::to_string` writes
/// it: a minus sign for negative values, no leading zeros, `0` for zero.
pub open spec fn decimal(v: int) -> Seq<char> {
    if v < 0 {
        seq!['-'] + dec_digits(-v)
    } else if v == 0 {
        seq!['0']
    } else {
        dec_digits(v)
    }
}

/// A sequence made only of digits and minus signs: what decimal literals
/// are made of, with no operator and no white space among them.
pub open spec fn plain_chars(s: Seq<char>) -> bool {
    forall|i: int| 0 <= i < s.len() ==> (is_digit(#[trigger] s[i]) || s[i] == '-')
}

proof fn lemma_dec_digits_digits(n: int)
    requires
        n >= 0,
    ensures
        all_digits(dec_digits(n)),
        n > 0 ==> dec_digits(n).len() > 0,
        digits_val(dec_digits(n)) == n,
    decreases n,
{
    if n <= 0 {
    } else {
        lemma_dec_digits_digits(n / 10);
        vstd::arithmetic::div_mod::lemma_fundamental_div_mod(n, 10);
        vstd::arithmetic::div_mod::lemma_mod_division_less_than_divisor(n, 10);
        let prev = dec_digits(n / 10);
        let whole = prev.push(digit_char(n % 10));
        assert(is_digit(digit_char(n % 10)));
        assert(whole.drop_last() =~= prev);
        assert(whole.last() == digit_char(n % 10));
        assert(digit_val(digit_char(n % 10)) == n % 10);
        assert(all_digits(whole)) by {
            assert forall|i: int| 0 <= i < whole.len() implies is_digit(whole[i]) by {
                if i < prev.len() {
                    assert(whole[i] == prev[i]);
                }
            }
        }
        assert(digits_val(whole) == digits_val(prev) * 10 + digit_val(whole.last()));
    }
}

/// Every decimal literal is non-empty and made of digits and a possible
/// leading minus sign.
proof fn lemma_decimal_plain(v: int)
    ensures
        plain_chars(decimal(v)),
        decimal(v).len() > 0,
{
    if v < 0 {
        lemma_dec_digits_digits(-v);
        let s = seq!['-'] + dec_digits(-v);
        assert forall|i: int| 0 <= i < s.len() implies (is_digit(#[trigger] s[i]) || s[i]
            == '-') by {
            if i >= 1 {
                assert(s[i] == dec_digits(-v)[i - 1]);
            }
        }
    } else if v == 0 {
        assert(is_digit(decimal(0)[0]));
    } else {
        lemma_dec_digits_digits(v);
    }
}

/// Digits and minus signs are not white space, so a decimal literal trims
/// to itself.
proof fn lemma_trim_plain(s: Seq<char>)
    requires
        plain_chars(s),
    ensures
        trim_spec(s) == s,
{
    if s.len() > 0 {
        assert(!is_space(s[0]));
        assert(!is_space(s.last()));
        assert(trim_front(s) == s);
        assert(trim_back(s) == s);
    } else {
        assert(trim_front(s) == s);
        assert(trim_back(s) == s);
    }
}

/// Parsing the canonical decimal writing of a 64-bit integer gives that
/// integer back.
proof fn lemma_parse_decimal(a: i64)
    ensures
        parse_i64_spec(decimal(a as int)) == a,
{
    if a < 0 {
        let m = -(a as int);
        lemma_dec_digits_digits(m);
        let s = seq!['-'] + dec_digits(m);
        assert(decimal(a as int) == s);
        assert(s[0] == '-');
        assert(s.drop_first() =~= dec_digits(m));
        assert(digits_val(dec_digits(m)) == m);
        assert(m <= 0x8000_0000_0000_0000);
    } else if a == 0 {
        let s = decimal(0);
        assert(s == seq!['0']);
        assert(is_digit(s[0]) && !(s[0] == '-') && !(s[0] == '+'));
        assert(s.len() == 1 && s.last() == '0');
        assert(s.drop_last() =~= Seq::<char>::empty());
        assert(digits_val(Seq::<char>::empty()) == 0);
        assert(digits_val(s) == digits_val(s.drop_last()) * 10 + digit_val(s.last()));
        assert(digits_val(s) == digit_val('0'));
        assert(digit_val('0') == 0);
        assert(all_digits(s));
    } else {
        let s = dec_digits(a as int);
        lemma_dec_digits_digits(a as int);
        assert(decimal(a as int) == s);
        assert(is_digit(s[0]) && !(s[0] == '-') && !(s[0] == '+'));
    }
}

proof fn lemma_first_at(s: Seq<char>, p: Seq<char>, k: int)
    requires
        occurs_at(s, p, k),
        forall|j: int| 0 <= j < k ==> !occurs_at(s, p, j),
    ensures
        first_occurrence(s, p) == Some(k),
        contains_pat(s, p),
{
    crate::text::lemma_first_occurrence(s, p);
    match first_occurrence(s, p) {
        Some(f) => {
            if f > k {
                assert(!occurs_at(s, p, k));
            }
        }
        None => {
            assert(!occurs_at(s, p, k));
        }
    }
}

/// An expression assembled from two plain literals around one comparison
/// operator is classified as exactly that operator, with the two literals
/// as its operands.
proof fn lemma_classify_expr(aa: Seq<char>, p: Seq<char>, bb: Seq<char>)
    requires
        plain_chars(aa),
        plain_chars(bb),
        aa.len() > 0,
        bb.len() > 0,
        p == pat_ge() || p == pat_le() || p == pat_gt() || p == pat_lt(),
    ensures
        p == pat_ge() ==> classify_spec(aa + p + bb) == CompareType::GreaterEqual(
            parse_i64_spec(aa),
            parse_i64_spec(bb),
        ),
        p == pat_le() ==> classify_spec(aa + p + bb) == CompareType::SmallerEqual(
            parse_i64_spec(aa),
            parse_i64_spec(bb),
        ),
        p == pat_gt() ==> classify_spec(aa + p + bb) == CompareType::Greater(
            parse_i64_spec(aa),
            parse_i64_spec(bb),
        ),
        p == pat_lt() ==> classify_spec(aa + p + bb) == CompareType::Smaller(
            parse_i64_spec(aa),
            parse_i64_spec(bb),
        ),
{
    let s = aa + p + bb;
    let al = aa.len() as int;
    let pl = p.len() as int;
    assert(s.len() == al + pl + bb.len());
    assert forall|i: int| 0 <= i < al implies (is_digit(#[trigger] s[i]) || s[i] == '-') by {
        assert(s[i] == aa[i]);
    }
    assert forall|i: int| al + pl <= i < s.len() implies (is_digit(#[trigger] s[i]) || s[i]
        == '-') by {
        assert(s[i] == bb[i - al - pl]);
    }
    assert forall|i: int| al <= i < al + pl implies s[i] == p[i - al] by {}
    // The operator occurs where it was put.
    assert(occurs_at(s, p, al)) by {
        assert(s.subrange(al, al + pl) =~= p);
    }
    // Sides of the split.
    assert(s.subrange(0, al) =~= aa);
    assert(s.subrange(al + pl, s.len() as int) =~= bb);
    lemma_trim_plain(aa);
    lemma_trim_plain(bb);
    // No character of a plain literal is a comparison character.
    assert forall|i: int| 0 <= i < s.len() && !(al <= i < al + pl) implies s[i] != '>' && s[i]
        != '<' && s[i] != '=' by {}
    if p == pat_ge() || p == pat_lt() || p == pat_gt() {
        assert(s[al] == p[0]);
    }
    if p == pat_ge() {
        // Any occurrence of ">=" starts with '>', found only at the split.
        assert forall|j: int| occurs_at(s, pat_ge(), j) implies j == al by {
            assert(s.subrange(j, j + 2)[0] == s[j]);
            assert(s[j] == '>');
        }
        lemma_first_at(s, pat_ge(), al);
    } else if p == pat_le() {
        // The expression holds no '>' at all, so ">=" is absent.
        assert forall|j: int| !occurs_at(s, pat_ge(), j) by {
            if occurs_at(s, pat_ge(), j) {
                assert(s.subrange(j, j + 2)[0] == s[j]);
                assert(s[j] == '>');
            }
        }
        assert(!contains_pat(s, pat_ge()));
        assert forall|j: int| occurs_at(s, pat_le(), j) implies j == al by {
            assert(s.subrange(j, j + 2)[0] == s[j]);
            assert(s[j] == '<');
        }
        lemma_first_at(s, pat_le(), al);
    } else if p == pat_gt() {
        // ">=" would need '=' right after the '>', but a digit or minus
        // sign follows; "<=" would need a '<', absent altogether.
        assert forall|j: int| !occurs_at(s, pat_ge(), j) by {
            if occurs_at(s, pat_ge(), j) {
                assert(s.subrange(j, j + 2)[0] == s[j]);
                assert(s.subrange(j, j + 2)[1] == s[j + 1]);
                assert(s[j] == '>' && s[j + 1] == '=');
                assert(j == al);
                assert(s[j + 1] == bb[0]);
            }
        }
        assert(!contains_pat(s, pat_ge()));
        assert forall|j: int| !occurs_at(s, pat_le(), j) by {
            if occurs_at(s, pat_le(), j) {
                assert(s.subrange(j, j + 2)[0] == s[j]);
                assert(s[j] == '<');
            }
        }
        assert(!contains_pat(s, pat_le()));
        assert forall|j: int| occurs_at(s, pat_gt(), j) implies j == al by {
            assert(s.subrange(j, j + 1)[0] == s[j]);
            assert(s[j] == '>');
        }
        lemma_first_at(s, pat_gt(), al);
    } else {
        assert forall|j: int| !occurs_at(s, pat_ge(), j) by {
            if occurs_at(s, pat_ge(), j) {
                assert(s.subrange(j, j + 2)[0] == s[j]);
                assert(s[j] == '>');
            }
        }
        assert(!contains_pat(s, pat_ge()));
        assert forall|j: int| !occurs_at(s, pat_le(), j) by {
            if occurs_at(s, pat_le(), j) {
                assert(s.subrange(j, j + 2)[0] == s[j]);
                assert(s.subrange(j, j + 2)[1] == s[j + 1]);
                assert(s[j] == '<' && s[j + 1] == '=');
                assert(j == al);
                assert(s[j + 1] == bb[0]);
            }
        }
        assert(!contains_pat(s, pat_le()));
        assert forall|j: int| !occurs_at(s, pat_gt(), j) by {
            if occurs_at(s, pat_gt(), j) {
                assert(s.subrange(j, j + 1)[0] == s[j]);
                assert(s[j] == '>');
            }
        }
        assert(!contains_pat(s, pat_gt()));
        assert forall|j: int| occurs_at(s, pat_lt(), j) implies j == al by {
            assert(s.subrange(j, j + 1)[0] == s[j]);
            assert(s[j] == '<');
        }
        lemma_first_at(s, pat_lt(), al);
    }
}

/// For every pair of 64-bit integers and each comparison operator, the
/// expression written as the two decimal literals around the operator
/// evaluates to the mathematical comparison of the two integers.
pub proof fn lemma_evaluate_comparison(a: i64, b: i64)
    ensures
        eval_spec(decimal(a as int) + pat_gt() + decimal(b as int)) == (a > b),
        eval_spec(decimal(a as int) + pat_lt() + decimal(b as int)) == (a < b),
        eval_spec(decimal(a as int) + pat_ge() + decimal(b as int)) == (a >= b),
        eval_spec(decimal(a as int) + pat_le() + decimal(b as int)) == (a <= b),
{
    let aa = decimal(a as int);
    let bb = decimal(b as int);
    lemma_decimal_plain(a as int);
    lemma_decimal_plain(b as int);
    lemma_parse_decimal(a);
    lemma_parse_decimal(b);
    lemma_classify_expr(aa, pat_gt(), bb);
    lemma_classify_expr(aa, pat_lt(), bb);
    lemma_classify_expr(aa, pat_ge(), bb);
    lemma_classify_expr(aa, pat_le(), bb);
}

/// Routing is idempotent: with the same stored configuration and the same
/// substitutions, and no refresh in between, two routing decisions are the
/// same destination.
pub proof fn lemma_route_idempotent(
    stored: Option<ContextView>,
    params: Seq<(Seq<char>, Seq<char>)>,
)
    ensures
        route_spec(stored, params) == route_spec(stored, params),
{
}

/// Before any configuration has been stored, routing returns the empty
/// string whatever the substitutions are: the empty default's two
/// destinations are both empty, so the true branch and the false branch
/// agree.
pub proof fn lemma_route_unconfigured(params: Seq<(Seq<char>, Seq<char>)>)
    ensures
        route_spec(None, params) == Seq::<char>::empty(),
{
}

} // verus!
