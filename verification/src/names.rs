//! Deterministic intermediate column names.
//!
//! When the splitter lifts a sub-expression out of a projection it gives the
//! lifted value a fresh name derived from three indices: the recursion depth
//! `s`, the zero-based position `p` of the expression within the projection
//! list at that depth, and the zero-based argument index `k` within that
//! expression. The names are part of the observable behavior of the pass:
//! downstream tooling matches them literally.

use vstd::prelude::*;
use vstd::string::StringExecFns;

verus! {

/// The character for a single decimal digit.
pub open spec fn digit_char(d: nat) -> char
    recommends
        d < 10,
{
    if d == 0 {
        '0'
    } else if d == 1 {
        '1'
    } else if d == 2 {
        '2'
    } else if d == 3 {
        '3'
    } else if d == 4 {
        '4'
    } else if d == 5 {
        '5'
    } else if d == 6 {
        '6'
    } else if d == 7 {
        '7'
    } else if d == 8 {
        '8'
    } else {
        '9'
    }
}

/// True iff `c` is a decimal digit character.
pub open spec fn is_digit_char(c: char) -> bool {
    c == '0' || c == '1' || c == '2' || c == '3' || c == '4' || c == '5' || c == '6' || c == '7'
        || c == '8' || c == '9'
}

/// The usual decimal rendering of `n`: no sign, no leading zeros, and `0`
/// for zero.
pub open spec fn dec_digits(n: nat) -> Seq<char>
    decreases n,
{
    if n < 10 {
        seq![digit_char(n)]
    } else {
        dec_digits(n / 10) + seq![digit_char(n % 10)]
    }
}

/// A generated name for a child lifted out of a UDF at the root of an
/// expression.
pub open spec fn spec_root_trunc_name(s: nat, p: nat, k: nat) -> Seq<char> {
    "__TruncateRootUDF_"@ + dec_digits(s) + "-"@ + dec_digits(p) + "-"@ + dec_digits(k) + "__"@
}

/// A generated name for a UDF child lifted out of an expression whose root is
/// not a UDF.
pub open spec fn spec_child_trunc_name(s: nat, p: nat, k: nat) -> Seq<char> {
    "__TruncateAnyUDFChildren_"@ + dec_digits(s) + "-"@ + dec_digits(p) + "-"@ + dec_digits(k)
        + "__"@
}

/// Every character of a decimal rendering is a digit, the rendering is not
/// empty, and renderings of distinct numbers differ.
pub proof fn lemma_dec_digits_shape(n: nat)
    ensures
        dec_digits(n).len() >= 1,
        forall|i: int| 0 <= i < dec_digits(n).len() ==> is_digit_char(#[trigger] dec_digits(n)[i]),
        n >= 10 ==> dec_digits(n).len() >= 2,
        n < 10 ==> dec_digits(n).len() == 1,
        n >= 1 ==> dec_digits(n)[0] != '0',
    decreases n,
{
    if n < 10 {
    } else {
        assert(n / 10 >= 1 && n / 10 < n) by (nonlinear_arith)
            requires
                n >= 10,
        ;
        lemma_dec_digits_shape(n / 10);
        assert(dec_digits(n) == dec_digits(n / 10) + seq![digit_char(n % 10)]);
        assert(n % 10 < 10) by (nonlinear_arith);
        assert forall|i: int| 0 <= i < dec_digits(n).len() implies is_digit_char(
            #[trigger] dec_digits(n)[i],
        ) by {
            if i < dec_digits(n / 10).len() {
                assert(dec_digits(n)[i] == dec_digits(n / 10)[i]);
            } else {
                assert(dec_digits(n)[i] == digit_char(n % 10));
            }
        }
        assert(dec_digits(n)[0] == dec_digits(n / 10)[0]);
    }
}

/// Decimal renderings are injective: distinct numbers render differently.
pub proof fn lemma_dec_digits_injective(m: nat, n: nat)
    requires
        m != n,
    ensures
        dec_digits(m) != dec_digits(n),
    decreases m + n,
{
    lemma_dec_digits_shape(m);
    lemma_dec_digits_shape(n);
    if m < 10 && n < 10 {
        assert(dec_digits(m)[0] == digit_char(m));
        assert(dec_digits(n)[0] == digit_char(n));
    } else if m < 10 && n >= 10 {
        assert(dec_digits(m).len() == 1 && dec_digits(n).len() >= 2);
    } else if m >= 10 && n < 10 {
        assert(dec_digits(m).len() >= 2 && dec_digits(n).len() == 1);
    } else {
        assert(m / 10 < m && n / 10 < n) by (nonlinear_arith)
            requires
                m >= 10 && n >= 10,
        ;
        if m / 10 != n / 10 {
            lemma_dec_digits_injective(m / 10, n / 10);
            if dec_digits(m) == dec_digits(n) {
                assert(dec_digits(m).len() == dec_digits(n).len());
                let lm = dec_digits(m / 10).len() as int;
                assert(dec_digits(m / 10) =~= dec_digits(n / 10)) by {
                    assert(dec_digits(m / 10).len() == lm && dec_digits(n / 10).len() == lm);
                    assert forall|i: int| 0 <= i < lm implies #[trigger] dec_digits(m / 10)[i]
                        == dec_digits(n / 10)[i] by {
                        assert(dec_digits(m)[i] == dec_digits(m / 10)[i]);
                        assert(dec_digits(n)[i] == dec_digits(n / 10)[i]);
                    }
                }
                assert(false);
            }
        } else {
            assert(m % 10 != n % 10) by (nonlinear_arith)
                requires
                    m >= 10 && n >= 10 && m != n && m / 10 == n / 10,
            ;
            assert(m % 10 < 10 && n % 10 < 10) by (nonlinear_arith);
            let lm = dec_digits(m / 10).len() as int;
            assert(dec_digits(m)[lm] == digit_char(m % 10));
            assert(dec_digits(n)[lm] == digit_char(n % 10));
        }
    }
}

/// If `a + sep + b == c + sep + d` where the single character of `sep`
/// occurs in neither `a` nor `c`, then `a == c` and `b == d`.
proof fn lemma_split_at_separator(a: Seq<char>, b: Seq<char>, c: Seq<char>, d: Seq<char>, sep: char)
    requires
        a + seq![sep] + b == c + seq![sep] + d,
        forall|i: int| 0 <= i < a.len() ==> a[i] != sep,
        forall|i: int| 0 <= i < c.len() ==> c[i] != sep,
    ensures
        a == c,
        b == d,
{
    let x = a + seq![sep] + b;
    let y = c + seq![sep] + d;
    assert(x.len() == a.len() + 1 + b.len());
    assert(y.len() == c.len() + 1 + d.len());
    if a.len() < c.len() {
        assert(x[a.len() as int] == sep);
        assert(y[a.len() as int] == c[a.len() as int]);
        assert(false);
    }
    if c.len() < a.len() {
        assert(y[c.len() as int] == sep);
        assert(x[c.len() as int] == a[c.len() as int]);
        assert(false);
    }
    assert(a.len() == c.len());
    assert(a =~= c) by {
        assert forall|i: int| 0 <= i < a.len() implies a[i] == c[i] by {
            assert(x[i] == a[i]);
            assert(y[i] == c[i]);
        }
    }
    assert(b =~= d) by {
        assert forall|i: int| 0 <= i < b.len() implies b[i] == d[i] by {
            assert(x[a.len() + 1 + i] == b[i]);
            assert(y[c.len() + 1 + i] == d[i]);
        }
    }
}

/// The triple of indices can be read back from a generated name: names built
/// from distinct triples differ. Stated for a shared prefix; the two naming
/// families below instantiate it.
proof fn lemma_indexed_name_injective(
    prefix: Seq<char>,
    s1: nat,
    p1: nat,
    k1: nat,
    s2: nat,
    p2: nat,
    k2: nat,
)
    requires
        !(s1 == s2 && p1 == p2 && k1 == k2),
    ensures
        prefix + dec_digits(s1) + "-"@ + dec_digits(p1) + "-"@ + dec_digits(k1) + "__"@ != prefix
            + dec_digits(s2) + "-"@ + dec_digits(p2) + "-"@ + dec_digits(k2) + "__"@,
{
    reveal_strlit("-");
    reveal_strlit("__");
    lemma_dec_digits_shape(s1);
    lemma_dec_digits_shape(p1);
    lemma_dec_digits_shape(k1);
    lemma_dec_digits_shape(s2);
    lemma_dec_digits_shape(p2);
    lemma_dec_digits_shape(k2);
    let n1 = prefix + dec_digits(s1) + "-"@ + dec_digits(p1) + "-"@ + dec_digits(k1) + "__"@;
    let n2 = prefix + dec_digits(s2) + "-"@ + dec_digits(p2) + "-"@ + dec_digits(k2) + "__"@;
    if n1 == n2 {
        let t1 = dec_digits(p1) + "-"@ + dec_digits(k1) + "__"@;
        let t2 = dec_digits(p2) + "-"@ + dec_digits(k2) + "__"@;
        assert(n1 =~= (prefix + dec_digits(s1)) + seq!['-'] + t1);
        assert(n2 =~= (prefix + dec_digits(s2)) + seq!['-'] + t2);
        assert((prefix + dec_digits(s1)) + seq!['-'] + t1 == (prefix + dec_digits(s2)) + seq!['-']
            + t2);
        if s1 != s2 {
            lemma_dec_digits_injective(s1, s2);
            if dec_digits(s1).len() == dec_digits(s2).len() {
                let l = dec_digits(s1).len() as int;
                assert(dec_digits(s1) =~= dec_digits(s2)) by {
                    assert forall|i: int| 0 <= i < l implies dec_digits(s1)[i] == dec_digits(
                        s2,
                    )[i] by {
                        assert(n1[prefix.len() + i] == dec_digits(s1)[i]);
                        assert(n2[prefix.len() + i] == dec_digits(s2)[i]);
                    }
                }
                assert(false);
            } else {
                let l1 = dec_digits(s1).len() as int;
                let l2 = dec_digits(s2).len() as int;
                if l1 < l2 {
                    assert(n1[prefix.len() + l1] == '-');
                    assert(n2[prefix.len() + l1] == dec_digits(s2)[l1]);
                    assert(is_digit_char(dec_digits(s2)[l1]));
                    assert(false);
                } else {
                    assert(n2[prefix.len() + l2] == '-');
                    assert(n1[prefix.len() + l2] == dec_digits(s1)[l2]);
                    assert(is_digit_char(dec_digits(s1)[l2]));
                    assert(false);
                }
            }
        }
        assert(s1 == s2);
        let l = dec_digits(s1).len() as int;
        assert(t1 =~= t2) by {
            assert(n1.len() == n2.len());
            assert(t1.len() == n1.len() - prefix.len() - l - 1);
            assert(t2.len() == n2.len() - prefix.len() - l - 1);
            assert forall|i: int| 0 <= i < t1.len() implies t1[i] == t2[i] by {
                assert(n1[prefix.len() + l + 1 + i] == t1[i]);
                assert(n2[prefix.len() + l + 1 + i] == t2[i]);
            }
        }
        // Now split t1 == t2 at the remaining separator.
        let u1 = dec_digits(k1) + "__"@;
        let u2 = dec_digits(k2) + "__"@;
        assert(t1 =~= dec_digits(p1) + seq!['-'] + u1);
        assert(t2 =~= dec_digits(p2) + seq!['-'] + u2);
        lemma_split_at_separator(dec_digits(p1), u1, dec_digits(p2), u2, '-');
        if p1 != p2 {
            lemma_dec_digits_injective(p1, p2);
            assert(false);
        }
        assert(u1 == u2);
        if k1 != k2 {
            lemma_dec_digits_injective(k1, k2);
            assert(dec_digits(k1).len() + 2 == u1.len());
            assert(dec_digits(k2).len() + 2 == u2.len());
            let lk = dec_digits(k1).len() as int;
            assert(dec_digits(k1) =~= dec_digits(k2)) by {
                assert forall|i: int| 0 <= i < lk implies dec_digits(k1)[i] == dec_digits(
                    k2,
                )[i] by {
                    assert(u1[i] == dec_digits(k1)[i]);
                    assert(u2[i] == dec_digits(k2)[i]);
                }
            }
            assert(false);
        }
        assert(false);
    }
}

/// Distinct index triples give distinct root-truncation names. This is the
/// half of the uniqueness of generated names that concerns one family.
pub proof fn lemma_root_trunc_names_injective(
    s1: nat,
    p1: nat,
    k1: nat,
    s2: nat,
    p2: nat,
    k2: nat,
)
    requires
        !(s1 == s2 && p1 == p2 && k1 == k2),
    ensures
        spec_root_trunc_name(s1, p1, k1) != spec_root_trunc_name(s2, p2, k2),
{
    lemma_indexed_name_injective("__TruncateRootUDF_"@, s1, p1, k1, s2, p2, k2);
}

/// Distinct index triples give distinct child-truncation names.
pub proof fn lemma_child_trunc_names_injective(
    s1: nat,
    p1: nat,
    k1: nat,
    s2: nat,
    p2: nat,
    k2: nat,
)
    requires
        !(s1 == s2 && p1 == p2 && k1 == k2),
    ensures
        spec_child_trunc_name(s1, p1, k1) != spec_child_trunc_name(s2, p2, k2),
{
    lemma_indexed_name_injective("__TruncateAnyUDFChildren_"@, s1, p1, k1, s2, p2, k2);
}

/// A root-truncation name never equals a child-truncation name: the two
/// families differ in their fixed prefix.
pub proof fn lemma_families_distinct(s1: nat, p1: nat, k1: nat, s2: nat, p2: nat, k2: nat)
    ensures
        spec_root_trunc_name(s1, p1, k1) != spec_child_trunc_name(s2, p2, k2),
{
    reveal_strlit("__TruncateRootUDF_");
    reveal_strlit("__TruncateAnyUDFChildren_");
    let n1 = spec_root_trunc_name(s1, p1, k1);
    let n2 = spec_child_trunc_name(s2, p2, k2);
    assert(n1[10] == "__TruncateRootUDF_"@[10]);
    assert(n2[10] == "__TruncateAnyUDFChildren_"@[10]);
    assert(n1[10] == 'R');
    assert(n2[10] == 'A');
}

/// The decimal rendering of a machine integer.
pub fn push_decimal(n: usize, out: &mut String)
    ensures
        final(out)@ == old(out)@ + dec_digits(n as nat),
    decreases n,
{
    if n >= 10 {
        push_decimal(n / 10, out);
    }
    let d = n % 10;
    let ds: &str = if d == 0 {
        "0"
    } else if d == 1 {
        "1"
    } else if d == 2 {
        "2"
    } else if d == 3 {
        "3"
    } else if d == 4 {
        "4"
    } else if d == 5 {
        "5"
    } else if d == 6 {
        "6"
    } else if d == 7 {
        "7"
    } else if d == 8 {
        "8"
    } else {
        "9"
    };
    proof {
        reveal_strlit("0");
        reveal_strlit("1");
        reveal_strlit("2");
        reveal_strlit("3");
        reveal_strlit("4");
        reveal_strlit("5");
        reveal_strlit("6");
        reveal_strlit("7");
        reveal_strlit("8");
        reveal_strlit("9");
        assert(ds@ =~= seq![digit_char((n % 10) as nat)]);
        if n < 10 {
            assert(n % 10 == n) by (nonlinear_arith)
                requires
                    n < 10,
            ;
            assert(dec_digits(n as nat) == seq![digit_char(n as nat)]);
        }
    }
    out.append(ds);
    proof {
        if n >= 10 {
            assert(out@ =~= old(out)@ + dec_digits(n as nat));
        } else {
            assert(out@ =~= old(out)@ + dec_digits(n as nat));
        }
    }
}

/// The fresh name for argument `k` lifted out of a root UDF at depth `s`,
/// position `p`.
pub fn root_trunc_name(s: usize, p: usize, k: usize) -> (r: String)
    ensures
        r@ == spec_root_trunc_name(s as nat, p as nat, k as nat),
{
    let mut out: String = "__TruncateRootUDF_".to_owned();
    push_decimal(s, &mut out);
    out.append("-");
    push_decimal(p, &mut out);
    out.append("-");
    push_decimal(k, &mut out);
    out.append("__");
    proof {
        assert(out@ =~= spec_root_trunc_name(s as nat, p as nat, k as nat));
    }
    out
}

/// The fresh name for the `k`-th UDF child lifted out of an expression at
/// depth `s`, position `p`.
pub fn child_trunc_name(s: usize, p: usize, k: usize) -> (r: String)
    ensures
        r@ == spec_child_trunc_name(s as nat, p as nat, k as nat),
{
    let mut out: String = "__TruncateAnyUDFChildren_".to_owned();
    push_decimal(s, &mut out);
    out.append("-");
    push_decimal(p, &mut out);
    out.append("-");
    push_decimal(k, &mut out);
    out.append("__");
    proof {
        assert(out@ =~= spec_child_trunc_name(s as nat, p as nat, k as nat));
    }
    out
}

} // verus!
