//! Decimal numerals and the names that avoid a collision: `name (1).ext`,
//! `name (2).ext`, and so on.

use vstd::prelude::*;
use crate::paths::{extension_of, file_name_of, last_index_of, lemma_last_index_of, stem_of};
use crate::paths::{split_extension, file_name, last_index};

verus! {

/// The decimal digits, in order of value.
pub open spec fn digits() -> Seq<char> {
    seq!['0', '1', '2', '3', '4', '5', '6', '7', '8', '9']
}

/// The decimal numeral of `n`, without leading zeros.
pub open spec fn decimal_of(n: nat) -> Seq<char>
    decreases n,
{
    if n < 10 {
        seq![digits()[n as int]]
    } else {
        decimal_of(n / 10).push(digits()[(n % 10) as int])
    }
}

proof fn lemma_digits_distinct(a: int, b: int)
    requires
        0 <= a < 10,
        0 <= b < 10,
        digits()[a] == digits()[b],
    ensures
        a == b,
{
}

/// Distinct numbers have distinct numerals.
pub proof fn lemma_decimal_injective(a: nat, b: nat)
    requires
        decimal_of(a) == decimal_of(b),
    ensures
        a == b,
    decreases a + b,
{
    if a >= 10 && b >= 10 {
        assert(decimal_of(a).last() == digits()[(a % 10) as int]);
        assert(decimal_of(b).last() == digits()[(b % 10) as int]);
        lemma_digits_distinct((a % 10) as int, (b % 10) as int);
        assert(decimal_of(a / 10) == decimal_of(a).drop_last());
        assert(decimal_of(b / 10) == decimal_of(b).drop_last());
        lemma_decimal_injective(a / 10, b / 10);
    } else if a < 10 && b < 10 {
        assert(decimal_of(a)[0] == digits()[a as int]);
        assert(decimal_of(b)[0] == digits()[b as int]);
        lemma_digits_distinct(a as int, b as int);
    } else {
        lemma_decimal_len(a);
        lemma_decimal_len(b);
    }
}

proof fn lemma_decimal_len(n: nat)
    ensures
        decimal_of(n).len() >= 1,
        n >= 10 ==> decimal_of(n).len() >= 2,
    decreases n,
{
    if n >= 10 {
        lemma_decimal_len(n / 10);
    }
}

/// The decimal numeral of `n`.
pub fn decimal(n: u64) -> (r: String)
    ensures
        r@ == decimal_of(n as nat),
{
    proof {
        reveal_strlit("0123456789");
    }
    let ds = "0123456789";
    let mut m: u64 = n;
    let mut r = String::new();
    assert(decimal_of(n as nat) == decimal_of(m as nat) + r@);
    while m >= 10
        invariant
            decimal_of(n as nat) == decimal_of(m as nat) + r@,
            ds@ == digits(),
        decreases m,
    {
        let d = (m % 10) as usize;
        let digit = ds.substring_char(d, d + 1);
        assert(digit@ =~= seq![digits()[d as int]]);
        let ghost r0 = r@;
        r = String::from_str(digit).concat(r.as_str());
        assert(decimal_of(m as nat) == decimal_of((m / 10) as nat).push(digits()[d as int]));
        assert(decimal_of(m as nat) + r0 =~= decimal_of((m / 10) as nat) + r@);
        m = m / 10;
    }
    let d = m as usize;
    let digit = ds.substring_char(d, d + 1);
    assert(digit@ =~= seq![digits()[d as int]]);
    let ghost r0 = r@;
    r = String::from_str(digit).concat(r.as_str());
    assert(r@ =~= decimal_of(m as nat) + r0);
    r
}

/// The name `stem (k)` followed by `.ext` when the name has a non-empty
/// extension.
pub open spec fn numbered_name(name: Seq<char>, k: nat) -> Seq<char> {
    let counted = stem_of(name) + seq![' ', '('] + decimal_of(k) + seq![')'];
    match extension_of(name) {
        Some(e) => if e.len() > 0 {
            counted + seq!['.'] + e
        } else {
            counted
        },
        None => counted,
    }
}

/// The path with its file name replaced by the numbered one.
pub open spec fn candidate_of(hint: Seq<char>, k: nat) -> Seq<char> {
    if k == 0 {
        hint
    } else {
        hint.subrange(0, last_index_of(hint, '/') + 1) + numbered_name(file_name_of(hint), k)
    }
}

/// No two attempts at placing a file try the same path: the desired path
/// and each numbered one all differ, so a file moved to the first free one
/// never replaces another.
pub proof fn lemma_candidates_distinct(hint: Seq<char>, j: nat, k: nat)
    requires
        j != k,
    ensures
        candidate_of(hint, j) != candidate_of(hint, k),
{
    let name = file_name_of(hint);
    let pre = hint.subrange(0, last_index_of(hint, '/') + 1);
    lemma_last_index_of(hint, '/');
    lemma_last_index_of(name, '.');
    lemma_decimal_len(j);
    lemma_decimal_len(k);
    assert(hint =~= pre + name);
    if j == 0 || k == 0 {
        let m = if j == 0 { k } else { j };
        assert(numbered_name(name, m).len() > name.len());
        assert(candidate_of(hint, m).len() > hint.len());
    } else {
        let a = candidate_of(hint, j);
        let b = candidate_of(hint, k);
        if a == b {
            let start: int = (pre.len() + stem_of(name).len() + 2) as int;
            let cj = stem_of(name) + seq![' ', '('] + decimal_of(j) + seq![')'];
            let ck = stem_of(name) + seq![' ', '('] + decimal_of(k) + seq![')'];
            let tail = match extension_of(name) {
                Some(e) => if e.len() > 0 {
                    seq!['.'] + e
                } else {
                    seq![]
                },
                None => seq![],
            };
            assert(numbered_name(name, j) =~= cj + tail);
            assert(numbered_name(name, k) =~= ck + tail);
            assert(a =~= pre + cj + tail);
            assert(b =~= pre + ck + tail);
            assert(decimal_of(j).len() == decimal_of(k).len());
            assert(a.subrange(start, start + decimal_of(j).len()) =~= decimal_of(j));
            assert(b.subrange(start, start + decimal_of(k).len()) =~= decimal_of(k));
            lemma_decimal_injective(j, k);
        }
    }
}

/// The `k`-th place tried for a file whose desired place is `hint`: `hint`
/// itself first, then `hint` with the counter put between stem and
/// extension.
pub fn candidate_path(hint: &str, k: u64) -> (r: String)
    ensures
        r@ == candidate_of(hint@, k as nat),
{
    if k == 0 {
        return String::from_str(hint);
    }
    proof {
        lemma_last_index_of(hint@, '/');
        reveal_strlit(" (");
        reveal_strlit(")");
        reveal_strlit(".");
    }
    let n = hint.unicode_len();
    let dir = match last_index(hint, '/') {
        Some(i) => String::from_str(hint.substring_char(0, i + 1)),
        None => String::new(),
    };
    let name = file_name(hint);
    let (stem, ext) = split_extension(name.as_str());
    let num = decimal(k);
    let counted = stem.concat(" (").concat(num.as_str()).concat(")");
    let full = match ext {
        Some(e) => {
            if e.as_str().unicode_len() > 0 {
                counted.concat(".").concat(e.as_str())
            } else {
                counted
            }
        },
        None => counted,
    };
    let r = dir.concat(full.as_str());
    assert(r@ =~= candidate_of(hint@, k as nat));
    r
}

} // verus!
