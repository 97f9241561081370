//! Text utilities the engine's contracts are stated over: lexicographic
//! ordering of strings by character (the order of direct filters), string
//! equality, and decimal rendering of identifiers.

use vstd::prelude::*;
use vstd::string::*;
use crate::base::Comparator;

verus! {

/// Strict lexicographic order on character sequences, comparing code points
/// position by position; a proper prefix sorts before its extensions.
pub open spec fn lex_lt(a: Seq<char>, b: Seq<char>) -> bool
    decreases a.len(),
{
    if b.len() == 0 {
        false
    } else if a.len() == 0 {
        true
    } else if a[0] != b[0] {
        (a[0] as int) < (b[0] as int)
    } else {
        lex_lt(a.drop_first(), b.drop_first())
    }
}

/// Once two sequences agree on a prefix, their order is decided at the first
/// index where they differ, or by length if one ends there.
pub proof fn lemma_lex_lt_at(a: Seq<char>, b: Seq<char>, i: int)
    requires
        0 <= i <= a.len(),
        i <= b.len(),
        forall|j: int| 0 <= j < i ==> a[j] == b[j],
        i == a.len() || i == b.len() || a[i] != b[i],
    ensures
        lex_lt(a, b) == if i < a.len() && i < b.len() {
            (a[i] as int) < (b[i] as int)
        } else {
            a.len() < b.len()
        },
    decreases i,
{
    if i > 0 {
        assert(a[0] == b[0]);
        let a1 = a.drop_first();
        let b1 = b.drop_first();
        assert(forall|j: int| 0 <= j < i - 1 ==> a1[j] == b1[j]);
        lemma_lex_lt_at(a1, b1, i - 1);
    }
}

/// Whether `a` sorts strictly before `b` in lexicographic character order.
pub fn str_lt(a: &str, b: &str) -> (r: bool)
    ensures
        r == lex_lt(a@, b@),
{
    let alen = a.unicode_len();
    let blen = b.unicode_len();
    let mut i: usize = 0;
    loop
        invariant
            i <= alen,
            i <= blen,
            alen == a@.len(),
            blen == b@.len(),
            forall|j: int| 0 <= j < i ==> a@[j] == b@[j],
        decreases alen - i,
    {
        if i == alen || i == blen {
            proof {
                lemma_lex_lt_at(a@, b@, i as int);
            }
            return alen < blen;
        }
        let ca = a.get_char(i);
        let cb = b.get_char(i);
        if ca != cb {
            proof {
                lemma_lex_lt_at(a@, b@, i as int);
            }
            return (ca as u32) < (cb as u32);
        }
        i = i + 1;
    }
}

/// Whether `a` and `b` hold the same characters.
pub fn str_eq(a: &str, b: &str) -> (r: bool)
    ensures
        r == (a@ == b@),
{
    let alen = a.unicode_len();
    let blen = b.unicode_len();
    if alen != blen {
        return false;
    }
    let mut i: usize = 0;
    loop
        invariant
            i <= alen,
            alen == a@.len(),
            blen == b@.len(),
            alen == blen,
            forall|j: int| 0 <= j < i ==> a@[j] == b@[j],
        decreases alen - i,
    {
        if i == alen {
            proof {
                assert(a@ =~= b@);
            }
            return true;
        }
        let ca = a.get_char(i);
        let cb = b.get_char(i);
        if ca != cb {
            proof {
                assert(a@ != b@) by {
                    assert(a@[i as int] != b@[i as int]);
                }
            }
            return false;
        }
        i = i + 1;
    }
}

/// What a direct filter's comparator asks of a tag value: a missing value
/// satisfies nothing; present values are compared with the literal as strings.
pub open spec fn direct_sat(cmp: Comparator, lit: Seq<char>, v: Option<Seq<char>>) -> bool {
    match v {
        Option::None => false,
        Option::Some(s) => match cmp {
            Comparator::Equal => s == lit,
            Comparator::NotEqual => s != lit,
            Comparator::GreaterThan => lex_lt(lit, s),
            Comparator::GreaterThanEqual => !lex_lt(s, lit),
            Comparator::LessThan => lex_lt(s, lit),
            Comparator::LessThanEqual => !lex_lt(lit, s),
        },
    }
}

/// Evaluates one direct comparison on an optional tag value.
pub fn eval_direct(cmp: &Comparator, lit: &str, v: &Option<String>) -> (r: bool)
    ensures
        r == direct_sat(*cmp, lit@, v.deep_view()),
{
    match v {
        Option::None => false,
        Option::Some(s) => match cmp {
            Comparator::Equal => str_eq(s.as_str(), lit),
            Comparator::NotEqual => !str_eq(s.as_str(), lit),
            Comparator::GreaterThan => str_lt(lit, s.as_str()),
            Comparator::GreaterThanEqual => !str_lt(s.as_str(), lit),
            Comparator::LessThan => str_lt(s.as_str(), lit),
            Comparator::LessThanEqual => !str_lt(lit, s.as_str()),
        },
    }
}

/// The character of one decimal digit.
pub open spec fn dec_digit(d: int) -> char {
    if d == 0 { '0' }
    else if d == 1 { '1' }
    else if d == 2 { '2' }
    else if d == 3 { '3' }
    else if d == 4 { '4' }
    else if d == 5 { '5' }
    else if d == 6 { '6' }
    else if d == 7 { '7' }
    else if d == 8 { '8' }
    else { '9' }
}

/// The decimal rendering of a number, most significant digit first.
pub open spec fn spec_dec(n: nat) -> Seq<char>
    decreases n,
{
    if n < 10 {
        seq![dec_digit(n as int)]
    } else {
        spec_dec(n / 10).push(dec_digit((n % 10) as int))
    }
}

fn digit_str(d: usize) -> (r: &'static str)
    requires
        d < 10,
    ensures
        r@ =~= seq![dec_digit(d as int)],
{
    proof {
        reveal_strlit("0");
        reveal_strlit("1");
        reveal_strlit("2");
        reveal_strlit("3");
        reveal_strlit("4");
        reveal_strlit("5");
        reveal_strlit("6");
        reveal_strlit("7");
        reveal_strlit("8");
        reveal_strlit("9");
    }
    match d {
        0 => "0",
        1 => "1",
        2 => "2",
        3 => "3",
        4 => "4",
        5 => "5",
        6 => "6",
        7 => "7",
        8 => "8",
        _ => "9",
    }
}

/// Renders a number in decimal.
pub fn dec_string(n: usize) -> (r: String)
    ensures
        r@ == spec_dec(n as nat),
    decreases n,
{
    if n < 10 {
        String::from_str(digit_str(n))
    } else {
        let mut s = dec_string(n / 10);
        s.append(digit_str(n % 10));
        proof {
            assert(s@ =~= spec_dec(n as nat));
        }
        s
    }
}

} // verus!
