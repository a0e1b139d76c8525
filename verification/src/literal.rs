//! Binding literals.  Each legal value of a variable field is written as a
//! binary literal, optionally prefixed with `0b`, whose digits are read most
//! significant first.

use vstd::prelude::*;

verus! {

/// `0` or `1`.
pub open spec fn is_binary_digit(c: char) -> bool {
    c == '0' || c == '1'
}

/// The digit characters of a literal: everything after an optional `0b` or
/// `0B` prefix.
pub open spec fn literal_digits(s: Seq<char>) -> Seq<char> {
    if s.len() >= 2 && s[0] == '0' && (s[1] == 'b' || s[1] == 'B') {
        s.skip(2)
    } else {
        s
    }
}

/// The number a digit string denotes, most significant digit first; a digit
/// other than `1` counts as `0`.
pub open spec fn binary_value(s: Seq<char>) -> nat
    decreases s.len(),
{
    if s.len() == 0 {
        0
    } else {
        2 * binary_value(s.drop_last()) + (if s.last() == '1' {
            1nat
        } else {
            0nat
        })
    }
}

/// A literal is well formed when it has at least one digit, every digit is
/// binary, and its value fits in 64 bits.
pub open spec fn well_formed_literal(s: Seq<char>) -> bool {
    let d = literal_digits(s);
    &&& d.len() > 0
    &&& forall|i: int| 0 <= i < d.len() ==> is_binary_digit(#[trigger] d[i])
    &&& binary_value(d) < 0x1_0000_0000_0000_0000
}

/// The value of a well-formed literal.
pub open spec fn spec_literal_value(s: Seq<char>) -> u64 {
    binary_value(literal_digits(s)) as u64
}

/// Reading one more digit doubles the value and adds the digit.
proof fn lemma_binary_value_step(d: Seq<char>, m: int)
    requires
        0 <= m < d.len(),
    ensures
        binary_value(d.take(m + 1)) == 2 * binary_value(d.take(m)) + (if d[m] == '1' {
            1nat
        } else {
            0nat
        }),
{
    assert(d.take(m + 1).drop_last() =~= d.take(m));
    assert(d.take(m + 1).last() == d[m]);
}

/// Reading further digits never shrinks the value.
proof fn lemma_binary_value_monotone(d: Seq<char>, j: int, k: int)
    requires
        0 <= j <= k <= d.len(),
    ensures
        binary_value(d.take(k)) >= binary_value(d.take(j)),
    decreases k - j,
{
    if j < k {
        lemma_binary_value_monotone(d, j, k - 1);
        lemma_binary_value_step(d, k - 1);
    }
}

/// Parses one binding literal.  Returns its value exactly when the literal
/// is well formed.
pub fn parse_bit_literal(lit: &str) -> (r: Option<u64>)
    ensures
        r is Some <==> well_formed_literal(lit@),
        (r matches Some(v) ==> v == spec_literal_value(lit@)),
{
    let ghost s: Seq<char> = lit@;
    let n = lit.unicode_len();
    let start: usize = if n >= 2 {
        let c0 = lit.get_char(0);
        let c1 = lit.get_char(1);
        if c0 == '0' && (c1 == 'b' || c1 == 'B') {
            2
        } else {
            0
        }
    } else {
        0
    };
    let ghost d: Seq<char> = literal_digits(s);
    proof {
        assert(d =~= s.skip(start as int));
    }
    let m = n - start;
    if m == 0 {
        return None;
    }
    let mut acc: u64 = 0;
    let mut j: usize = 0;
    while j < m
        invariant
            s == lit@,
            n == s.len(),
            start + m == n,
            d == literal_digits(s),
            d =~= s.skip(start as int),
            m == d.len(),
            0 < m,
            j <= m,
            forall|k: int| 0 <= k < j ==> is_binary_digit(#[trigger] d[k]),
            acc == binary_value(d.take(j as int)),
        decreases m - j,
    {
        let c = lit.get_char(start + j);
        proof {
            assert(d[j as int] == s[start + j as int]);
        }
        if c != '0' && c != '1' {
            proof {
                assert(!is_binary_digit(d[j as int]));
            }
            return None;
        }
        proof {
            lemma_binary_value_step(d, j as int);
        }
        if acc >= 0x8000_0000_0000_0000 {
            proof {
                lemma_binary_value_monotone(d, j + 1, d.len() as int);
                assert(d.take(d.len() as int) =~= d);
                assert(binary_value(d) >= 0x1_0000_0000_0000_0000);
            }
            return None;
        }
        acc = acc * 2 + (if c == '1' {
            1
        } else {
            0
        });
        j += 1;
    }
    proof {
        assert(d.take(m as int) =~= d);
    }
    Some(acc)
}

} // verus!
