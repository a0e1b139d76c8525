//! The pattern parser.  A bit pattern is a string of exactly 8, 16, 32 or 64
//! characters over `0`, `1`, `_`, `.` and `a`-`z`, read MSB first: the
//! character at string index `i` describes bit position `width - 1 - i`.
//! `0` and `1` fix a bit, `_` and `.` mark a don't-care bit, and a lowercase
//! letter accumulates the bit positions of a named variable field.

use vstd::prelude::*;

use crate::bits::bit64;
use crate::bits::lemma_bit_and;
use crate::bits::lemma_bit_ext;
use crate::bits::lemma_bit_or_shift;
use crate::bits::lemma_bit_zero;
use crate::bits::lemma_lt_pow2_high_bits_clear;
use crate::bits::lemma_no_bits_zero;
use crate::errors::ErrorKind;

verus! {

/// `0` or `1`: a fixed bit position.
pub open spec fn is_fixed_char(c: char) -> bool {
    c == '0' || c == '1'
}

/// `_` or `.`: a don't-care bit position.
pub open spec fn is_wildcard_char(c: char) -> bool {
    c == '_' || c == '.'
}

/// A lowercase letter: one bit position of a named variable field.
pub open spec fn is_variable_char(c: char) -> bool {
    97 <= c as u32 && c as u32 <= 122
}

/// Every character a pattern may hold.
pub open spec fn is_pattern_char(c: char) -> bool {
    is_fixed_char(c) || is_wildcard_char(c) || is_variable_char(c)
}

/// The widths a pattern may have.
pub open spec fn valid_width(n: nat) -> bool {
    n == 8 || n == 16 || n == 32 || n == 64
}

/// The mask with every one of `width` bit positions set.
pub open spec fn spec_full_mask(width: nat) -> u64
    recommends
        valid_width(width),
{
    if width == 8 {
        0xFFu64
    } else if width == 16 {
        0xFFFFu64
    } else if width == 32 {
        0xFFFF_FFFFu64
    } else {
        0xFFFF_FFFF_FFFF_FFFFu64
    }
}

/// The fixed-bit mask accumulated from the first `i` pattern characters.
pub open spec fn mask_upto(s: Seq<char>, i: int) -> u64
    decreases i,
{
    if i <= 0 {
        0u64
    } else if is_fixed_char(s[i - 1]) {
        mask_upto(s, i - 1) | (1u64 << ((s.len() - i) as u64))
    } else {
        mask_upto(s, i - 1)
    }
}

/// The expected values of the fixed bits, accumulated from the first `i`
/// pattern characters.
pub open spec fn value_upto(s: Seq<char>, i: int) -> u64
    decreases i,
{
    if i <= 0 {
        0u64
    } else if s[i - 1] == '1' {
        value_upto(s, i - 1) | (1u64 << ((s.len() - i) as u64))
    } else {
        value_upto(s, i - 1)
    }
}

/// The don't-care bits accumulated from the first `i` pattern characters.
pub open spec fn wildcard_upto(s: Seq<char>, i: int) -> u64
    decreases i,
{
    if i <= 0 {
        0u64
    } else if is_wildcard_char(s[i - 1]) {
        wildcard_upto(s, i - 1) | (1u64 << ((s.len() - i) as u64))
    } else {
        wildcard_upto(s, i - 1)
    }
}

/// How often `c` occurs among the first `i` characters.
pub open spec fn count_upto(s: Seq<char>, c: char, i: int) -> int
    decreases i,
{
    if i <= 0 {
        0
    } else {
        count_upto(s, c, i - 1) + if s[i - 1] == c {
            1int
        } else {
            0int
        }
    }
}

/// The smallest index below `i` where `c` occurs, or `-1`.
pub open spec fn first_before(s: Seq<char>, c: char, i: int) -> int
    decreases i,
{
    if i <= 0 {
        -1
    } else if first_before(s, c, i - 1) >= 0 {
        first_before(s, c, i - 1)
    } else if s[i - 1] == c {
        i - 1
    } else {
        -1
    }
}

/// The largest index below `i` where `c` occurs, or `-1`.
pub open spec fn last_before(s: Seq<char>, c: char, i: int) -> int
    decreases i,
{
    if i <= 0 {
        -1
    } else if s[i - 1] == c {
        i - 1
    } else {
        last_before(s, c, i - 1)
    }
}

/// The distinct variable letters among the first `i` characters, in order of
/// first occurrence.
pub open spec fn letters_upto(s: Seq<char>, i: int) -> Seq<char>
    decreases i,
{
    if i <= 0 {
        Seq::empty()
    } else {
        let prev = letters_upto(s, i - 1);
        if is_variable_char(s[i - 1]) && !prev.contains(s[i - 1]) {
            prev.push(s[i - 1])
        } else {
            prev
        }
    }
}

/// The distinct variable letters of the whole pattern.
pub open spec fn pattern_letters(s: Seq<char>) -> Seq<char> {
    letters_upto(s, s.len() as int)
}

/// The occurrences of `c` form one contiguous run of string indices (and so
/// one contiguous run of bit positions).
pub open spec fn letter_contiguous(s: Seq<char>, c: char) -> bool {
    let n = s.len() as int;
    last_before(s, c, n) - first_before(s, c, n) + 1 == count_upto(s, c, n)
}

/// The first letter, in first-occurrence order from index `j` on, whose
/// occurrences are not contiguous.
pub open spec fn first_noncontiguous_from(s: Seq<char>, j: int) -> Option<char>
    decreases pattern_letters(s).len() - j,
{
    if j < 0 || j >= pattern_letters(s).len() {
        None
    } else if !letter_contiguous(s, pattern_letters(s)[j]) {
        Some(pattern_letters(s)[j])
    } else {
        first_noncontiguous_from(s, j + 1)
    }
}

/// The first index at or after `i` holding a character no pattern may hold,
/// or `s.len()` if the characters are all legal.
pub open spec fn first_invalid_from(s: Seq<char>, i: int) -> int
    decreases s.len() - i,
{
    if i < 0 || i >= s.len() {
        s.len() as int
    } else if !is_pattern_char(s[i]) {
        i
    } else {
        first_invalid_from(s, i + 1)
    }
}

/// One variable field: its letter, its lowest bit position, and how many
/// bits it spans.
#[derive(Clone, Copy, Debug, PartialEq, Eq, Structural)]
pub struct VarField {
    pub name: char,
    pub start: usize,
    pub width: usize,
}

/// The variable field that letter `c` describes: its lowest bit position is
/// the one of its last occurrence in string order, its width its number of
/// occurrences.
pub open spec fn spec_var_field(s: Seq<char>, c: char) -> VarField {
    VarField {
        name: c,
        start: (s.len() - 1 - last_before(s, c, s.len() as int)) as usize,
        width: count_upto(s, c, s.len() as int) as usize,
    }
}

/// All variable fields of the pattern, in first-occurrence order.
pub open spec fn spec_variables(s: Seq<char>) -> Seq<VarField> {
    Seq::new(pattern_letters(s).len(), |j: int| spec_var_field(s, pattern_letters(s)[j]))
}

/// The mathematical content of a parsed pattern.
#[verifier::ext_equal]
pub struct PatternModel {
    pub bit_width: nat,
    pub mask: u64,
    pub value: u64,
    pub wildcard_bits: u64,
    pub variables: Seq<VarField>,
}

/// What parsing a pattern string yields: its width must be one of the four
/// legal ones, every character must be legal, and every variable letter must
/// occupy contiguous positions; the first violation, in scan order, is the
/// error.
pub open spec fn spec_parse_pattern(s: Seq<char>) -> Result<PatternModel, ErrorKind> {
    if !valid_width(s.len()) {
        Err(ErrorKind::PatternLength { len: s.len() as usize })
    } else if first_invalid_from(s, 0) < s.len() {
        Err(ErrorKind::PatternChar { ch: s[first_invalid_from(s, 0)] })
    } else {
        match first_noncontiguous_from(s, 0) {
            Some(c) => Err(ErrorKind::NonContiguousVariable { name: c }),
            None => Ok(
                PatternModel {
                    bit_width: s.len(),
                    mask: mask_upto(s, s.len() as int),
                    value: value_upto(s, s.len() as int),
                    wildcard_bits: wildcard_upto(s, s.len() as int),
                    variables: spec_variables(s),
                },
            ),
        }
    }
}

/// A parsed bit pattern.
#[derive(Debug, PartialEq, Eq)]
pub struct BitPattern {
    /// 8, 16, 32 or 64.
    pub bit_width: usize,
    /// Bit set: the position is fixed by the pattern.
    pub mask: u64,
    /// The expected bits where `mask` is set.
    pub value: u64,
    /// Bit set: the position is a don't-care.
    pub wildcard_bits: u64,
    /// The named variable fields.
    pub variables: Vec<VarField>,
}

impl View for BitPattern {
    type V = PatternModel;

    open spec fn view(&self) -> PatternModel {
        PatternModel {
            bit_width: self.bit_width as nat,
            mask: self.mask,
            value: self.value,
            wildcard_bits: self.wildcard_bits,
            variables: self.variables@,
        }
    }
}

/// Scan state for one variable letter: the string indices of its first and
/// last occurrence so far, and how often it has occurred.
#[derive(Clone, Copy)]
struct VarScan {
    name: char,
    first: usize,
    last: usize,
    count: usize,
}

/// The scan entry for letter `c`, if the letter has occurred.
fn find_scan(scans: &Vec<VarScan>, c: char) -> (r: Option<usize>)
    ensures
        match r {
            Some(f) => f < scans@.len() && scans@[f as int].name == c,
            None => forall|j: int| 0 <= j < scans@.len() ==> scans@[j].name != c,
        },
{
    let mut j: usize = 0;
    while j < scans.len()
        invariant
            j <= scans@.len(),
            forall|k: int| 0 <= k < j ==> scans@[k].name != c,
        decreases scans@.len() - j,
    {
        if scans[j].name == c {
            return Some(j);
        }
        j += 1;
    }
    None
}

/// How one scanned character changes the occurrence bookkeeping of every
/// letter at once.
proof fn lemma_occurrence_step(s: Seq<char>, i: int)
    requires
        0 <= i < s.len(),
    ensures
        forall|c: char|
            #[trigger] count_upto(s, c, i + 1) == count_upto(s, c, i) + (if s[i] == c {
                1int
            } else {
                0int
            }),
        forall|c: char|
            #[trigger] last_before(s, c, i + 1) == (if s[i] == c {
                i
            } else {
                last_before(s, c, i)
            }),
        forall|c: char|
            #[trigger] first_before(s, c, i + 1) == (if first_before(s, c, i) >= 0 {
                first_before(s, c, i)
            } else if s[i] == c {
                i
            } else {
                -1int
            }),
{
}

/// How one scanned character changes the letter list, and what the new list
/// contains.
proof fn lemma_letters_step(s: Seq<char>, i: int)
    requires
        0 <= i < s.len(),
    ensures
        letters_upto(s, i + 1) == (if is_variable_char(s[i]) && !letters_upto(s, i).contains(
            s[i],
        ) {
            letters_upto(s, i).push(s[i])
        } else {
            letters_upto(s, i)
        }),
        forall|c: char|
            #[trigger] letters_upto(s, i + 1).contains(c) <==> (letters_upto(s, i).contains(c) || (
            is_variable_char(s[i]) && s[i] == c)),
{
    let prev = letters_upto(s, i);
    assert forall|c: char|
        #[trigger] letters_upto(s, i + 1).contains(c) <==> (prev.contains(c) || (is_variable_char(
            s[i],
        ) && s[i] == c)) by {
        if is_variable_char(s[i]) && !prev.contains(s[i]) {
            let nxt = prev.push(s[i]);
            if prev.contains(c) {
                let j = choose|j: int| 0 <= j < prev.len() && prev[j] == c;
                assert(nxt[j] == c);
            }
            if s[i] == c {
                assert(nxt[prev.len() as int] == c);
            }
            if nxt.contains(c) {
                let j = choose|j: int| 0 <= j < nxt.len() && nxt[j] == c;
                if j < prev.len() {
                    assert(prev[j] == c);
                }
            }
        } else {
            if is_variable_char(s[i]) && s[i] == c {
                assert(prev.contains(c));
            }
        }
    }
}

/// Skipping legal characters does not move the first illegal one.
proof fn lemma_first_invalid_skip(s: Seq<char>, j: int, i: int)
    requires
        0 <= j <= i <= s.len(),
        forall|k: int| j <= k < i ==> is_pattern_char(s[k]),
    ensures
        first_invalid_from(s, j) == first_invalid_from(s, i),
    decreases i - j,
{
    if j < i {
        lemma_first_invalid_skip(s, j + 1, i);
    }
}

/// Skipping contiguous letters does not move the first non-contiguous one.
proof fn lemma_first_noncontig_skip(s: Seq<char>, j0: int, j1: int)
    requires
        0 <= j0 <= j1 <= pattern_letters(s).len(),
        forall|k: int| j0 <= k < j1 ==> letter_contiguous(s, #[trigger] pattern_letters(s)[k]),
    ensures
        first_noncontiguous_from(s, j0) == first_noncontiguous_from(s, j1),
    decreases j1 - j0,
{
    if j0 < j1 {
        lemma_first_noncontig_skip(s, j0 + 1, j1);
    }
}

/// Parses one bit-pattern string.  The result is exactly what
/// `spec_parse_pattern` says of the string's characters, on success and on
/// failure alike.
pub fn parse_pattern(pattern: &str) -> (r: Result<BitPattern, ErrorKind>)
    ensures
        (match r {
            Ok(p) => spec_parse_pattern(pattern@) == Ok::<PatternModel, ErrorKind>(p@),
            Err(k) => spec_parse_pattern(pattern@) == Err::<PatternModel, ErrorKind>(k),
        }),
{
    let ghost s: Seq<char> = pattern@;
    let n = pattern.unicode_len();
    if !(n == 8 || n == 16 || n == 32 || n == 64) {
        return Err(ErrorKind::PatternLength { len: n });
    }
    let mut mask: u64 = 0;
    let mut value: u64 = 0;
    let mut wildcard: u64 = 0;
    let mut scans: Vec<VarScan> = Vec::new();
    let mut i: usize = 0;
    while i < n
        invariant
            s == pattern@,
            n == s.len(),
            valid_width(n as nat),
            i <= n,
            mask == mask_upto(s, i as int),
            value == value_upto(s, i as int),
            wildcard == wildcard_upto(s, i as int),
            forall|k: int| 0 <= k < i ==> is_pattern_char(s[k]),
            scans@.len() == letters_upto(s, i as int).len(),
            forall|j: int|
                0 <= j < scans@.len() ==> (#[trigger] scans@[j]).name == letters_upto(
                    s,
                    i as int,
                )[j],
            forall|j: int|
                0 <= j < scans@.len() ==> is_variable_char((#[trigger] scans@[j]).name),
            forall|j: int, k: int|
                0 <= j < k < scans@.len() ==> (#[trigger] scans@[j]).name != (
                #[trigger] scans@[k]).name,
            forall|j: int|
                0 <= j < scans@.len() ==> {
                    let sc = #[trigger] scans@[j];
                    &&& sc.first == first_before(s, sc.name, i as int)
                    &&& sc.last == last_before(s, sc.name, i as int)
                    &&& sc.count == count_upto(s, sc.name, i as int)
                    &&& sc.first <= sc.last < i
                    &&& 1 <= sc.count <= i
                },
            forall|c: char|
                is_variable_char(c) && !letters_upto(s, i as int).contains(c) ==> {
                    &&& #[trigger] count_upto(s, c, i as int) == 0
                    &&& first_before(s, c, i as int) == -1
                    &&& last_before(s, c, i as int) == -1
                },
        decreases n - i,
    {
        let c = pattern.get_char(i);
        let bit_pos: usize = n - 1 - i;
        let bit: u64 = 1u64 << (bit_pos as u64);
        proof {
            assert(s[i as int] == c);
            assert((s.len() - (i + 1)) as u64 == bit_pos as u64);
            lemma_occurrence_step(s, i as int);
            lemma_letters_step(s, i as int);
        }
        let ghost gi = i as int;
        let ghost scans0 = scans@;
        if c == '0' {
            mask = mask | bit;
        } else if c == '1' {
            mask = mask | bit;
            value = value | bit;
        } else if c == '_' || c == '.' {
            wildcard = wildcard | bit;
        } else if (c as u32) >= 97 && (c as u32) <= 122 {
            match find_scan(&scans, c) {
                Some(f) => {
                    proof {
                        assert(letters_upto(s, gi).contains(c)) by {
                            assert(letters_upto(s, gi)[f as int] == c);
                        }
                        assert(letters_upto(s, gi + 1) == letters_upto(s, gi));
                    }
                    let sc = scans[f];
                    scans.set(
                        f,
                        VarScan { name: c, first: sc.first, last: i, count: sc.count + 1 },
                    );
                    proof {
                        assert forall|j: int| 0 <= j < scans@.len() implies {
                            let sc2 = #[trigger] scans@[j];
                            &&& sc2.name == letters_upto(s, gi + 1)[j]
                            &&& sc2.first == first_before(s, sc2.name, gi + 1)
                            &&& sc2.last == last_before(s, sc2.name, gi + 1)
                            &&& sc2.count == count_upto(s, sc2.name, gi + 1)
                            &&& sc2.first <= sc2.last < gi + 1
                            &&& 1 <= sc2.count <= gi + 1
                        } by {
                            if j == f as int {
                                assert(scans@[j].name == c);
                                assert(first_before(s, c, gi) == scans0[j].first >= 0);
                            } else {
                                assert(scans@[j] == scans0[j]);
                                assert(scans0[j].name != c);
                            }
                        }
                    }
                },
                None => {
                    proof {
                        if letters_upto(s, gi).contains(c) {
                            let j = choose|j: int|
                                0 <= j < letters_upto(s, gi).len() && letters_upto(s, gi)[j] == c;
                            assert(scans@[j].name == c);
                        }
                        assert(!letters_upto(s, gi).contains(c));
                        assert(letters_upto(s, gi + 1) == letters_upto(s, gi).push(c));
                        assert(count_upto(s, c, gi) == 0);
                    }
                    scans.push(VarScan { name: c, first: i, last: i, count: 1 });
                    proof {
                        assert forall|j: int| 0 <= j < scans@.len() implies {
                            let sc2 = #[trigger] scans@[j];
                            &&& sc2.name == letters_upto(s, gi + 1)[j]
                            &&& sc2.first == first_before(s, sc2.name, gi + 1)
                            &&& sc2.last == last_before(s, sc2.name, gi + 1)
                            &&& sc2.count == count_upto(s, sc2.name, gi + 1)
                            &&& sc2.first <= sc2.last < gi + 1
                            &&& 1 <= sc2.count <= gi + 1
                        } by {
                            if j < scans0.len() {
                                assert(scans@[j] == scans0[j]);
                                assert(scans0[j].name != c);
                                assert(letters_upto(s, gi + 1)[j] == letters_upto(s, gi)[j]);
                            } else {
                                assert(scans@[j].name == c);
                                assert(first_before(s, c, gi) == -1);
                                assert(last_before(s, c, gi) == -1);
                            }
                        }
                    }
                },
            }
        } else {
            proof {
                lemma_first_invalid_skip(s, 0, gi);
            }
            return Err(ErrorKind::PatternChar { ch: c });
        }
        proof {
            if !is_variable_char(s[gi]) {
                assert(scans@ == scans0);
                assert(letters_upto(s, gi + 1) == letters_upto(s, gi));
                assert forall|j: int| 0 <= j < scans@.len() implies {
                    let sc2 = #[trigger] scans@[j];
                    &&& sc2.first == first_before(s, sc2.name, gi + 1)
                    &&& sc2.last == last_before(s, sc2.name, gi + 1)
                    &&& sc2.count == count_upto(s, sc2.name, gi + 1)
                } by {
                    assert(is_variable_char(scans@[j].name));
                    assert(s[gi] != scans@[j].name);
                }
            }
            assert forall|c2: char|
                is_variable_char(c2) && !letters_upto(s, gi + 1).contains(c2) implies {
                &&& #[trigger] count_upto(s, c2, gi + 1) == 0
                &&& first_before(s, c2, gi + 1) == -1
                &&& last_before(s, c2, gi + 1) == -1
            } by {
                assert(!letters_upto(s, gi).contains(c2));
                assert(s[gi] != c2 || !is_variable_char(s[gi]));
                if !is_variable_char(s[gi]) {
                    assert(s[gi] != c2);
                }
                assert(count_upto(s, c2, gi) == 0);
            }
        }
        i += 1;
    }
    proof {
        lemma_first_invalid_skip(s, 0, n as int);
    }
    let mut j: usize = 0;
    while j < scans.len()
        invariant
            s == pattern@,
            n == s.len(),
            valid_width(n as nat),
            j <= scans@.len(),
            first_invalid_from(s, 0) == s.len(),
            mask == mask_upto(s, n as int),
            value == value_upto(s, n as int),
            wildcard == wildcard_upto(s, n as int),
            scans@.len() == pattern_letters(s).len(),
            forall|k: int|
                0 <= k < scans@.len() ==> (#[trigger] scans@[k]).name == pattern_letters(s)[k],
            forall|k: int|
                0 <= k < scans@.len() ==> {
                    let sc = #[trigger] scans@[k];
                    &&& sc.first == first_before(s, sc.name, n as int)
                    &&& sc.last == last_before(s, sc.name, n as int)
                    &&& sc.count == count_upto(s, sc.name, n as int)
                    &&& sc.first <= sc.last < n
                    &&& 1 <= sc.count <= n
                },
            forall|k: int| 0 <= k < j ==> letter_contiguous(s, #[trigger] pattern_letters(s)[k]),
        decreases scans@.len() - j,
    {
        let sc = scans[j];
        if sc.last - sc.first + 1 != sc.count {
            proof {
                lemma_first_noncontig_skip(s, 0, j as int);
            }
            return Err(ErrorKind::NonContiguousVariable { name: sc.name });
        }
        j += 1;
    }
    proof {
        lemma_first_noncontig_skip(s, 0, pattern_letters(s).len() as int);
    }
    let mut vars: Vec<VarField> = Vec::new();
    let mut k: usize = 0;
    while k < scans.len()
        invariant
            s == pattern@,
            n == s.len(),
            k <= scans@.len(),
            valid_width(n as nat),
            first_invalid_from(s, 0) == s.len(),
            first_noncontiguous_from(s, 0) is None,
            mask == mask_upto(s, n as int),
            value == value_upto(s, n as int),
            wildcard == wildcard_upto(s, n as int),
            scans@.len() == pattern_letters(s).len(),
            forall|q: int|
                0 <= q < scans@.len() ==> (#[trigger] scans@[q]).name == pattern_letters(s)[q],
            forall|q: int|
                0 <= q < scans@.len() ==> {
                    let sc = #[trigger] scans@[q];
                    &&& sc.last == last_before(s, sc.name, n as int)
                    &&& sc.count == count_upto(s, sc.name, n as int)
                    &&& sc.last < n
                },
            vars@.len() == k,
            forall|q: int|
                0 <= q < k ==> vars@[q] == spec_var_field(s, pattern_letters(s)[q]),
        decreases scans@.len() - k,
    {
        let sc = scans[k];
        vars.push(VarField { name: sc.name, start: n - 1 - sc.last, width: sc.count });
        k += 1;
    }
    let p = BitPattern { bit_width: n, mask, value, wildcard_bits: wildcard, variables: vars };
    proof {
        assert(p@.variables =~= spec_variables(s));
        assert(spec_parse_pattern(s) == Ok::<PatternModel, ErrorKind>(p@)) by {
            assert(p@ =~= spec_parse_pattern(s)->Ok_0);
        }
    }
    Ok(p)
}

/// Bounds tying a letter's occurrence count to its first and last position.
proof fn lemma_occurrence_bounds(s: Seq<char>, c: char, i: int)
    requires
        0 <= i <= s.len(),
    ensures
        0 <= count_upto(s, c, i) <= i,
        (count_upto(s, c, i) > 0) == (last_before(s, c, i) >= 0),
        (count_upto(s, c, i) > 0) == (first_before(s, c, i) >= 0),
        -1 <= last_before(s, c, i) < i,
        -1 <= first_before(s, c, i) < i,
        first_before(s, c, i) <= last_before(s, c, i),
        count_upto(s, c, i) > 0 ==> last_before(s, c, i) >= count_upto(s, c, i) - 1,
    decreases i,
{
    if i > 0 {
        lemma_occurrence_bounds(s, c, i - 1);
    }
}

/// A letter in the scanned list either was in the list one step earlier or
/// is the character just scanned.
proof fn lemma_letters_member_step(s: Seq<char>, i: int, c: char)
    requires
        1 <= i <= s.len(),
        letters_upto(s, i).contains(c),
    ensures
        letters_upto(s, i - 1).contains(c) || s[i - 1] == c,
{
    let prev = letters_upto(s, i - 1);
    if !prev.contains(c) {
        let cur = letters_upto(s, i);
        let j = choose|j: int| 0 <= j < cur.len() && cur[j] == c;
        if is_variable_char(s[i - 1]) && !prev.contains(s[i - 1]) {
            assert(cur == prev.push(s[i - 1]));
            if j < prev.len() {
                assert(prev[j] == c);
            } else {
                assert(cur[j] == s[i - 1]);
            }
        }
    }
}

/// Every letter the scan collects occurs in the scanned prefix.
proof fn lemma_letters_occur(s: Seq<char>, i: int)
    requires
        0 <= i <= s.len(),
    ensures
        forall|c: char| letters_upto(s, i).contains(c) ==> #[trigger] count_upto(s, c, i) > 0,
    decreases i,
{
    if i > 0 {
        lemma_letters_occur(s, i - 1);
        assert forall|c: char| letters_upto(s, i).contains(c) implies #[trigger] count_upto(
            s,
            c,
            i,
        ) > 0 by {
            lemma_letters_member_step(s, i, c);
            lemma_occurrence_bounds(s, c, i - 1);
            assert(count_upto(s, c, i) == count_upto(s, c, i - 1) + (if s[i - 1] == c {
                1int
            } else {
                0int
            }));
            if letters_upto(s, i - 1).contains(c) {
                assert(count_upto(s, c, i - 1) > 0);
            }
        }
    }
}

/// Each variable field of a parsed pattern spans at least one bit and lies
/// inside the pattern's width.
pub proof fn lemma_pattern_var_ranges(s: Seq<char>)
    requires
        spec_parse_pattern(s) is Ok,
    ensures
        forall|j: int|
            0 <= j < spec_parse_pattern(s)->Ok_0.variables.len() ==> {
                let vf = #[trigger] spec_parse_pattern(s)->Ok_0.variables[j];
                &&& 1 <= vf.width
                &&& vf.start + vf.width <= s.len()
            },
{
    let n = s.len() as int;
    lemma_letters_occur(s, n);
    let vars = spec_parse_pattern(s)->Ok_0.variables;
    assert forall|j: int| 0 <= j < vars.len() implies {
        let vf = #[trigger] vars[j];
        &&& 1 <= vf.width
        &&& vf.start + vf.width <= s.len()
    } by {
        let c = pattern_letters(s)[j];
        assert(pattern_letters(s).contains(c)) by {
            assert(pattern_letters(s)[j] == c);
        }
        assert(count_upto(s, c, n) > 0);
        lemma_occurrence_bounds(s, c, n);
        assert(vars[j] == spec_var_field(s, c));
    }
}

/// Which bit each scanned character sets: position `p` of the accumulated
/// masks reflects the character at string index `len - 1 - p`, once the
/// scan has passed it.
proof fn lemma_scan_bits(s: Seq<char>, i: int)
    requires
        s.len() <= 64,
        0 <= i <= s.len(),
    ensures
        forall|p: u64|
            p < 64 ==> #[trigger] bit64(mask_upto(s, i), p) == (s.len() - i <= p < s.len()
                && is_fixed_char(s[s.len() - 1 - p])),
        forall|p: u64|
            p < 64 ==> #[trigger] bit64(value_upto(s, i), p) == (s.len() - i <= p < s.len()
                && s[s.len() - 1 - p] == '1'),
        forall|p: u64|
            p < 64 ==> #[trigger] bit64(wildcard_upto(s, i), p) == (s.len() - i <= p < s.len()
                && is_wildcard_char(s[s.len() - 1 - p])),
    decreases i,
{
    lemma_bit_zero();
    lemma_bit_or_shift();
    if i > 0 {
        lemma_scan_bits(s, i - 1);
        let k = (s.len() - i) as u64;
        assert forall|p: u64| p < 64 implies #[trigger] bit64(mask_upto(s, i), p) == (s.len() - i
            <= p < s.len() && is_fixed_char(s[s.len() - 1 - p])) by {
            if is_fixed_char(s[i - 1]) {
                assert(bit64(mask_upto(s, i - 1) | (1u64 << k), p) == (bit64(
                    mask_upto(s, i - 1),
                    p,
                ) || p == k));
            }
            if p == k {
                assert(s.len() - 1 - p == i - 1);
            }
        }
        assert forall|p: u64| p < 64 implies #[trigger] bit64(value_upto(s, i), p) == (s.len() - i
            <= p < s.len() && s[s.len() - 1 - p] == '1') by {
            if s[i - 1] == '1' {
                assert(bit64(value_upto(s, i - 1) | (1u64 << k), p) == (bit64(
                    value_upto(s, i - 1),
                    p,
                ) || p == k));
            }
            if p == k {
                assert(s.len() - 1 - p == i - 1);
            }
        }
        assert forall|p: u64| p < 64 implies #[trigger] bit64(wildcard_upto(s, i), p) == (s.len()
            - i <= p < s.len() && is_wildcard_char(s[s.len() - 1 - p])) by {
            if is_wildcard_char(s[i - 1]) {
                assert(bit64(wildcard_upto(s, i - 1) | (1u64 << k), p) == (bit64(
                    wildcard_upto(s, i - 1),
                    p,
                ) || p == k));
            }
            if p == k {
                assert(s.len() - 1 - p == i - 1);
            }
        }
    }
}

/// The bits of a parsed pattern, position by position: bit `p` of the mask
/// is set exactly when the pattern fixes position `p`, bit `p` of the value
/// exactly when it fixes it to one, and bit `p` of the wildcard set exactly
/// when position `p` is a don't-care.
pub proof fn lemma_pattern_bits(s: Seq<char>)
    requires
        spec_parse_pattern(s) is Ok,
    ensures
        forall|p: u64|
            p < 64 ==> #[trigger] bit64(spec_parse_pattern(s)->Ok_0.mask, p) == (p < s.len()
                && is_fixed_char(s[s.len() - 1 - p])),
        forall|p: u64|
            p < 64 ==> #[trigger] bit64(spec_parse_pattern(s)->Ok_0.value, p) == (p < s.len() && s[
                s.len() - 1 - p] == '1'),
        forall|p: u64|
            p < 64 ==> #[trigger] bit64(spec_parse_pattern(s)->Ok_0.wildcard_bits, p) == (p
                < s.len() && is_wildcard_char(s[s.len() - 1 - p])),
{
    lemma_scan_bits(s, s.len() as int);
}

/// Don't-care positions lie outside the match mask: the mask and the
/// wildcard bits of a parsed pattern are disjoint.
pub proof fn lemma_wildcards_outside_mask(s: Seq<char>)
    requires
        spec_parse_pattern(s) is Ok,
    ensures
        spec_parse_pattern(s)->Ok_0.mask & spec_parse_pattern(s)->Ok_0.wildcard_bits == 0,
{
    let p = spec_parse_pattern(s)->Ok_0;
    lemma_pattern_bits(s);
    lemma_bit_and();
    assert forall|q: u64| q < 64 implies !#[trigger] bit64(p.mask & p.wildcard_bits, q) by {
        assert(bit64(p.mask & p.wildcard_bits, q) == (bit64(p.mask, q) && bit64(
            p.wildcard_bits,
            q,
        )));
    }
    lemma_no_bits_zero(p.mask & p.wildcard_bits);
}

/// An opcode of the pattern's width has no bit above the width.
proof fn lemma_opcode_high_bits(opcode: u64, width: nat)
    requires
        valid_width(width),
        opcode <= spec_full_mask(width),
    ensures
        forall|p: u64| width <= p < 64 ==> !#[trigger] bit64(opcode, p),
{
    assert((1u64 << 8u64) == 0x100 && (1u64 << 16u64) == 0x10000 && (1u64 << 32u64)
        == 0x1_0000_0000) by (bit_vector);
    if width == 8 {
        lemma_lt_pow2_high_bits_clear(opcode, 8);
    } else if width == 16 {
        lemma_lt_pow2_high_bits_clear(opcode, 16);
    } else if width == 32 {
        lemma_lt_pow2_high_bits_clear(opcode, 32);
    }
}

/// A pattern of `0` and `1` alone accepts exactly its own literal value:
/// for every opcode of the pattern's width, the masked comparison succeeds
/// only for the value the pattern spells, and always for it.
pub proof fn lemma_exact_pattern_matches_only_itself(s: Seq<char>, opcode: u64)
    requires
        spec_parse_pattern(s) is Ok,
        forall|i: int| 0 <= i < s.len() ==> is_fixed_char(#[trigger] s[i]),
        opcode <= spec_full_mask(s.len()),
    ensures
        (opcode & spec_parse_pattern(s)->Ok_0.mask == spec_parse_pattern(s)->Ok_0.value) <==> (
        opcode == spec_parse_pattern(s)->Ok_0.value),
{
    let p = spec_parse_pattern(s)->Ok_0;
    lemma_pattern_bits(s);
    lemma_bit_and();
    lemma_opcode_high_bits(opcode, s.len());
    assert(forall|i: int| 0 <= i < s.len() ==> is_fixed_char(#[trigger] s[i]));
    assert forall|q: u64| q < 64 && q < s.len() implies #[trigger] bit64(p.mask, q) by {
        assert(is_fixed_char(s[s.len() - 1 - q]));
    }
    if opcode & p.mask == p.value {
        assert forall|q: u64| q < 64 implies #[trigger] bit64(opcode, q) == bit64(p.value, q) by {
            assert(bit64(opcode & p.mask, q) == (bit64(opcode, q) && bit64(p.mask, q)));
            if q < s.len() {
                assert(bit64(p.mask, q));
            } else {
                assert(!bit64(opcode, q));
                assert(!bit64(p.value, q));
            }
        }
        lemma_bit_ext(opcode, p.value);
    }
    if opcode == p.value {
        assert forall|q: u64| q < 64 implies #[trigger] bit64(opcode & p.mask, q) == bit64(
            p.value,
            q,
        ) by {
            assert(bit64(opcode & p.mask, q) == (bit64(opcode, q) && bit64(p.mask, q)));
            if q < s.len() {
                assert(bit64(p.mask, q));
            }
        }
        lemma_bit_ext(opcode & p.mask, p.value);
    }
}

/// Bits at don't-care positions never decide a match: two opcodes that
/// agree on every mask position are accepted or rejected together.
pub proof fn lemma_wildcard_bits_do_not_matter(s: Seq<char>, o1: u64, o2: u64)
    requires
        spec_parse_pattern(s) is Ok,
        forall|p: u64|
            p < 64 && #[trigger] bit64(spec_parse_pattern(s)->Ok_0.mask, p) ==> bit64(o1, p)
                == bit64(o2, p),
    ensures
        (o1 & spec_parse_pattern(s)->Ok_0.mask == spec_parse_pattern(s)->Ok_0.value) == (o2
            & spec_parse_pattern(s)->Ok_0.mask == spec_parse_pattern(s)->Ok_0.value),
{
    let p = spec_parse_pattern(s)->Ok_0;
    lemma_bit_and();
    assert forall|q: u64| q < 64 implies #[trigger] bit64(o1 & p.mask, q) == bit64(
        o2 & p.mask,
        q,
    ) by {
        assert(bit64(o1 & p.mask, q) == (bit64(o1, q) && bit64(p.mask, q)));
        assert(bit64(o2 & p.mask, q) == (bit64(o2, q) && bit64(p.mask, q)));
    }
    lemma_bit_ext(o1 & p.mask, o2 & p.mask);
}

/// Bit position `q` lies inside some variable field.
pub open spec fn in_variable_field(vars: Seq<VarField>, q: u64) -> bool {
    exists|j: int|
        0 <= j < vars.len() && (#[trigger] vars[j]).start <= q < vars[j].start + vars[j].width
}

/// The span of a letter's occurrences: every occurrence lies between the
/// first and the last one, those two indices are occurrences themselves,
/// and the span exists exactly when the letter occurs at all.
proof fn lemma_occurrence_span(s: Seq<char>, c: char, i: int)
    requires
        0 <= i <= s.len(),
    ensures
        (first_before(s, c, i) == -1) == (count_upto(s, c, i) == 0),
        (last_before(s, c, i) == -1) == (count_upto(s, c, i) == 0),
        first_before(s, c, i) >= 0 ==> {
            &&& first_before(s, c, i) <= last_before(s, c, i) < i
            &&& s[first_before(s, c, i)] == c
            &&& s[last_before(s, c, i)] == c
        },
        forall|idx: int|
            0 <= idx < i && s[idx] == c ==> first_before(s, c, i) <= idx <= last_before(s, c, i),
    decreases i,
{
    lemma_occurrence_bounds(s, c, i);
    if i > 0 {
        lemma_occurrence_span(s, c, i - 1);
        lemma_occurrence_bounds(s, c, i - 1);
    }
}

/// The number of occurrences in an index range never exceeds its length.
proof fn lemma_count_diff_bounded(s: Seq<char>, c: char, a: int, b: int)
    requires
        0 <= a <= b <= s.len(),
    ensures
        0 <= count_upto(s, c, b) - count_upto(s, c, a) <= b - a,
    decreases b - a,
{
    if a < b {
        lemma_count_diff_bounded(s, c, a, b - 1);
    }
}

/// Pigeonhole: a range holding as many occurrences of `c` as it has indices
/// is made of `c` alone.
proof fn lemma_full_run(s: Seq<char>, c: char, a: int, b: int)
    requires
        0 <= a <= b <= s.len(),
        count_upto(s, c, b) - count_upto(s, c, a) == b - a,
    ensures
        forall|idx: int| a <= idx < b ==> s[idx] == c,
    decreases b - a,
{
    if a < b {
        lemma_count_diff_bounded(s, c, a, b - 1);
        assert(count_upto(s, c, b) == count_upto(s, c, b - 1) + (if s[b - 1] == c {
            1int
        } else {
            0int
        }));
        lemma_full_run(s, c, a, b - 1);
    }
}

/// No occurrence of `c` precedes its first one or follows its last one; so
/// the occurrence counts outside that span are flat.
proof fn lemma_count_outside_span(s: Seq<char>, c: char)
    requires
        last_before(s, c, s.len() as int) >= 0,
    ensures
        count_upto(s, c, first_before(s, c, s.len() as int)) == 0,
        count_upto(s, c, last_before(s, c, s.len() as int) + 1) == count_upto(
            s,
            c,
            s.len() as int,
        ),
{
    let n = s.len() as int;
    let first = first_before(s, c, n);
    let last = last_before(s, c, n);
    lemma_occurrence_span(s, c, n);
    lemma_count_zero_prefix(s, c, first, n);
    lemma_count_flat_suffix(s, c, n, n);
}

/// Counts are zero before the first occurrence.
proof fn lemma_count_zero_prefix(s: Seq<char>, c: char, j: int, n: int)
    requires
        n == s.len(),
        0 <= j <= first_before(s, c, n),
        forall|idx: int|
            0 <= idx < n && s[idx] == c ==> first_before(s, c, n) <= idx <= last_before(s, c, n),
    ensures
        count_upto(s, c, j) == 0,
    decreases j,
{
    lemma_occurrence_bounds(s, c, n);
    if j > 0 {
        lemma_count_zero_prefix(s, c, j - 1, n);
        if s[j - 1] == c {
            assert(first_before(s, c, n) <= j - 1 <= last_before(s, c, n));
            assert(false);
        }
    }
}

/// Counts are flat after the last occurrence.
proof fn lemma_count_flat_suffix(s: Seq<char>, c: char, j: int, n: int)
    requires
        n == s.len(),
        last_before(s, c, n) + 1 <= j <= n,
        forall|idx: int|
            0 <= idx < n && s[idx] == c ==> first_before(s, c, n) <= idx <= last_before(s, c, n),
    ensures
        count_upto(s, c, j) == count_upto(s, c, last_before(s, c, n) + 1),
    decreases j - last_before(s, c, n),
{
    lemma_occurrence_bounds(s, c, n);
    if j > last_before(s, c, n) + 1 {
        lemma_count_flat_suffix(s, c, j - 1, n);
        if s[j - 1] == c {
            assert(first_before(s, c, n) <= j - 1 <= last_before(s, c, n));
            assert(false);
        }
    }
}

/// A contiguous letter occupies every string index between its first and
/// last occurrence.
proof fn lemma_contiguous_letter_run(s: Seq<char>, c: char)
    requires
        last_before(s, c, s.len() as int) >= 0,
        letter_contiguous(s, c),
    ensures
        forall|idx: int|
            first_before(s, c, s.len() as int) <= idx <= last_before(s, c, s.len() as int) ==> s[
                idx] == c,
{
    let n = s.len() as int;
    let first = first_before(s, c, n);
    let last = last_before(s, c, n);
    lemma_occurrence_span(s, c, n);
    lemma_count_outside_span(s, c);
    lemma_count_diff_bounded(s, c, last + 1, n);
    assert(count_upto(s, c, last + 1) - count_upto(s, c, first) == last + 1 - first);
    lemma_full_run(s, c, first, last + 1);
}

/// Every variable character the pattern holds appears in the letter list.
proof fn lemma_letters_complete(s: Seq<char>, i: int)
    requires
        0 <= i <= s.len(),
    ensures
        forall|idx: int|
            0 <= idx < i && is_variable_char(#[trigger] s[idx]) ==> letters_upto(s, i).contains(
                s[idx],
            ),
    decreases i,
{
    if i > 0 {
        lemma_letters_complete(s, i - 1);
        lemma_letters_step(s, i - 1);
        assert forall|idx: int| 0 <= idx < i && is_variable_char(#[trigger] s[idx]) implies
            letters_upto(s, i).contains(s[idx]) by {
            if idx < i - 1 {
                assert(letters_upto(s, i - 1).contains(s[idx]));
            }
        }
    }
}

/// The letter list holds variable characters only.
proof fn lemma_letters_variable(s: Seq<char>, i: int)
    requires
        0 <= i <= s.len(),
    ensures
        forall|c: char| #[trigger] letters_upto(s, i).contains(c) ==> is_variable_char(c),
    decreases i,
{
    if i > 0 {
        lemma_letters_variable(s, i - 1);
        lemma_letters_step(s, i - 1);
    }
}

/// The letter list holds no letter twice.
proof fn lemma_letters_distinct(s: Seq<char>, i: int)
    requires
        0 <= i <= s.len(),
    ensures
        forall|j: int, k: int|
            0 <= j < k < letters_upto(s, i).len() ==> #[trigger] letters_upto(s, i)[j] != (
            #[trigger] letters_upto(s, i)[k]),
    decreases i,
{
    if i > 0 {
        lemma_letters_distinct(s, i - 1);
        let prev = letters_upto(s, i - 1);
        if is_variable_char(s[i - 1]) && !prev.contains(s[i - 1]) {
            assert forall|j: int, k: int|
                0 <= j < k < letters_upto(s, i).len() implies #[trigger] letters_upto(s, i)[j] != (
            #[trigger] letters_upto(s, i)[k]) by {
                if k == prev.len() {
                    assert(letters_upto(s, i)[j] == prev[j]);
                    assert(prev.contains(prev[j]));
                }
            }
        }
    }
}

/// Legal characters everywhere, once the scan for an illegal one comes back
/// empty.
proof fn lemma_all_chars_valid(s: Seq<char>, i: int)
    requires
        0 <= i <= s.len(),
        first_invalid_from(s, i) >= s.len(),
    ensures
        forall|idx: int| i <= idx < s.len() ==> is_pattern_char(#[trigger] s[idx]),
    decreases s.len() - i,
{
    if i < s.len() {
        lemma_all_chars_valid(s, i + 1);
    }
}

/// Contiguous letters everywhere, once the scan for a non-contiguous one
/// comes back empty.
proof fn lemma_all_letters_contiguous(s: Seq<char>, j: int)
    requires
        0 <= j <= pattern_letters(s).len(),
        first_noncontiguous_from(s, j) is None,
    ensures
        forall|k: int|
            j <= k < pattern_letters(s).len() ==> letter_contiguous(
                s,
                #[trigger] pattern_letters(s)[k],
            ),
    decreases pattern_letters(s).len() - j,
{
    if j < pattern_letters(s).len() {
        lemma_all_letters_contiguous(s, j + 1);
    }
}

/// The data-model invariant of a parsed pattern: every one of its bit
/// positions is fixed, a don't-care, or part of exactly one variable field,
/// and the three kinds never overlap.  The expected value only sets fixed
/// bits.
pub proof fn lemma_pattern_partition(s: Seq<char>)
    requires
        spec_parse_pattern(s) is Ok,
    ensures
        forall|q: u64|
            q < spec_parse_pattern(s)->Ok_0.bit_width ==> (bit64(
                spec_parse_pattern(s)->Ok_0.mask,
                q,
            ) || bit64(spec_parse_pattern(s)->Ok_0.wildcard_bits, q) || in_variable_field(
                spec_parse_pattern(s)->Ok_0.variables,
                q,
            )),
        forall|q: u64|
            q < 64 ==> !(bit64(spec_parse_pattern(s)->Ok_0.mask, q) && bit64(
                spec_parse_pattern(s)->Ok_0.wildcard_bits,
                q,
            )),
        forall|q: u64|
            q < 64 && bit64(spec_parse_pattern(s)->Ok_0.mask, q) ==> !in_variable_field(
                spec_parse_pattern(s)->Ok_0.variables,
                q,
            ),
        forall|q: u64|
            q < 64 && bit64(spec_parse_pattern(s)->Ok_0.wildcard_bits, q) ==> !in_variable_field(
                spec_parse_pattern(s)->Ok_0.variables,
                q,
            ),
        forall|q: u64|
            q < 64 && bit64(spec_parse_pattern(s)->Ok_0.value, q) ==> bit64(
                spec_parse_pattern(s)->Ok_0.mask,
                q,
            ),
{
    let n = s.len() as int;
    let p = spec_parse_pattern(s)->Ok_0;
    let vars = p.variables;
    lemma_pattern_bits(s);
    lemma_all_chars_valid(s, 0);
    lemma_all_letters_contiguous(s, 0);
    lemma_letters_complete(s, n);
    lemma_letters_occur(s, n);
    assert forall|j: int| 0 <= j < vars.len() implies {
        &&& letter_contiguous(s, pattern_letters(s)[j])
        &&& #[trigger] vars[j] == spec_var_field(s, pattern_letters(s)[j])
        &&& count_upto(s, pattern_letters(s)[j], n) > 0
    } by {
        assert(pattern_letters(s).contains(pattern_letters(s)[j]));
    }
    // Coverage: each position below the width is of one of the three kinds.
    assert forall|q: u64| q < p.bit_width implies (bit64(p.mask, q) || bit64(p.wildcard_bits, q)
        || in_variable_field(vars, q)) by {
        let idx = n - 1 - q;
        let c = s[idx];
        assert(is_pattern_char(c));
        if is_variable_char(c) {
            assert(letters_upto(s, n).contains(c));
            let j = choose|j: int| 0 <= j < pattern_letters(s).len() && pattern_letters(s)[j] == c;
            lemma_occurrence_bounds(s, c, n);
            lemma_occurrence_span(s, c, n);
            assert(vars[j] == spec_var_field(s, c));
            let first = first_before(s, c, n);
            let last = last_before(s, c, n);
            assert(first <= idx <= last);
            assert(letter_contiguous(s, c));
            assert(vars[j].start <= q < vars[j].start + vars[j].width);
            assert(in_variable_field(vars, q));
        }
    }
    // Disjointness: a field position is a letter, so neither fixed nor a
    // don't-care.
    assert forall|q: u64| q < 64 && in_variable_field(vars, q) implies !bit64(p.mask, q)
        && !bit64(p.wildcard_bits, q) by {
        let j = choose|j: int|
            0 <= j < vars.len() && (#[trigger] vars[j]).start <= q < vars[j].start
                + vars[j].width;
        let c = pattern_letters(s)[j];
        assert(pattern_letters(s).contains(c)) by {
            assert(pattern_letters(s)[j] == c);
        }
        assert(letter_contiguous(s, c));
        assert(count_upto(s, c, n) > 0);
        lemma_letters_variable(s, n);
        assert(is_variable_char(c));
        lemma_occurrence_bounds(s, c, n);
        lemma_occurrence_span(s, c, n);
        lemma_contiguous_letter_run(s, c);
        let first = first_before(s, c, n);
        let last = last_before(s, c, n);
        assert(count_upto(s, c, n) == last - first + 1);
        assert(vars[j] == spec_var_field(s, c));
        assert(vars[j].start == n - 1 - last);
        assert(vars[j].width == last - first + 1);
        let idx = n - 1 - q;
        assert(first <= idx <= last);
        assert(s[idx] == c);
        assert(is_variable_char(s[n - 1 - q]));
        assert(q < p.bit_width);
    }
}

/// Variable fields are pairwise disjoint: a bit position inside two fields
/// is inside one field named twice.
pub proof fn lemma_variable_fields_disjoint(s: Seq<char>, j: int, k: int, q: u64)
    requires
        spec_parse_pattern(s) is Ok,
        0 <= j < spec_parse_pattern(s)->Ok_0.variables.len(),
        0 <= k < spec_parse_pattern(s)->Ok_0.variables.len(),
        spec_parse_pattern(s)->Ok_0.variables[j].start <= q < spec_parse_pattern(
            s,
        )->Ok_0.variables[j].start + spec_parse_pattern(s)->Ok_0.variables[j].width,
        spec_parse_pattern(s)->Ok_0.variables[k].start <= q < spec_parse_pattern(
            s,
        )->Ok_0.variables[k].start + spec_parse_pattern(s)->Ok_0.variables[k].width,
    ensures
        j == k,
{
    let n = s.len() as int;
    lemma_letters_distinct(s, n);
    lemma_field_position_letter(s, j, q);
    lemma_field_position_letter(s, k, q);
    assert(s[n - 1 - q] == pattern_letters(s)[j] && s[n - 1 - q] == pattern_letters(s)[k]);
    if j != k {
        assert(pattern_letters(s)[j] != pattern_letters(s)[k]);
    }
}

/// A bit position inside a variable field holds that field's letter.
proof fn lemma_field_position_letter(s: Seq<char>, j: int, q: u64)
    requires
        spec_parse_pattern(s) is Ok,
        0 <= j < spec_parse_pattern(s)->Ok_0.variables.len(),
        spec_parse_pattern(s)->Ok_0.variables[j].start <= q < spec_parse_pattern(
            s,
        )->Ok_0.variables[j].start + spec_parse_pattern(s)->Ok_0.variables[j].width,
    ensures
        q < s.len(),
        s[s.len() - 1 - q] == pattern_letters(s)[j],
{
    let n = s.len() as int;
    let vars = spec_parse_pattern(s)->Ok_0.variables;
    let c = pattern_letters(s)[j];
    lemma_all_letters_contiguous(s, 0);
    lemma_letters_occur(s, n);
    assert(pattern_letters(s).contains(c)) by {
        assert(pattern_letters(s)[j] == c);
    }
    assert(letter_contiguous(s, c));
    assert(count_upto(s, c, n) > 0);
    lemma_occurrence_bounds(s, c, n);
    lemma_occurrence_span(s, c, n);
    lemma_contiguous_letter_run(s, c);
    let first = first_before(s, c, n);
    let last = last_before(s, c, n);
    assert(vars[j] == spec_var_field(s, c));
    assert(vars[j].start == n - 1 - last);
    assert(vars[j].width == last - first + 1);
    let idx = n - 1 - q;
    assert(first <= idx <= last);
    assert(s[idx] == c);
}

/// The mask with every bit position of the given width set.
pub fn make_full_mask(bit_width: usize) -> (r: u64)
    requires
        valid_width(bit_width as nat),
    ensures
        r == spec_full_mask(bit_width as nat),
{
    if bit_width == 8 {
        0xFF
    } else if bit_width == 16 {
        0xFFFF
    } else if bit_width == 32 {
        0xFFFF_FFFF
    } else {
        0xFFFF_FFFF_FFFF_FFFF
    }
}

} // verus!
