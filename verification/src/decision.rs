//! The decision table and its dispatcher.  A compiled table is an ordered
//! list of `(mask, value, invocation)` entries; dispatching an opcode scans
//! them top to bottom and yields the invocation of the first entry whose
//! masked comparison succeeds, or a fatal error naming the opcode.

use vstd::prelude::*;

verus! {

/// One resolved generic argument of a handler invocation.
#[derive(Debug, PartialEq, Eq)]
pub enum ResolvedArg {
    /// A variable reference resolved to a symbolic tag: `Register::R0`.
    Tagged { enum_type: String, variant: String },
    /// A fixed argument, kept verbatim.
    Fixed { text: String },
}

/// Model of a `ResolvedArg`.
#[verifier::ext_equal]
pub enum ResolvedArgModel {
    Tagged { enum_type: Seq<char>, variant: Seq<char> },
    Fixed { text: Seq<char> },
}

impl View for ResolvedArg {
    type V = ResolvedArgModel;

    open spec fn view(&self) -> ResolvedArgModel {
        match self {
            ResolvedArg::Tagged { enum_type, variant } => ResolvedArgModel::Tagged {
                enum_type: enum_type@,
                variant: variant@,
            },
            ResolvedArg::Fixed { text } => ResolvedArgModel::Fixed { text: text@ },
        }
    }
}

/// A handler invocation: the handler's name and its resolved generic
/// arguments; the dispatcher adds the context and the raw opcode.
#[derive(Debug, PartialEq, Eq)]
pub struct Invocation {
    pub handler: String,
    pub args: Vec<ResolvedArg>,
}

/// Model of an `Invocation`.
#[verifier::ext_equal]
pub struct InvocationModel {
    pub handler: Seq<char>,
    pub args: Seq<ResolvedArgModel>,
}

impl View for Invocation {
    type V = InvocationModel;

    open spec fn view(&self) -> InvocationModel {
        InvocationModel {
            handler: self.handler@,
            args: self.args@.map_values(|a: ResolvedArg| a@),
        }
    }
}

/// One decision entry: match condition and invocation.
#[derive(Debug, PartialEq, Eq)]
pub struct DecisionEntry {
    pub mask: u64,
    pub value: u64,
    pub invocation: Invocation,
}

/// Model of a `DecisionEntry`.
#[verifier::ext_equal]
pub struct DecisionModel {
    pub mask: u64,
    pub value: u64,
    pub invocation: InvocationModel,
}

impl View for DecisionEntry {
    type V = DecisionModel;

    open spec fn view(&self) -> DecisionModel {
        DecisionModel { mask: self.mask, value: self.value, invocation: self.invocation@ }
    }
}

/// The compiled, immutable decision table.
#[derive(Debug, PartialEq, Eq)]
pub struct DecisionTable {
    pub entries: Vec<DecisionEntry>,
}

/// The models of a sequence of decision entries.
pub open spec fn view_decisions(s: Seq<DecisionEntry>) -> Seq<DecisionModel> {
    s.map_values(|e: DecisionEntry| e@)
}

impl View for DecisionTable {
    type V = Seq<DecisionModel>;

    open spec fn view(&self) -> Seq<DecisionModel> {
        view_decisions(self.entries@)
    }
}

/// The match condition of an entry: the masked opcode equals the expected
/// value.
pub open spec fn entry_matches(mask: u64, value: u64, opcode: u64) -> bool {
    opcode & mask == value
}

/// The first entry index at or after `i` that matches the opcode.
pub open spec fn spec_first_match_from(s: Seq<DecisionEntry>, opcode: u64, i: int) -> Option<int>
    decreases s.len() - i,
{
    if i < 0 || i >= s.len() {
        None
    } else if entry_matches(s[i].mask, s[i].value, opcode) {
        Some(i)
    } else {
        spec_first_match_from(s, opcode, i + 1)
    }
}

/// The entry the dispatcher picks, if any.
pub open spec fn spec_first_match(s: Seq<DecisionEntry>, opcode: u64) -> Option<int> {
    spec_first_match_from(s, opcode, 0)
}

/// The fatal outcome of dispatching an opcode no entry matches.
#[derive(Clone, Copy, Debug, PartialEq, Eq, Structural)]
pub struct DispatchError {
    pub opcode: u64,
}

/// The hexadecimal digit for a value below 16, upper case.
pub open spec fn hex_digit_char(d: u64) -> char {
    if d == 0 {
        '0'
    } else if d == 1 {
        '1'
    } else if d == 2 {
        '2'
    } else if d == 3 {
        '3'
    } else if d == 4 {
        '4'
    } else if d == 5 {
        '5'
    } else if d == 6 {
        '6'
    } else if d == 7 {
        '7'
    } else if d == 8 {
        '8'
    } else if d == 9 {
        '9'
    } else if d == 10 {
        'A'
    } else if d == 11 {
        'B'
    } else if d == 12 {
        'C'
    } else if d == 13 {
        'D'
    } else if d == 14 {
        'E'
    } else {
        'F'
    }
}

/// The hexadecimal digits of a value, most significant first, no leading
/// zeros.
pub open spec fn hex_seq(v: u64) -> Seq<char>
    decreases v,
{
    if v < 16 {
        seq![hex_digit_char(v)]
    } else {
        hex_seq(v / 16) + seq![hex_digit_char(v % 16)]
    }
}

/// The hexadecimal digits of a value, padded to at least two digits, as the
/// failure report prints them.
pub open spec fn padded_hex(v: u64) -> Seq<char> {
    if v < 16 {
        seq!['0'] + hex_seq(v)
    } else {
        hex_seq(v)
    }
}

/// The failure message: it names the raw unmatched opcode in hexadecimal.
pub open spec fn unmatched_message(opcode: u64) -> Seq<char> {
    "Unhandled opcode: 0x"@ + padded_hex(opcode)
}

/// The single hexadecimal digit of a value below 16.
fn hex_digit_str(d: u64) -> (r: &'static str)
    requires
        d < 16,
    ensures
        r@ == seq![hex_digit_char(d)],
{
    proof {
        reveal_strlit("0");
        reveal_strlit("1");
        reveal_strlit("2");
        reveal_strlit("3");
        reveal_strlit("4");
        reveal_strlit("5");
        reveal_strlit("6");
        reveal_strlit("7");
        reveal_strlit("8");
        reveal_strlit("9");
        reveal_strlit("A");
        reveal_strlit("B");
        reveal_strlit("C");
        reveal_strlit("D");
        reveal_strlit("E");
        reveal_strlit("F");
    }
    let r = if d == 0 {
        "0"
    } else if d == 1 {
        "1"
    } else if d == 2 {
        "2"
    } else if d == 3 {
        "3"
    } else if d == 4 {
        "4"
    } else if d == 5 {
        "5"
    } else if d == 6 {
        "6"
    } else if d == 7 {
        "7"
    } else if d == 8 {
        "8"
    } else if d == 9 {
        "9"
    } else if d == 10 {
        "A"
    } else if d == 11 {
        "B"
    } else if d == 12 {
        "C"
    } else if d == 13 {
        "D"
    } else if d == 14 {
        "E"
    } else {
        "F"
    };
    proof {
        assert(r@ =~= seq![hex_digit_char(d)]);
    }
    r
}

/// The hexadecimal rendering of a value, most significant digit first.
fn hex_string(v: u64) -> (r: String)
    ensures
        r@ == hex_seq(v),
    decreases v,
{
    if v < 16 {
        let r = String::from_str(hex_digit_str(v));
        r
    } else {
        proof {
            assert(v / 16 < v) by (nonlinear_arith)
                requires
                    v >= 16,
            ;
        }
        let mut r = hex_string(v / 16);
        r.append(hex_digit_str(v % 16));
        r
    }
}

impl DispatchError {
    /// The failure report: the message holds the raw unmatched opcode.
    pub fn message(&self) -> (r: String)
        ensures
            r@ == unmatched_message(self.opcode),
    {
        let mut r = String::from_str("Unhandled opcode: 0x");
        if self.opcode < 16 {
            let pad = "0";
            proof {
                reveal_strlit("0");
                assert(pad@ =~= seq!['0']);
            }
            r.append(pad);
        }
        let digits = hex_string(self.opcode);
        r.append(digits.as_str());
        proof {
            assert(r@ =~= unmatched_message(self.opcode));
        }
        r
    }
}

impl DecisionTable {
    /// How many entries the table holds.
    pub fn len(&self) -> (r: usize)
        ensures
            r == self@.len(),
    {
        self.entries.len()
    }

    /// Dispatches one opcode: the invocation of the first entry, in table
    /// order, whose mask and value accept the opcode, or the fatal unmatched
    /// report carrying the opcode itself.
    pub fn dispatch(&self, opcode: u64) -> (r: Result<&DecisionEntry, DispatchError>)
        ensures
            (match r {
                Ok(e) => {
                    &&& spec_first_match(self.entries@, opcode) is Some
                    &&& *e == self.entries@[spec_first_match(self.entries@, opcode)->Some_0]
                },
                Err(d) => {
                    &&& spec_first_match(self.entries@, opcode) is None
                    &&& d.opcode == opcode
                },
            }),
    {
        let mut i: usize = 0;
        while i < self.entries.len()
            invariant
                i <= self.entries@.len(),
                spec_first_match(self.entries@, opcode) == spec_first_match_from(
                    self.entries@,
                    opcode,
                    i as int,
                ),
            decreases self.entries@.len() - i,
        {
            let e = &self.entries[i];
            if opcode & e.mask == e.value {
                return Ok(e);
            }
            i += 1;
        }
        Err(DispatchError { opcode })
    }
}

/// Declaration-order priority: when an earlier entry accepts an opcode, the
/// dispatcher never reaches a later entry for it, however general that later
/// entry's condition is.  In particular, an exact entry declared before a
/// wildcard entry that also covers its value always wins.
pub proof fn lemma_declaration_order_priority(s: Seq<DecisionEntry>, opcode: u64, i: int)
    requires
        0 <= i < s.len(),
        entry_matches(s[i].mask, s[i].value, opcode),
    ensures
        spec_first_match(s, opcode) is Some,
        spec_first_match(s, opcode)->Some_0 <= i,
        entry_matches(
            s[spec_first_match(s, opcode)->Some_0].mask,
            s[spec_first_match(s, opcode)->Some_0].value,
            opcode,
        ),
{
    lemma_first_match_bound(s, opcode, 0, i);
}

/// Helper for the priority law: scanning from `j` finds a match no later
/// than a known matching index `i`.
proof fn lemma_first_match_bound(s: Seq<DecisionEntry>, opcode: u64, j: int, i: int)
    requires
        0 <= j <= i < s.len(),
        entry_matches(s[i].mask, s[i].value, opcode),
    ensures
        spec_first_match_from(s, opcode, j) is Some,
        j <= spec_first_match_from(s, opcode, j)->Some_0 <= i,
        entry_matches(
            s[spec_first_match_from(s, opcode, j)->Some_0].mask,
            s[spec_first_match_from(s, opcode, j)->Some_0].value,
            opcode,
        ),
    decreases i - j,
{
    if !entry_matches(s[j].mask, s[j].value, opcode) {
        lemma_first_match_bound(s, opcode, j + 1, i);
    }
}

} // verus!
