//! The instruction table: the declarative definition a user writes, its
//! binding tables, and the compiler that turns it into a decision table.
//! Compilation parses each entry's pattern, validates and parses its
//! binding literals, expands bound variables into concrete candidates,
//! drops candidates whose exact value an earlier accepted entry already
//! owns, and appends the rest in declaration order.

use vstd::prelude::*;

use crate::decision::DecisionEntry;
use crate::decision::DecisionModel;
use crate::decision::DecisionTable;
use crate::decision::Invocation;
use crate::decision::InvocationModel;
use crate::decision::ResolvedArg;
use crate::decision::ResolvedArgModel;
use crate::decision::view_decisions;
use crate::errors::CompileError;
use crate::errors::ErrorKind;
use crate::expand::Bind;
use crate::expand::BindModel;
use crate::expand::ComboModel;
use crate::expand::LitMapping;
use crate::expand::LitMappingModel;
use crate::expand::VarInfo;
use crate::expand::VarInfoModel;
use crate::expand::expand_combos;
use crate::expand::spec_combos;
use crate::expand::view_binds;
use crate::expand::view_infos;
use crate::literal::parse_bit_literal;
use crate::literal::spec_literal_value;
use crate::literal::well_formed_literal;
use crate::pattern::BitPattern;
use crate::pattern::PatternModel;
use crate::pattern::VarField;
use crate::pattern::lemma_pattern_var_ranges;
use crate::pattern::make_full_mask;
use crate::pattern::parse_pattern;
use crate::pattern::spec_full_mask;
use crate::pattern::spec_parse_pattern;

verus! {

/// One bit-literal-to-tag mapping of a binding table, as written: the
/// literal text and the symbolic tag it selects.
pub struct BitMapping {
    pub bits: String,
    pub tag: String,
}

/// Model of a `BitMapping`.
#[verifier::ext_equal]
pub struct BitMappingModel {
    pub bits: Seq<char>,
    pub tag: Seq<char>,
}

impl View for BitMapping {
    type V = BitMappingModel;

    open spec fn view(&self) -> BitMappingModel {
        BitMappingModel { bits: self.bits@, tag: self.tag@ }
    }
}

/// The binding table of one variable: its letter and its ordered
/// enumeration of legal literals and their tags.
pub struct VariableBinding {
    pub name: char,
    pub mappings: Vec<BitMapping>,
}

/// Model of a `VariableBinding`.
#[verifier::ext_equal]
pub struct BindingModel {
    pub name: char,
    pub mappings: Seq<BitMappingModel>,
}

impl View for VariableBinding {
    type V = BindingModel;

    open spec fn view(&self) -> BindingModel {
        BindingModel { name: self.name, mappings: self.mappings@.map_values(|m: BitMapping| m@) }
    }
}

/// One generic argument of a handler specification.
pub enum GenericArg {
    /// A reference to a pattern variable, resolved per expansion branch.
    Variable { enum_type: String, var: char },
    /// A fixed argument, kept verbatim.
    Fixed { text: String },
}

/// Model of a `GenericArg`.
#[verifier::ext_equal]
pub enum GenericArgModel {
    Variable { enum_type: Seq<char>, var: char },
    Fixed { text: Seq<char> },
}

impl View for GenericArg {
    type V = GenericArgModel;

    open spec fn view(&self) -> GenericArgModel {
        match self {
            GenericArg::Variable { enum_type, var } => GenericArgModel::Variable {
                enum_type: enum_type@,
                var: *var,
            },
            GenericArg::Fixed { text } => GenericArgModel::Fixed { text: text@ },
        }
    }
}

/// A handler specification: the handler's name and its ordered generic
/// arguments.
pub struct HandlerSpec {
    pub name: String,
    pub generics: Vec<GenericArg>,
}

/// Model of a `HandlerSpec`.
#[verifier::ext_equal]
pub struct HandlerModel {
    pub name: Seq<char>,
    pub generics: Seq<GenericArgModel>,
}

impl View for HandlerSpec {
    type V = HandlerModel;

    open spec fn view(&self) -> HandlerModel {
        HandlerModel { name: self.name@, generics: self.generics@.map_values(|g: GenericArg| g@) }
    }
}

/// One declared table entry: a bit pattern, a handler specification, and
/// the bindings of its variables.
pub struct InstructionEntry {
    pub pattern: String,
    pub handler: HandlerSpec,
    pub bindings: Vec<VariableBinding>,
}

/// Model of an `InstructionEntry`.
#[verifier::ext_equal]
pub struct EntryModel {
    pub pattern: Seq<char>,
    pub handler: HandlerModel,
    pub bindings: Seq<BindingModel>,
}

impl View for InstructionEntry {
    type V = EntryModel;

    open spec fn view(&self) -> EntryModel {
        EntryModel {
            pattern: self.pattern@,
            handler: self.handler@,
            bindings: self.bindings@.map_values(|b: VariableBinding| b@),
        }
    }
}

/// The whole declarative table, in declaration order.
pub struct InstructionTable {
    pub entries: Vec<InstructionEntry>,
}

impl View for InstructionTable {
    type V = Seq<EntryModel>;

    open spec fn view(&self) -> Seq<EntryModel> {
        self.entries@.map_values(|e: InstructionEntry| e@)
    }
}

/// The first fault in one binding's mappings, scanning from `k`: a
/// malformed literal, or a literal whose value an earlier mapping of the
/// same binding already used.
pub open spec fn binding_error_from(b: BindingModel, k: int) -> Option<ErrorKind>
    decreases b.mappings.len() - k,
{
    if k < 0 || k >= b.mappings.len() {
        None
    } else if !well_formed_literal(b.mappings[k].bits) {
        Some(ErrorKind::MalformedLiteral { variable: b.name })
    } else if exists|q: int|
        0 <= q < k && spec_literal_value((#[trigger] b.mappings[q]).bits) == spec_literal_value(
            b.mappings[k].bits,
        ) {
        Some(ErrorKind::DuplicateLiteral { variable: b.name })
    } else {
        binding_error_from(b, k + 1)
    }
}

/// The first fault in any binding of an entry, in declaration order.
pub open spec fn bindings_error_from(bs: Seq<BindingModel>, j: int) -> Option<ErrorKind>
    decreases bs.len() - j,
{
    if j < 0 || j >= bs.len() {
        None
    } else if binding_error_from(bs[j], 0) is Some {
        binding_error_from(bs[j], 0)
    } else {
        bindings_error_from(bs, j + 1)
    }
}

/// The first fault in an entry's bindings, if any.
pub open spec fn spec_bindings_error(bs: Seq<BindingModel>) -> Option<ErrorKind> {
    bindings_error_from(bs, 0)
}

/// The variable field a letter names, scanning the pattern's fields from
/// `k`.
pub open spec fn find_var_from(vars: Seq<VarField>, name: char, k: int) -> Option<VarField>
    decreases vars.len() - k,
{
    if k < 0 || k >= vars.len() {
        None
    } else if vars[k].name == name {
        Some(vars[k])
    } else {
        find_var_from(vars, name, k + 1)
    }
}

/// The variable field a letter names, if the pattern has one.
pub open spec fn spec_find_var(vars: Seq<VarField>, name: char) -> Option<VarField> {
    find_var_from(vars, name, 0)
}

/// A binding's mappings with their literals parsed.
pub open spec fn spec_info_mappings(ms: Seq<BitMappingModel>) -> Seq<LitMappingModel> {
    ms.map_values(|m: BitMappingModel| LitMappingModel {
        value: spec_literal_value(m.bits),
        tag: m.tag,
    })
}

/// The bound variables of an entry, in binding declaration order: each
/// binding whose letter names a pattern variable contributes that field's
/// position and its parsed mappings; a binding without a matching pattern
/// variable is ignored.
pub open spec fn spec_var_infos_from(vars: Seq<VarField>, bs: Seq<BindingModel>, j: int) -> Seq<
    VarInfoModel,
>
    decreases bs.len() - j,
{
    if j < 0 || j >= bs.len() {
        Seq::empty()
    } else {
        let rest = spec_var_infos_from(vars, bs, j + 1);
        match spec_find_var(vars, bs[j].name) {
            Some(vf) => seq![
                VarInfoModel {
                    name: bs[j].name,
                    start: vf.start,
                    width: vf.width,
                    mappings: spec_info_mappings(bs[j].mappings),
                },
            ] + rest,
            None => rest,
        }
    }
}

/// The bound variables of an entry.
pub open spec fn spec_var_infos(vars: Seq<VarField>, bs: Seq<BindingModel>) -> Seq<VarInfoModel> {
    spec_var_infos_from(vars, bs, 0)
}

/// The names of the bound variables.
pub open spec fn info_names(infos: Seq<VarInfoModel>) -> Seq<char> {
    infos.map_values(|v: VarInfoModel| v.name)
}

/// The first handler generic argument, scanning from `k`, that refers to a
/// variable no binding of the entry supplies.
pub open spec fn first_unresolved_from(gs: Seq<GenericArgModel>, names: Seq<char>, k: int) -> Option<
    char,
>
    decreases gs.len() - k,
{
    if k < 0 || k >= gs.len() {
        None
    } else {
        match gs[k] {
            GenericArgModel::Variable { var, .. } => if names.contains(var) {
                first_unresolved_from(gs, names, k + 1)
            } else {
                Some(var)
            },
            GenericArgModel::Fixed { .. } => first_unresolved_from(gs, names, k + 1),
        }
    }
}

/// The tag of the first bind for a variable, scanning from `k`; empty when
/// no bind carries the variable.
pub open spec fn first_bind_tag_from(binds: Seq<BindModel>, var: char, k: int) -> Seq<char>
    decreases binds.len() - k,
{
    if k < 0 || k >= binds.len() {
        Seq::empty()
    } else if binds[k].var == var {
        binds[k].tag
    } else {
        first_bind_tag_from(binds, var, k + 1)
    }
}

/// One generic argument resolved against one combination's binds.
pub open spec fn spec_resolved_arg(g: GenericArgModel, binds: Seq<BindModel>) -> ResolvedArgModel {
    match g {
        GenericArgModel::Variable { enum_type, var } => ResolvedArgModel::Tagged {
            enum_type,
            variant: first_bind_tag_from(binds, var, 0),
        },
        GenericArgModel::Fixed { text } => ResolvedArgModel::Fixed { text },
    }
}

/// A handler invocation resolved against one combination's binds.
pub open spec fn spec_invocation(h: HandlerModel, binds: Seq<BindModel>) -> InvocationModel {
    InvocationModel {
        handler: h.name,
        args: h.generics.map_values(|g: GenericArgModel| spec_resolved_arg(g, binds)),
    }
}

/// The mask of one variable field: `width` one-bits shifted to `start`.
pub open spec fn spec_var_mask(start: int, width: int) -> u64 {
    if width >= 64 {
        0xFFFF_FFFF_FFFF_FFFFu64
    } else {
        (((1u64 << (width as u64)) as int - 1) as u64) << (start as u64)
    }
}

/// The pattern mask widened by the fields of every bound variable, from
/// index `j` on.
pub open spec fn spec_expanded_mask_from(m: u64, infos: Seq<VarInfoModel>, j: int) -> u64
    decreases infos.len() - j,
{
    if j < 0 || j >= infos.len() {
        m
    } else {
        spec_expanded_mask_from(
            m | spec_var_mask(infos[j].start as int, infos[j].width as int),
            infos,
            j + 1,
        )
    }
}

/// The match mask of an entry's candidates: the pattern's fixed bits plus
/// every bound variable's bits.  Wildcard bits and unbound variable bits
/// stay outside the mask.
pub open spec fn spec_expanded_mask(m: u64, infos: Seq<VarInfoModel>) -> u64 {
    spec_expanded_mask_from(m, infos, 0)
}

/// The candidate decision entries of one table entry: one per combination,
/// in expansion order.
pub open spec fn spec_candidates(
    value: u64,
    emask: u64,
    h: HandlerModel,
    combos: Seq<ComboModel>,
) -> Seq<DecisionModel> {
    combos.map_values(
        |c: ComboModel| DecisionModel {
            mask: emask,
            value: value | c.bits,
            invocation: spec_invocation(h, c.binds),
        },
    )
}

/// A variable of width `w` bound to `k` literal choices yields exactly `k`
/// candidate decision entries, in declaration order.  Candidate `t` binds
/// the variable to choice `t`'s tag, and its concrete value differs from
/// the pattern's value only at the variable's bit positions.
pub proof fn lemma_single_variable_candidates(
    value: u64,
    emask: u64,
    h: HandlerModel,
    v: VarInfoModel,
    t: int,
)
    requires
        0 <= t < v.mappings.len(),
        v.start < 64,
        1 <= v.width,
        v.start + v.width <= 64,
        v.width < 64 ==> v.mappings[t].value < (1u64 << (v.width as u64)),
    ensures
        spec_candidates(value, emask, h, spec_combos(seq![v])).len() == v.mappings.len(),
        spec_candidates(value, emask, h, spec_combos(seq![v]))[t].value == (value | (
        v.mappings[t].value << (v.start as u64))),
        spec_candidates(value, emask, h, spec_combos(seq![v]))[t].invocation == spec_invocation(
            h,
            seq![BindModel { var: v.name, tag: v.mappings[t].tag }],
        ),
        forall|p: u64|
            p < 64 && (p < v.start || p >= v.start + v.width) ==> #[trigger] crate::bits::bit64(
                spec_candidates(value, emask, h, spec_combos(seq![v]))[t].value,
                p,
            ) == crate::bits::bit64(value, p),
{
    crate::expand::lemma_single_variable_expansion(v, t);
    crate::expand::lemma_shifted_literal_confined(
        v.mappings[t].value,
        v.start as u64,
        v.width as u64,
    );
    crate::bits::lemma_bit_or();
    let cands = spec_candidates(value, emask, h, spec_combos(seq![v]));
    let shifted = v.mappings[t].value << (v.start as u64);
    assert(cands[t] == (DecisionModel {
        mask: emask,
        value: value | shifted,
        invocation: spec_invocation(h, spec_combos(seq![v])[t].binds),
    }));
    assert forall|p: u64| p < 64 && (p < v.start || p >= v.start + v.width) implies
        #[trigger] crate::bits::bit64(cands[t].value, p) == crate::bits::bit64(value, p) by {
        assert(crate::bits::bit64(value | shifted, p) == (crate::bits::bit64(value, p)
            || crate::bits::bit64(shifted, p)));
        assert(!crate::bits::bit64(shifted, p));
    }
}

/// An opcode value is already precisely owned when an earlier accepted
/// entry matches it with the full mask.
pub open spec fn spec_owned(acc: Seq<DecisionModel>, value: u64, full: u64) -> bool {
    exists|q: int| 0 <= q < acc.len() && (#[trigger] acc[q]).mask == full && acc[q].value == value
}

/// The overlap resolver: each candidate in order is dropped when its
/// concrete value is already precisely owned, and appended otherwise.
pub open spec fn spec_accept_from(
    acc: Seq<DecisionModel>,
    cands: Seq<DecisionModel>,
    j: int,
    full: u64,
) -> Seq<DecisionModel>
    decreases cands.len() - j,
{
    if j < 0 || j >= cands.len() {
        acc
    } else {
        let next = if spec_owned(acc, cands[j].value, full) {
            acc
        } else {
            acc.push(cands[j])
        };
        spec_accept_from(next, cands, j + 1, full)
    }
}


/// The overlap resolver only ever appends: everything accepted earlier
/// stays, in its place, whatever candidates follow.
pub proof fn lemma_accept_preserves_prefix(
    acc: Seq<DecisionModel>,
    cands: Seq<DecisionModel>,
    j: int,
    full: u64,
)
    ensures
        spec_accept_from(acc, cands, j, full).len() >= acc.len(),
        forall|i: int|
            0 <= i < acc.len() ==> #[trigger] spec_accept_from(acc, cands, j, full)[i] == acc[i],
    decreases cands.len() - j,
{
    if 0 <= j < cands.len() {
        if spec_owned(acc, cands[j].value, full) {
            lemma_accept_preserves_prefix(acc, cands, j + 1, full);
        } else {
            lemma_accept_preserves_prefix(acc.push(cands[j]), cands, j + 1, full);
        }
    }
}

/// What one table entry adds to the accepted decision entries, or the
/// fault that aborts compilation.
pub open spec fn spec_entry_step(e: EntryModel, acc: Seq<DecisionModel>) -> Result<
    Seq<DecisionModel>,
    ErrorKind,
> {
    match spec_parse_pattern(e.pattern) {
        Err(k) => Err(k),
        Ok(p) => match spec_bindings_error(e.bindings) {
            Some(k) => Err(k),
            None => {
                let infos = spec_var_infos(p.variables, e.bindings);
                match first_unresolved_from(e.handler.generics, info_names(infos), 0) {
                    Some(v) => Err(ErrorKind::UnresolvedVariable { name: v }),
                    None => {
                        let emask = spec_expanded_mask(p.mask, infos);
                        let cands = spec_candidates(
                            p.value,
                            emask,
                            e.handler,
                            spec_combos(infos),
                        );
                        Ok(spec_accept_from(acc, cands, 0, spec_full_mask(p.bit_width)))
                    },
                }
            },
        },
    }
}

/// Compilation from entry `i` on, with the decision entries accepted so
/// far.
pub open spec fn spec_compile_from(
    entries: Seq<EntryModel>,
    i: int,
    acc: Seq<DecisionModel>,
) -> Result<Seq<DecisionModel>, CompileError>
    decreases entries.len() - i,
{
    if i < 0 || i >= entries.len() {
        Ok(acc)
    } else {
        match spec_entry_step(entries[i], acc) {
            Err(k) => Err(CompileError { entry: i as usize, kind: k }),
            Ok(acc2) => spec_compile_from(entries, i + 1, acc2),
        }
    }
}

/// What compiling a table yields: the ordered decision entries, or the
/// first fault together with the index of its entry.
pub open spec fn spec_compile(entries: Seq<EntryModel>) -> Result<Seq<DecisionModel>, CompileError> {
    spec_compile_from(entries, 0, Seq::empty())
}

/// Determinism: the compiled decision list is a function of the table
/// definition alone, so compiling one definition twice yields the same
/// ordered decision list.
pub proof fn lemma_compile_deterministic(t1: Seq<EntryModel>, t2: Seq<EntryModel>)
    requires
        t1 =~~= t2,
    ensures
        spec_compile(t1) == spec_compile(t2),
{
}

/// The models of a sequence of bindings.
pub open spec fn view_bindings(bs: Seq<VariableBinding>) -> Seq<BindingModel> {
    bs.map_values(|b: VariableBinding| b@)
}

/// A binding that validates from `k` on has only well-formed literals
/// there.
proof fn lemma_binding_validated(b: BindingModel, k: int)
    requires
        0 <= k <= b.mappings.len(),
        binding_error_from(b, k) is None,
    ensures
        forall|q: int| k <= q < b.mappings.len() ==> well_formed_literal(
            (#[trigger] b.mappings[q]).bits,
        ),
    decreases b.mappings.len() - k,
{
    if k < b.mappings.len() {
        lemma_binding_validated(b, k + 1);
    }
}

/// Bindings that validate from `j` on each validate on their own.
proof fn lemma_bindings_validated(bs: Seq<BindingModel>, j: int)
    requires
        0 <= j <= bs.len(),
        bindings_error_from(bs, j) is None,
    ensures
        forall|t: int| j <= t < bs.len() ==> binding_error_from(#[trigger] bs[t], 0) is None,
    decreases bs.len() - j,
{
    if j < bs.len() {
        lemma_bindings_validated(bs, j + 1);
    }
}

/// Checks one binding: every literal parses, and no value repeats.
fn validate_binding(b: &VariableBinding) -> (r: Option<ErrorKind>)
    ensures
        r == binding_error_from(b@, 0),
{
    let ghost bm = b@;
    let mut vals: Vec<u64> = Vec::new();
    let mut k: usize = 0;
    while k < b.mappings.len()
        invariant
            bm == b@,
            bm.mappings.len() == b.mappings@.len(),
            k <= b.mappings@.len(),
            binding_error_from(bm, 0) == binding_error_from(bm, k as int),
            vals@.len() == k,
            forall|q: int| 0 <= q < k ==> well_formed_literal((#[trigger] bm.mappings[q]).bits),
            forall|q: int|
                0 <= q < k ==> (#[trigger] vals@[q]) == spec_literal_value(bm.mappings[q].bits),
        decreases b.mappings@.len() - k,
    {
        proof {
            assert(bm.mappings[k as int] == b.mappings@[k as int]@);
        }
        match parse_bit_literal(b.mappings[k].bits.as_str()) {
            None => {
                return Some(ErrorKind::MalformedLiteral { variable: b.name });
            },
            Some(v) => {
                let mut dup = false;
                let mut q: usize = 0;
                while q < k
                    invariant
                        q <= k,
                        k <= vals@.len(),
                        dup == exists|t: int| 0 <= t < q && (#[trigger] vals@[t]) == v,
                    decreases k - q,
                {
                    if vals[q] == v {
                        dup = true;
                    }
                    q += 1;
                }
                if dup {
                    return Some(ErrorKind::DuplicateLiteral { variable: b.name });
                }
                proof {
                    assert(!(exists|t: int|
                        0 <= t < k && spec_literal_value(
                            (#[trigger] bm.mappings[t]).bits,
                        ) == spec_literal_value(bm.mappings[k as int].bits))) by {
                        if exists|t: int|
                            0 <= t < k && spec_literal_value(
                                (#[trigger] bm.mappings[t]).bits,
                            ) == spec_literal_value(bm.mappings[k as int].bits) {
                            let t = choose|t: int|
                                0 <= t < k && spec_literal_value(
                                    (#[trigger] bm.mappings[t]).bits,
                                ) == spec_literal_value(bm.mappings[k as int].bits);
                            assert(vals@[t] == v);
                        }
                    }
                }
                let ghost vals0 = vals@;
                vals.push(v);
                proof {
                    assert(well_formed_literal(bm.mappings[k as int].bits));
                    assert forall|q: int| 0 <= q < k + 1 implies (#[trigger] vals@[q])
                        == spec_literal_value(bm.mappings[q].bits) by {
                        if q < k {
                            assert(vals@[q] == vals0[q]);
                        } else {
                            assert(vals@[q] == v);
                        }
                    }
                }
            },
        }
        k += 1;
    }
    None
}

/// A found variable field is a member of the searched fields.
proof fn lemma_find_var_member(vars: Seq<VarField>, name: char, k: int)
    requires
        0 <= k <= vars.len(),
        find_var_from(vars, name, k) is Some,
    ensures
        exists|t: int|
            k <= t < vars.len() && #[trigger] vars[t] == find_var_from(vars, name, k)->Some_0,
    decreases vars.len() - k,
{
    if k < vars.len() {
        if vars[k].name == name {
            assert(vars[k] == find_var_from(vars, name, k)->Some_0);
        } else {
            lemma_find_var_member(vars, name, k + 1);
        }
    }
}

/// Bound variables inherit their field bounds from the pattern's fields.
proof fn lemma_var_infos_bounds(vars: Seq<VarField>, bs: Seq<BindingModel>, j: int)
    requires
        0 <= j <= bs.len(),
        forall|t: int|
            0 <= t < vars.len() ==> 1 <= (#[trigger] vars[t]).width && vars[t].start
                + vars[t].width <= 64,
    ensures
        forall|t: int|
            0 <= t < spec_var_infos_from(vars, bs, j).len() ==> {
                let info = #[trigger] spec_var_infos_from(vars, bs, j)[t];
                &&& 1 <= info.width
                &&& info.start + info.width <= 64
            },
    decreases bs.len() - j,
{
    if j < bs.len() {
        lemma_var_infos_bounds(vars, bs, j + 1);
        let cur = spec_var_infos_from(vars, bs, j);
        let rest = spec_var_infos_from(vars, bs, j + 1);
        match spec_find_var(vars, bs[j].name) {
            Some(vf) => {
                lemma_find_var_member(vars, bs[j].name, 0);
                let w = choose|w: int| 0 <= w < vars.len() && vars[w] == vf;
                assert forall|t: int| 0 <= t < cur.len() implies {
                    let info = #[trigger] cur[t];
                    &&& 1 <= info.width
                    &&& info.start + info.width <= 64
                } by {
                    if t == 0 {
                        assert(cur[0].width == vf.width && cur[0].start == vf.start);
                    } else {
                        assert(cur[t] == rest[t - 1]);
                    }
                }
            },
            None => {
                assert(cur == rest);
            },
        }
    }
}

/// The field a letter names, if the pattern has a variable of that letter.
fn find_var_field(vars: &Vec<VarField>, name: char) -> (r: Option<VarField>)
    ensures
        r == spec_find_var(vars@, name),
{
    let mut k: usize = 0;
    while k < vars.len()
        invariant
            k <= vars@.len(),
            spec_find_var(vars@, name) == find_var_from(vars@, name, k as int),
        decreases vars@.len() - k,
    {
        if vars[k].name == name {
            return Some(vars[k]);
        }
        k += 1;
    }
    None
}

/// Builds the bound-variable list of one entry: each binding that names a
/// pattern variable, with its literals parsed.
fn build_var_infos(pat: &BitPattern, bindings: &Vec<VariableBinding>) -> (r: Vec<VarInfo>)
    requires
        spec_bindings_error(view_bindings(bindings@)) is None,
    ensures
        view_infos(r@) == spec_var_infos(pat.variables@, view_bindings(bindings@)),
{
    let ghost vars: Seq<VarField> = pat.variables@;
    let ghost bsm: Seq<BindingModel> = view_bindings(bindings@);
    proof {
        lemma_bindings_validated(bsm, 0);
    }
    let mut out: Vec<VarInfo> = Vec::new();
    let mut j: usize = 0;
    while j < bindings.len()
        invariant
            vars == pat.variables@,
            bsm == view_bindings(bindings@),
            bsm.len() == bindings@.len(),
            j <= bindings@.len(),
            forall|t: int| 0 <= t < bsm.len() ==> binding_error_from(#[trigger] bsm[t], 0) is None,
            spec_var_infos(vars, bsm) =~~= view_infos(out@) + spec_var_infos_from(
                vars,
                bsm,
                j as int,
            ),
        decreases bindings@.len() - j,
    {
        proof {
            assert(bsm[j as int] == bindings@[j as int]@);
        }
        let b = &bindings[j];
        match find_var_field(&pat.variables, b.name) {
            Some(vf) => {
                let ghost bm = b@;
                proof {
                    lemma_binding_validated(bm, 0);
                }
                let mut ms: Vec<LitMapping> = Vec::new();
                let mut k: usize = 0;
                while k < b.mappings.len()
                    invariant
                        bm == b@,
                        bm.mappings.len() == b.mappings@.len(),
                        k <= b.mappings@.len(),
                        forall|q: int|
                            0 <= q < bm.mappings.len() ==> well_formed_literal(
                                (#[trigger] bm.mappings[q]).bits,
                            ),
                        ms@.len() == k,
                        forall|q: int|
                            0 <= q < k ==> (#[trigger] ms@[q])@ == (LitMappingModel {
                                value: spec_literal_value(bm.mappings[q].bits),
                                tag: bm.mappings[q].tag,
                            }),
                    decreases b.mappings@.len() - k,
                {
                    proof {
                        assert(bm.mappings[k as int] == b.mappings@[k as int]@);
                    }
                    let v = match parse_bit_literal(b.mappings[k].bits.as_str()) {
                        Some(v) => v,
                        None => {
                            proof {
                                assert(false);
                            }
                            0
                        },
                    };
                    let tag = b.mappings[k].tag.clone();
                    let ghost ms0 = ms@;
                    ms.push(LitMapping { value: v, tag });
                    proof {
                        assert forall|q: int| 0 <= q < k + 1 implies (#[trigger] ms@[q])@
                            == (LitMappingModel {
                            value: spec_literal_value(bm.mappings[q].bits),
                            tag: bm.mappings[q].tag,
                        }) by {
                            if q < k {
                                assert(ms@[q] == ms0[q]);
                            }
                        }
                    }
                    k += 1;
                }
                let ghost out0 = out@;
                out.push(VarInfo { name: b.name, start: vf.start, width: vf.width, mappings: ms });
                proof {
                    let info = out@[out0.len() as int];
                    assert(info@.mappings =~~= spec_info_mappings(bm.mappings));
                    assert(info@ =~~= VarInfoModel {
                        name: bm.name,
                        start: vf.start,
                        width: vf.width,
                        mappings: spec_info_mappings(bm.mappings),
                    });
                    assert(view_infos(out@) =~~= view_infos(out0) + seq![info@]);
                    assert(spec_var_infos(vars, bsm) =~~= view_infos(out@) + spec_var_infos_from(
                        vars,
                        bsm,
                        j + 1,
                    ));
                }
            },
            None => {
                proof {
                    assert(spec_var_infos(vars, bsm) =~~= view_infos(out@) + spec_var_infos_from(
                        vars,
                        bsm,
                        j + 1,
                    ));
                }
            },
        }
        j += 1;
    }
    proof {
        assert(spec_var_infos_from(vars, bsm, bsm.len() as int) =~~= Seq::<VarInfoModel>::empty());
        assert(view_infos(out@) =~~= spec_var_infos(vars, bsm));
    }
    out
}

/// Whether a bound variable of the given name exists.
fn infos_contain(infos: &Vec<VarInfo>, name: char) -> (r: bool)
    ensures
        r == info_names(view_infos(infos@)).contains(name),
{
    let ghost names: Seq<char> = info_names(view_infos(infos@));
    proof {
        assert(names.len() == infos@.len());
        assert(forall|q: int|
            0 <= q < infos@.len() ==> names[q] == (#[trigger] infos@[q]).name);
    }
    let mut k: usize = 0;
    while k < infos.len()
        invariant
            names == info_names(view_infos(infos@)),
            names.len() == infos@.len(),
            k <= infos@.len(),
            forall|q: int| 0 <= q < k ==> names[q] != name,
            forall|q: int| 0 <= q < infos@.len() ==> names[q] == (#[trigger] infos@[q]).name,
        decreases infos@.len() - k,
    {
        if infos[k].name == name {
            proof {
                assert(names[k as int] == name);
            }
            return true;
        }
        k += 1;
    }
    proof {
        if names.contains(name) {
            let q = choose|q: int| 0 <= q < names.len() && names[q] == name;
            assert(names[q] != name);
        }
    }
    false
}

/// The first handler generic argument that refers to a variable no binding
/// supplies, if any.
fn first_unresolved(handler: &HandlerSpec, infos: &Vec<VarInfo>) -> (r: Option<char>)
    ensures
        r == first_unresolved_from(handler@.generics, info_names(view_infos(infos@)), 0),
{
    let ghost gs = handler@.generics;
    let ghost names = info_names(view_infos(infos@));
    let mut k: usize = 0;
    while k < handler.generics.len()
        invariant
            gs == handler@.generics,
            names == info_names(view_infos(infos@)),
            gs.len() == handler.generics@.len(),
            k <= handler.generics@.len(),
            first_unresolved_from(gs, names, 0) == first_unresolved_from(gs, names, k as int),
        decreases handler.generics@.len() - k,
    {
        proof {
            assert(gs[k as int] == handler.generics@[k as int]@);
        }
        match &handler.generics[k] {
            GenericArg::Variable { var, .. } => {
                if !infos_contain(infos, *var) {
                    return Some(*var);
                }
            },
            GenericArg::Fixed { .. } => {},
        }
        k += 1;
    }
    None
}

/// Resolves a handler specification against one combination's binds: each
/// variable reference takes the tag of its bind; a variable nothing binds
/// takes the empty tag (compilation rejects the entry before that matters).
fn resolve_invocation(handler: &HandlerSpec, binds: &Vec<Bind>) -> (r: Invocation)
    ensures
        r@ == spec_invocation(handler@, view_binds(binds@)),
{
    let ghost gs = handler@.generics;
    let ghost bm = view_binds(binds@);
    let mut args: Vec<ResolvedArg> = Vec::new();
    let mut k: usize = 0;
    while k < handler.generics.len()
        invariant
            gs == handler@.generics,
            bm == view_binds(binds@),
            bm.len() == binds@.len(),
            gs.len() == handler.generics@.len(),
            k <= handler.generics@.len(),
            args@.len() == k,
            forall|q: int|
                0 <= q < k ==> (#[trigger] args@[q])@ == spec_resolved_arg(gs[q], bm),
        decreases handler.generics@.len() - k,
    {
        proof {
            assert(gs[k as int] == handler.generics@[k as int]@);
        }
        let ghost args0 = args@;
        match &handler.generics[k] {
            GenericArg::Variable { enum_type, var } => {
                let mut tag: String = String::new();
                let mut found = false;
                let mut t: usize = 0;
                while t < binds.len()
                    invariant
                        bm == view_binds(binds@),
                        bm.len() == binds@.len(),
                        t <= binds@.len(),
                        first_bind_tag_from(bm, *var, 0) == (if found {
                            tag@
                        } else {
                            first_bind_tag_from(bm, *var, t as int)
                        }),
                        found ==> t == binds@.len(),
                        !found ==> tag@ == Seq::<char>::empty(),
                    decreases binds@.len() - t + (if found {
                        0int
                    } else {
                        1int
                    }),
                {
                    proof {
                        assert(bm[t as int] == binds@[t as int]@);
                    }
                    if binds[t].var == *var {
                        tag = binds[t].tag.clone();
                        found = true;
                        t = binds.len();
                    } else {
                        t += 1;
                    }
                }
                proof {
                    assert(first_bind_tag_from(bm, *var, 0) == tag@);
                    assert(gs[k as int] == (GenericArgModel::Variable {
                        enum_type: enum_type@,
                        var: *var,
                    }));
                }
                args.push(ResolvedArg::Tagged { enum_type: enum_type.clone(), variant: tag });
                proof {
                    assert(args@[k as int]@ =~~= spec_resolved_arg(gs[k as int], bm));
                }
            },
            GenericArg::Fixed { text } => {
                args.push(ResolvedArg::Fixed { text: text.clone() });
                proof {
                    assert(args@[k as int]@ =~~= spec_resolved_arg(gs[k as int], bm));
                }
            },
        }
        proof {
            assert forall|q: int| 0 <= q < k + 1 implies (#[trigger] args@[q])@
                == spec_resolved_arg(gs[q], bm) by {
                if q < k {
                    assert(args@[q] == args0[q]);
                }
            }
        }
        k += 1;
    }
    let name = handler.name.clone();
    let r = Invocation { handler: name, args };
    proof {
        assert(r@ =~~= spec_invocation(handler@, bm));
    }
    r
}

/// The mask of one variable field.
fn var_mask(start: usize, width: usize) -> (r: u64)
    requires
        start < 64,
        1 <= width,
        start + width <= 64,
    ensures
        r == spec_var_mask(start as int, width as int),
{
    if width >= 64 {
        0xFFFF_FFFF_FFFF_FFFF
    } else {
        proof {
            assert((width as u64) < 64 ==> 1u64 << (width as u64) >= 1) by (bit_vector);
        }
        ((1u64 << (width as u64)) - 1) << (start as u64)
    }
}

/// Widens a pattern mask by the bits of every bound variable.
fn expanded_mask(m: u64, infos: &Vec<VarInfo>) -> (r: u64)
    requires
        forall|k: int|
            0 <= k < infos@.len() ==> {
                let info = #[trigger] infos@[k];
                &&& info.start < 64
                &&& 1 <= info.width
                &&& info.start + info.width <= 64
            },
    ensures
        r == spec_expanded_mask(m, view_infos(infos@)),
{
    let ghost h = view_infos(infos@);
    let mut acc: u64 = m;
    let mut j: usize = 0;
    while j < infos.len()
        invariant
            h == view_infos(infos@),
            h.len() == infos@.len(),
            j <= infos@.len(),
            forall|k: int|
                0 <= k < infos@.len() ==> {
                    let info = #[trigger] infos@[k];
                    &&& info.start < 64
                    &&& 1 <= info.width
                    &&& info.start + info.width <= 64
                },
            spec_expanded_mask(m, h) == spec_expanded_mask_from(acc, h, j as int),
        decreases infos@.len() - j,
    {
        proof {
            assert(h[j as int] == infos@[j as int]@);
        }
        acc = acc | var_mask(infos[j].start, infos[j].width);
        j += 1;
    }
    acc
}

impl InstructionTable {
    /// Compiles the declarative table into the ordered decision table, in
    /// declaration order, or reports the first faulty entry.  The result is
    /// exactly what `spec_compile` says of the table definition, so an
    /// identical definition always compiles to an identical decision list.
    pub fn compile(&self) -> (r: Result<DecisionTable, CompileError>)
        ensures
            (match r {
                Ok(t) => spec_compile(self@) == Ok::<Seq<DecisionModel>, CompileError>(t@),
                Err(e) => spec_compile(self@) == Err::<Seq<DecisionModel>, CompileError>(e),
            }),
    {
        let ghost entries = self@;
        let mut acc: Vec<DecisionEntry> = Vec::new();
        proof {
            assert(view_decisions(acc@) =~= Seq::<DecisionModel>::empty());
        }
        let mut i: usize = 0;
        while i < self.entries.len()
            invariant
                entries == self@,
                entries.len() == self.entries@.len(),
                i <= self.entries@.len(),
                spec_compile(entries) == spec_compile_from(
                    entries,
                    i as int,
                    view_decisions(acc@),
                ),
            decreases self.entries@.len() - i,
        {
            let entry = &self.entries[i];
            let ghost em = entries[i as int];
            let ghost acc_in = view_decisions(acc@);
            proof {
                assert(em == self.entries@[i as int]@);
                assert(em.bindings =~~= view_bindings(entry.bindings@));
            }
            let pat = match parse_pattern(entry.pattern.as_str()) {
                Ok(p) => p,
                Err(k) => {
                    return Err(CompileError { entry: i, kind: k });
                },
            };
            let ghost pm: PatternModel = pat@;
            match validate_bindings(&entry.bindings) {
                Some(k) => {
                    return Err(CompileError { entry: i, kind: k });
                },
                None => {},
            }
            let infos = build_var_infos(&pat, &entry.bindings);
            let ghost infosm = view_infos(infos@);
            proof {
                lemma_pattern_var_ranges(em.pattern);
                assert(pm.variables == pat.variables@);
                assert(pm.bit_width <= 64);
                assert(forall|t: int|
                    0 <= t < pat.variables@.len() ==> 1 <= (#[trigger] pat.variables@[t]).width
                        && pat.variables@[t].start + pat.variables@[t].width <= 64);
                lemma_var_infos_bounds(pat.variables@, view_bindings(entry.bindings@), 0);
                assert(forall|k: int|
                    0 <= k < infos@.len() ==> {
                        let info = #[trigger] infos@[k];
                        &&& info.start < 64
                        &&& 1 <= info.width
                        &&& info.start + info.width <= 64
                    }) by {
                    assert(forall|k: int|
                        0 <= k < infos@.len() ==> (#[trigger] infos@[k])@ == infosm[k]);
                }
            }
            match first_unresolved(&entry.handler, &infos) {
                Some(v) => {
                    proof {
                        assert(em.handler == entry.handler@);
                    }
                    return Err(
                        CompileError { entry: i, kind: ErrorKind::UnresolvedVariable { name: v } },
                    );
                },
                None => {},
            }
            let emask = expanded_mask(pat.mask, &infos);
            let full = make_full_mask(pat.bit_width);
            let combos = expand_combos(&infos, 0);
            let ghost cands = spec_candidates(pm.value, emask, em.handler, spec_combos(infosm));
            proof {
                assert(view_infos(infos@).skip(0) =~= infosm);
                assert(crate::expand::view_combos(combos@) == spec_combos(infosm));
                assert(cands.len() == combos@.len());
            }
            let mut j: usize = 0;
            while j < combos.len()
                invariant
                    entries == self@,
                    em == entries[i as int],
                    i < entries.len(),
                    infosm == view_infos(infos@),
                    crate::expand::view_combos(combos@) == spec_combos(infosm),
                    cands == spec_candidates(pm.value, emask, em.handler, spec_combos(infosm)),
                    cands.len() == combos@.len(),
                    em.handler == entry.handler@,
                    entry == self.entries@[i as int],
                    pm.value == pat.value,
                    j <= combos@.len(),
                    spec_accept_from(acc_in, cands, 0, full) == spec_accept_from(
                        view_decisions(acc@),
                        cands,
                        j as int,
                        full,
                    ),
                decreases combos@.len() - j,
            {
                proof {
                    assert(combos@[j as int]@ == spec_combos(infosm)[j as int]);
                    assert(cands[j as int] == (DecisionModel {
                        mask: emask,
                        value: pm.value | spec_combos(infosm)[j as int].bits,
                        invocation: spec_invocation(
                            em.handler,
                            spec_combos(infosm)[j as int].binds,
                        ),
                    }));
                }
                let cval = pat.value | combos[j].bits;
                let ghost accv = view_decisions(acc@);
                let mut dup = false;
                let mut q: usize = 0;
                while q < acc.len()
                    invariant
                        accv == view_decisions(acc@),
                        accv.len() == acc@.len(),
                        q <= acc@.len(),
                        dup == exists|x: int|
                            0 <= x < q && (#[trigger] accv[x]).mask == full && accv[x].value
                                == cval,
                    decreases acc@.len() - q,
                {
                    proof {
                        assert(accv[q as int] == acc@[q as int]@);
                    }
                    if acc[q].mask == full && acc[q].value == cval {
                        dup = true;
                        proof {
                            assert(accv[q as int].mask == full && accv[q as int].value == cval);
                        }
                    }
                    q += 1;
                }
                proof {
                    assert(dup == spec_owned(accv, cval, full));
                    assert(cands[j as int].value == cval);
                }
                if !dup {
                    let inv = resolve_invocation(&entry.handler, &combos[j].binds);
                    proof {
                        assert(view_binds(combos@[j as int].binds@) == combos@[j as int]@.binds);
                        assert(inv@ =~~= cands[j as int].invocation);
                    }
                    acc.push(DecisionEntry { mask: emask, value: cval, invocation: inv });
                    proof {
                        assert(acc@[accv.len() as int]@ =~~= cands[j as int]);
                        assert(view_decisions(acc@) =~~= accv.push(cands[j as int]));
                    }
                }
                j += 1;
            }
            proof {
                assert(spec_accept_from(acc_in, cands, 0, full) == view_decisions(acc@));
                assert(spec_entry_step(em, acc_in) == Ok::<Seq<DecisionModel>, ErrorKind>(
                    view_decisions(acc@),
                ));
            }
            i += 1;
        }
        let t = DecisionTable { entries: acc };
        Ok(t)
    }
}

/// Checks every binding of an entry, in declaration order.
fn validate_bindings(bs: &Vec<VariableBinding>) -> (r: Option<ErrorKind>)
    ensures
        r == spec_bindings_error(view_bindings(bs@)),
{
    let ghost bsm = view_bindings(bs@);
    let mut j: usize = 0;
    while j < bs.len()
        invariant
            bsm == view_bindings(bs@),
            bsm.len() == bs@.len(),
            j <= bs@.len(),
            bindings_error_from(bsm, 0) == bindings_error_from(bsm, j as int),
        decreases bs@.len() - j,
    {
        proof {
            assert(bsm[j as int] == bs@[j as int]@);
        }
        match validate_binding(&bs[j]) {
            Some(k) => {
                return Some(k);
            },
            None => {},
        }
        j += 1;
    }
    None
}

} // verus!
