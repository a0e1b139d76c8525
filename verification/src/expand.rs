//! The expansion engine.  Each table entry's bound variables and their
//! literal choices are cross-multiplied, in declaration order, into the
//! concrete bit contributions and symbolic bindings of every combination.

use vstd::prelude::*;

verus! {

/// One legal value of a variable field: the parsed literal and its tag.
pub struct LitMapping {
    pub value: u64,
    pub tag: String,
}

/// Model of a `LitMapping`.
#[verifier::ext_equal]
pub struct LitMappingModel {
    pub value: u64,
    pub tag: Seq<char>,
}

impl View for LitMapping {
    type V = LitMappingModel;

    open spec fn view(&self) -> LitMappingModel {
        LitMappingModel { value: self.value, tag: self.tag@ }
    }
}

/// A bound variable: its letter, the lowest bit position of its field, and
/// its enumerated values, in declaration order.
pub struct VarInfo {
    pub name: char,
    pub start: usize,
    pub width: usize,
    pub mappings: Vec<LitMapping>,
}

/// Model of a `VarInfo`.
#[verifier::ext_equal]
pub struct VarInfoModel {
    pub name: char,
    pub start: usize,
    pub width: usize,
    pub mappings: Seq<LitMappingModel>,
}

impl View for VarInfo {
    type V = VarInfoModel;

    open spec fn view(&self) -> VarInfoModel {
        VarInfoModel {
            name: self.name,
            start: self.start,
            width: self.width,
            mappings: self.mappings@.map_values(|m: LitMapping| m@),
        }
    }
}

/// One variable resolved to one symbolic tag.
pub struct Bind {
    pub var: char,
    pub tag: String,
}

/// Model of a `Bind`.
#[verifier::ext_equal]
pub struct BindModel {
    pub var: char,
    pub tag: Seq<char>,
}

impl View for Bind {
    type V = BindModel;

    open spec fn view(&self) -> BindModel {
        BindModel { var: self.var, tag: self.tag@ }
    }
}

/// One combination: the OR of all shifted literals, and the tag each bound
/// variable took.
pub struct Combo {
    pub bits: u64,
    pub binds: Vec<Bind>,
}

/// Model of a `Combo`.
#[verifier::ext_equal]
pub struct ComboModel {
    pub bits: u64,
    pub binds: Seq<BindModel>,
}

impl View for Combo {
    type V = ComboModel;

    open spec fn view(&self) -> ComboModel {
        ComboModel { bits: self.bits, binds: self.binds@.map_values(|b: Bind| b@) }
    }
}

/// The models of a sequence of bound variables.
pub open spec fn view_infos(infos: Seq<VarInfo>) -> Seq<VarInfoModel> {
    infos.map_values(|v: VarInfo| v@)
}

/// The models of a sequence of combinations.
pub open spec fn view_combos(cs: Seq<Combo>) -> Seq<ComboModel> {
    cs.map_values(|c: Combo| c@)
}

/// The models of a sequence of binds.
pub open spec fn view_binds(bs: Seq<Bind>) -> Seq<BindModel> {
    bs.map_values(|b: Bind| b@)
}

/// All combinations of the variables in `infos`, the first variable
/// outermost: for the empty sequence the single empty combination, else the
/// blocks of the first variable's choices in declaration order.
pub open spec fn spec_combos(infos: Seq<VarInfoModel>) -> Seq<ComboModel>
    decreases infos.len(), (if infos.len() == 0 {
        0int
    } else {
        infos[0].mappings.len() + 1int
    }),
{
    if infos.len() == 0 {
        seq![ComboModel { bits: 0u64, binds: Seq::empty() }]
    } else {
        spec_combos_from(infos, 0)
    }
}

/// The combinations that pick choice `j` or a later one for the first
/// variable.
pub open spec fn spec_combos_from(infos: Seq<VarInfoModel>, j: int) -> Seq<ComboModel>
    recommends
        infos.len() > 0,
    decreases infos.len(), (if infos.len() == 0 {
        0int
    } else {
        infos[0].mappings.len() - j
    }),
{
    if infos.len() == 0 || j < 0 || j >= infos[0].mappings.len() {
        Seq::empty()
    } else {
        spec_combo_block(infos, j) + spec_combos_from(infos, j + 1)
    }
}

/// The block of combinations that pick choice `j` for the first variable:
/// every combination of the remaining variables, prefixed with that choice.
pub open spec fn spec_combo_block(infos: Seq<VarInfoModel>, j: int) -> Seq<ComboModel>
    recommends
        infos.len() > 0,
        0 <= j < infos[0].mappings.len(),
    decreases infos.len(), 0int,
{
    if infos.len() == 0 || j < 0 || j >= infos[0].mappings.len() {
        Seq::empty()
    } else {
        let head = infos[0];
        let m = head.mappings[j];
        spec_combos(infos.drop_first()).map_values(
            |c: ComboModel| ComboModel {
                bits: (m.value << (head.start as u64)) | c.bits,
                binds: seq![BindModel { var: head.name, tag: m.tag }] + c.binds,
            },
        )
    }
}

/// Copies a bind list.
fn clone_binds(src: &Vec<Bind>) -> (r: Vec<Bind>)
    ensures
        r@.len() == src@.len(),
        forall|q: int| 0 <= q < src@.len() ==> (#[trigger] r@[q])@ == src@[q]@,
{
    let mut r: Vec<Bind> = Vec::new();
    let mut k: usize = 0;
    while k < src.len()
        invariant
            k <= src@.len(),
            r@.len() == k,
            forall|q: int| 0 <= q < k ==> (#[trigger] r@[q])@ == src@[q]@,
        decreases src@.len() - k,
    {
        let tag = src[k].tag.clone();
        let var = src[k].var;
        r.push(Bind { var, tag });
        k += 1;
    }
    r
}

/// Expands the variables of `infos` from index `i` on into every
/// combination, exactly as `spec_combos` lists them.
pub fn expand_combos(infos: &Vec<VarInfo>, i: usize) -> (r: Vec<Combo>)
    requires
        i <= infos@.len(),
        forall|k: int| 0 <= k < infos@.len() ==> (#[trigger] infos@[k]).start < 64,
    ensures
        view_combos(r@) == spec_combos(view_infos(infos@).skip(i as int)),
    decreases infos@.len() - i,
{
    let ghost h: Seq<VarInfoModel> = view_infos(infos@).skip(i as int);
    if i == infos.len() {
        let mut out: Vec<Combo> = Vec::new();
        out.push(Combo { bits: 0, binds: Vec::new() });
        proof {
            assert(h =~= Seq::<VarInfoModel>::empty());
            assert(view_combos(out@) =~~= spec_combos(h));
        }
        return out;
    }
    let rest = expand_combos(infos, i + 1);
    proof {
        assert(h.drop_first() =~= view_infos(infos@).skip(i + 1));
        assert(h[0] == infos@[i as int]@);
    }
    let head = &infos[i];
    let mut out: Vec<Combo> = Vec::new();
    let mut j: usize = 0;
    while j < head.mappings.len()
        invariant
            i < infos@.len(),
            forall|k: int| 0 <= k < infos@.len() ==> (#[trigger] infos@[k]).start < 64,
            head == infos@[i as int],
            h == view_infos(infos@).skip(i as int),
            h.len() > 0,
            h[0] == infos@[i as int]@,
            h.drop_first() == view_infos(infos@).skip(i + 1),
            view_combos(rest@) == spec_combos(h.drop_first()),
            j <= head.mappings@.len(),
            h[0].mappings.len() == head.mappings@.len(),
            spec_combos_from(h, 0) == view_combos(out@) + spec_combos_from(h, j as int),
        decreases head.mappings@.len() - j,
    {
        let m_value = head.mappings[j].value;
        let m_tag = &head.mappings[j].tag;
        let ghost out0 = out@;
        let mut k: usize = 0;
        while k < rest.len()
            invariant
                i < infos@.len(),
                head == infos@[i as int],
                h == view_infos(infos@).skip(i as int),
                h.len() > 0,
                h[0] == infos@[i as int]@,
                view_combos(rest@) == spec_combos(h.drop_first()),
                j < head.mappings@.len(),
                h[0].mappings.len() == head.mappings@.len(),
                m_value == head.mappings@[j as int].value,
                m_tag == head.mappings@[j as int].tag,
                head.start < 64,
                k <= rest@.len(),
                view_combos(out@) =~= view_combos(out0) + spec_combo_block(
                    h,
                    j as int,
                ).take(k as int),
                out@.len() == out0.len() + k,
            decreases rest@.len() - k,
        {
            let ghost out_pre = out@;
            let mut binds: Vec<Bind> = Vec::new();
            binds.push(Bind { var: head.name, tag: m_tag.clone() });
            let mut more = clone_binds(&rest[k].binds);
            binds.append(&mut more);
            let bits: u64 = (m_value << (head.start as u64)) | rest[k].bits;
            out.push(Combo { bits, binds });
            proof {
                let block = spec_combo_block(h, j as int);
                assert(block.len() == spec_combos(h.drop_first()).len());
                assert(block[k as int] == ComboModel {
                    bits: (h[0].mappings[j as int].value << (h[0].start as u64)) | rest@[
                        k as int
                    ]@.bits,
                    binds: seq![
                        BindModel { var: h[0].name, tag: h[0].mappings[j as int].tag },
                    ] + rest@[k as int]@.binds,
                });
                let nc = out@[out0.len() + k];
                assert(h[0].mappings[j as int] == head.mappings@[j as int]@);
                assert(nc@.binds[0] == BindModel { var: head.name, tag: m_tag@ });
                assert(forall|q: int|
                    1 <= q < nc@.binds.len() ==> #[trigger] nc@.binds[q] == rest@[
                        k as int
                    ]@.binds[q - 1]);
                assert(nc@.binds =~~= block[k as int].binds);
                assert(nc@ =~~= block[k as int]);
                assert(out@ == out_pre.push(out@.last()));
                assert(block.len() == rest@.len());
                let rhs = view_combos(out0) + block.take(k + 1);
                assert forall|q: int| 0 <= q < out@.len() implies view_combos(out@)[q] == rhs[q]
                by {
                    if q < out_pre.len() {
                        assert(out@[q] == out_pre[q]);
                        assert(view_combos(out@)[q] == view_combos(out_pre)[q]);
                        assert(view_combos(out_pre)[q] == (view_combos(out0) + block.take(
                            k as int,
                        ))[q]);
                        if q >= out0.len() {
                            assert(block.take(k as int)[q - out0.len()] == block.take(k + 1)[q
                                - out0.len()]);
                        }
                    } else {
                        assert(q == out0.len() + k);
                        assert(view_combos(out@)[q] == nc@);
                        assert(rhs[q] == block.take(k + 1)[k as int]);
                        assert(block.take(k + 1)[k as int] == block[k as int]);
                    }
                }
                assert(view_combos(out@) =~= rhs);
            }
            k += 1;
        }
        proof {
            let block = spec_combo_block(h, j as int);
            assert(block.take(block.len() as int) =~= block);
            assert(view_combos(out@) =~~= view_combos(out0) + block);
        }
        j += 1;
    }
    proof {
        assert(spec_combos_from(h, head.mappings@.len() as int) =~= Seq::<ComboModel>::empty());
        assert(view_combos(out@) =~~= spec_combos_from(h, 0));
    }
    out
}


/// Single-variable expansion, one choice at a time: choice `u` contributes
/// exactly the shifted literal of mapping `u` and that mapping's tag.
proof fn lemma_single_var_from(v: VarInfoModel, j: int)
    requires
        0 <= j <= v.mappings.len(),
    ensures
        spec_combos_from(seq![v], j).len() == v.mappings.len() - j,
        forall|u: int|
            j <= u < v.mappings.len() ==> #[trigger] spec_combos_from(seq![v], j)[u - j] == (
            ComboModel {
                bits: (v.mappings[u].value << (v.start as u64)),
                binds: seq![BindModel { var: v.name, tag: v.mappings[u].tag }],
            }),
    decreases v.mappings.len() - j,
{
    let infos: Seq<VarInfoModel> = seq![v];
    assert(infos[0] == v);
    if j < v.mappings.len() {
        lemma_single_var_from(v, j + 1);
        crate::bits::lemma_or_zero();
        assert(infos.drop_first() =~= Seq::<VarInfoModel>::empty());
        let block = spec_combo_block(infos, j);
        assert(spec_combos_from(infos, j) == block + spec_combos_from(infos, j + 1));
        assert(spec_combos(infos.drop_first()) == seq![
            ComboModel { bits: 0u64, binds: Seq::empty() },
        ]);
        assert(block.len() == 1);
        let target = ComboModel {
            bits: (v.mappings[j].value << (v.start as u64)),
            binds: seq![BindModel { var: v.name, tag: v.mappings[j].tag }],
        };
        assert(block[0] == ComboModel {
            bits: (v.mappings[j].value << (v.start as u64)) | 0u64,
            binds: seq![BindModel { var: v.name, tag: v.mappings[j].tag }] + Seq::empty(),
        });
        assert((v.mappings[j].value << (v.start as u64)) | 0u64 == (v.mappings[j].value << (
        v.start as u64)));
        assert(seq![BindModel { var: v.name, tag: v.mappings[j].tag }] + Seq::empty() =~= seq![
            BindModel { var: v.name, tag: v.mappings[j].tag },
        ]);
        assert(block[0] =~~= target);
        assert(spec_combos_from(infos, j).len() == v.mappings.len() - j);
        assert forall|u: int| j <= u < v.mappings.len() implies #[trigger] spec_combos_from(
            infos,
            j,
        )[u - j] == (ComboModel {
            bits: (v.mappings[u].value << (v.start as u64)),
            binds: seq![BindModel { var: v.name, tag: v.mappings[u].tag }],
        }) by {
            if u == j {
                assert(spec_combos_from(infos, j)[u - j] == block[0]);
            } else {
                assert(spec_combos_from(infos, j)[u - j] == spec_combos_from(infos, j + 1)[u - j
                    - 1]);
                assert(spec_combos_from(infos, j + 1)[u - (j + 1)] == spec_combos_from(
                    infos,
                    j + 1,
                )[u - j - 1]);
            }
        }
    }
}

/// A variable bound to `k` literal choices expands into exactly `k`
/// combinations, in declaration order; combination `t` contributes the
/// literal of choice `t` shifted to the variable's start bit, and binds the
/// variable to that choice's tag.
pub proof fn lemma_single_variable_expansion(v: VarInfoModel, t: int)
    requires
        0 <= t < v.mappings.len(),
    ensures
        spec_combos(seq![v]).len() == v.mappings.len(),
        spec_combos(seq![v])[t] == (ComboModel {
            bits: (v.mappings[t].value << (v.start as u64)),
            binds: seq![BindModel { var: v.name, tag: v.mappings[t].tag }],
        }),
{
    lemma_single_var_from(v, 0);
    assert(spec_combos(seq![v]) == spec_combos_from(seq![v], 0));
    assert(spec_combos_from(seq![v], 0)[t - 0] == (ComboModel {
        bits: (v.mappings[t].value << (v.start as u64)),
        binds: seq![BindModel { var: v.name, tag: v.mappings[t].tag }],
    }));
}

/// A literal below `2^width`, shifted to the field's start bit, has no bit
/// outside the field.
pub proof fn lemma_shifted_literal_confined(lit: u64, start: u64, width: u64)
    requires
        start < 64,
        start + width <= 64,
        width < 64 ==> lit < (1u64 << width),
    ensures
        forall|p: u64|
            p < 64 && (p < start || p >= start + width) ==> !#[trigger] crate::bits::bit64(
                lit << start,
                p,
            ),
{
    crate::bits::lemma_bit_shl();
    if width < 64 {
        crate::bits::lemma_lt_pow2_high_bits_clear(lit, width);
    }
    assert forall|p: u64| p < 64 && (p < start || p >= start + width) implies
        !#[trigger] crate::bits::bit64(lit << start, p) by {
        assert(crate::bits::bit64(lit << start, p) == (p >= start && crate::bits::bit64(
            lit,
            (p - start) as u64,
        )));
    }
}

} // verus!
