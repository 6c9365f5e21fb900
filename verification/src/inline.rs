//! Inlining of a call: the body of the callee replaces the call instruction in the caller.
//!
//! The block holding the call is split after the call. The instructions of the callee's
//! entry block follow the instructions before the call; each further callee block becomes
//! a fresh block, in the callee's order; the instructions after the call move to a fresh
//! continuation block with one parameter, which receives the callee's return value.
//! Every callee instruction is copied with fresh numbers: value operands are renamed
//! through the values bound so far (entry parameters to the call's arguments, results to
//! fresh values), calls go to the caller's external function of the same name, global
//! values are appended to the caller's, destinations go to the fresh blocks, and a return
//! becomes a jump to the continuation block. A copied call gets as many results as its
//! signature in the caller returns; the callee's results are bound to the first of them. Uses of the call's first result in the
//! continuation block are replaced by its parameter.

use vstd::prelude::*;
use std::collections::HashMap;
use crate::ir::{
    block_ids_distinct, copy_blocks, copy_insts, copy_values, is_position, placed_once, position_of,
    sole_position, Block,
    BlockModel, ExtFunc, ExtName, Func, FuncModel, Inst, InstKind, InstModel,
};

verus! {

broadcast use vstd::std_specs::hash::group_hash_axioms;

/// The correspondence between callee values and caller values while the callee is copied,
/// with the numbers of the next fresh value and the next fresh instruction.
pub struct CopyState {
    pub vmap: Map<u32, u32>,
    pub next_value: int,
    pub next_inst: int,
}

/// The callee's entry parameters bound in turn to the call's arguments.
pub open spec fn bind_params(params: Seq<u32>, args: Seq<u32>) -> Map<u32, u32>
    decreases params.len(),
{
    if params.len() == 0 {
        Map::empty()
    } else {
        bind_params(params.drop_last(), args).insert(params.last(), args[params.len() - 1])
    }
}

/// `vmap` with `results[j]` bound in turn to the fresh value `base + j`.
pub open spec fn bind_results(vmap: Map<u32, u32>, results: Seq<u32>, base: int) -> Map<u32, u32>
    decreases results.len(),
{
    if results.len() == 0 {
        vmap
    } else {
        bind_results(vmap, results.drop_last(), base).insert(
            results.last(),
            (base + results.len() - 1) as u32,
        )
    }
}

/// The number of results that the copy of callee instruction `inst` gets in the caller
/// `f`: a call gets those of its signature in the caller (that of the caller's external
/// function it now calls, or the signature number it carries), any other instruction as
/// many as it has.
pub open spec fn copied_result_count(f: FuncModel, g: FuncModel, inst: InstModel) -> nat {
    match remap_kind(f, g, inst.kind) {
        InstKind::Call { func_ref } => f.signatures[f.ext_funcs[func_ref as int].signature as int] as nat,
        InstKind::CallIndirect { sig_ref } => f.signatures[sig_ref as int] as nat,
        _ => inst.results.len(),
    }
}

/// The copy state after callee instruction `inst` is copied into caller `f`.
pub open spec fn step(f: FuncModel, g: FuncModel, s: CopyState, inst: InstModel) -> CopyState {
    if inst.kind is Return {
        CopyState { vmap: s.vmap, next_value: s.next_value, next_inst: s.next_inst + 1 }
    } else {
        CopyState {
            vmap: bind_results(s.vmap, inst.results, s.next_value),
            next_value: s.next_value + copied_result_count(f, g, inst),
            next_inst: s.next_inst + 1,
        }
    }
}

/// The copy state before the callee instruction at `(k, i)` is copied into caller `f`,
/// when the copy starts in `start`; `state_at(f, g, start, g.blocks.len(), 0)` is the state
/// at the end.
pub open spec fn state_at(f: FuncModel, g: FuncModel, start: CopyState, k: nat, i: nat) -> CopyState
    decreases k, i,
{
    if i == 0 {
        if k == 0 {
            start
        } else {
            state_at(f, g, start, (k - 1) as nat, g.blocks[k - 1].insts.len())
        }
    } else {
        step(f, g, state_at(f, g, start, k, (i - 1) as nat), g.blocks[k as int].insts[i - 1])
    }
}

/// Whether the block numbered `id` is one of the callee's blocks after its entry block.
pub open spec fn has_later_block(g: FuncModel, id: u32) -> bool {
    exists|k: int| 1 <= k < g.blocks.len() && #[trigger] g.blocks[k].id == id
}

/// The index of the callee block numbered `id`, among the blocks after the entry block.
pub open spec fn later_block_index(g: FuncModel, id: u32) -> int {
    choose|k: int| 1 <= k < g.blocks.len() && #[trigger] g.blocks[k].id == id
}

/// Whether some external function of `exts` is named `name`.
pub open spec fn has_named(exts: Seq<ExtFunc>, name: ExtName) -> bool {
    exists|j: int| 0 <= j < exts.len() && #[trigger] exts[j].name == name
}

/// The index of the first external function of `exts` named `name`.
pub open spec fn first_named(exts: Seq<ExtFunc>, name: ExtName) -> int {
    choose|j: int|
        0 <= j < exts.len() && exts[j].name == name && forall|j2: int|
            0 <= j2 < j ==> #[trigger] exts[j2].name != name
}

/// Where some external function of `exts` is named `name`, the first such one exists.
pub proof fn lemma_has_first_named(exts: Seq<ExtFunc>, name: ExtName)
    requires
        has_named(exts, name),
    ensures
        0 <= first_named(exts, name) < exts.len(),
        exts[first_named(exts, name)].name == name,
        forall|j2: int| 0 <= j2 < first_named(exts, name) ==> #[trigger] exts[j2].name != name,
{
    let j = choose|j: int| 0 <= j < exts.len() && #[trigger] exts[j].name == name;
    lemma_first_named_upto(exts, name, j);
}

proof fn lemma_first_named_upto(exts: Seq<ExtFunc>, name: ExtName, j: int)
    requires
        0 <= j < exts.len(),
        exts[j].name == name,
    ensures
        0 <= first_named(exts, name) <= j,
        exts[first_named(exts, name)].name == name,
        forall|j2: int| 0 <= j2 < first_named(exts, name) ==> #[trigger] exts[j2].name != name,
    decreases j,
{
    if exists|j2: int| 0 <= j2 < j && #[trigger] exts[j2].name == name {
        let j2 = choose|j2: int| 0 <= j2 < j && #[trigger] exts[j2].name == name;
        lemma_first_named_upto(exts, name, j2);
    } else {
        assert(0 <= j < exts.len() && exts[j].name == name && forall|j2: int|
            0 <= j2 < j ==> #[trigger] exts[j2].name != name);
        let w = first_named(exts, name);
        if w > j {
            assert(exts[j].name != name);
        }
    }
}

/// The kind of a copied callee instruction: references go to the caller's entities.
pub open spec fn remap_kind(f: FuncModel, g: FuncModel, kind: InstKind) -> InstKind {
    match kind {
        InstKind::Call { func_ref } => InstKind::Call {
            func_ref: first_named(f.ext_funcs, g.ext_funcs[func_ref as int].name) as u32,
        },
        InstKind::GlobalValue { global_value } => InstKind::GlobalValue {
            global_value: (f.global_values.len() + global_value) as u32,
        },
        InstKind::Jump { dest } => InstKind::Jump {
            dest: (f.next_block + later_block_index(g, dest)) as u32,
        },
        InstKind::Branch { dest } => InstKind::Branch {
            dest: (f.next_block + later_block_index(g, dest)) as u32,
        },
        _ => kind,
    }
}

/// The renamed operands of a copied instruction. A value-list operand is renamed through
/// `m`, and a fixed one among them once more where `m` binds its new name; an operand
/// outside a value list is renamed where `m` binds it and kept otherwise.
pub open spec fn remap_args(m: Map<u32, u32>, inst: InstModel) -> Seq<u32> {
    if inst.uses_list {
        Seq::new(
            inst.args.len(),
            |j: int|
                if j < inst.num_fixed && m.contains_key(m[inst.args[j]]) {
                    m[m[inst.args[j]]]
                } else {
                    m[inst.args[j]]
                },
        )
    } else {
        Seq::new(
            inst.args.len(),
            |j: int|
                if m.contains_key(inst.args[j]) {
                    m[inst.args[j]]
                } else {
                    inst.args[j]
                },
        )
    }
}

/// The caller instruction made from callee instruction `inst` in copy state `s`.
/// A return becomes a jump, with data word 0, to the continuation block.
pub open spec fn copied_inst(f: FuncModel, g: FuncModel, s: CopyState, inst: InstModel) -> InstModel {
    if inst.kind is Return {
        InstModel {
            id: s.next_inst as u32,
            data: 0,
            kind: InstKind::Jump { dest: f.next_block },
            args: seq![s.vmap[inst.args[0]]],
            num_fixed: 0,
            uses_list: true,
            results: Seq::empty(),
        }
    } else {
        InstModel {
            id: s.next_inst as u32,
            data: inst.data,
            kind: remap_kind(f, g, inst.kind),
            args: remap_args(s.vmap, inst),
            num_fixed: inst.num_fixed,
            uses_list: inst.uses_list,
            results: Seq::new(copied_result_count(f, g, inst), |j: int| (s.next_value + j) as u32),
        }
    }
}

/// Whether callee instruction `inst` can be copied into caller `f` in state `s`: the
/// operands that the copy must rename are bound, its references exist, a call's signature
/// in the caller exists and returns at least as many values as the instruction has
/// results, and its results are not yet bound.
pub open spec fn copyable(f: FuncModel, g: FuncModel, s: CopyState, inst: InstModel) -> bool {
    if inst.kind is Return {
        inst.args.len() >= 1 && s.vmap.contains_key(inst.args[0])
    } else {
        &&& inst.uses_list ==> forall|j: int|
            0 <= j < inst.args.len() ==> s.vmap.contains_key(#[trigger] inst.args[j])
        &&& inst.kind matches InstKind::Call { func_ref } ==> {
            &&& func_ref < g.ext_funcs.len()
            &&& has_named(f.ext_funcs, g.ext_funcs[func_ref as int].name)
            &&& f.ext_funcs[first_named(f.ext_funcs, g.ext_funcs[func_ref as int].name)].signature
                < f.signatures.len()
        }
        &&& inst.kind matches InstKind::CallIndirect { sig_ref } ==> sig_ref < f.signatures.len()
        &&& inst.results.len() <= copied_result_count(f, g, inst)
        &&& inst.kind matches InstKind::GlobalValue { global_value } ==> global_value
            < g.global_values.len()
        &&& inst.kind matches InstKind::Jump { dest } ==> has_later_block(g, dest)
        &&& inst.kind matches InstKind::Branch { dest } ==> has_later_block(g, dest)
        &&& forall|j: int|
            0 <= j < inst.results.len() ==> !#[trigger] bind_results(
                s.vmap,
                inst.results.take(j),
                s.next_value,
            ).contains_key(inst.results[j])
    }
}

/// The operands that a call passes to its callee.
pub open spec fn call_arguments(call: InstModel) -> Seq<u32> {
    call.args.skip(call.num_fixed as int)
}

/// The copy state in which copying starts: the first fresh value goes to the
/// continuation block's parameter.
pub open spec fn copy_start(f: FuncModel, call: InstModel, g: FuncModel) -> CopyState {
    CopyState {
        vmap: bind_params(g.blocks[0].params, call_arguments(call)),
        next_value: f.next_value + 1,
        next_inst: f.next_inst as int,
    }
}

/// The copies of the instructions of callee block `k`.
pub open spec fn copied_block(f: FuncModel, g: FuncModel, start: CopyState, k: int) -> Seq<InstModel> {
    Seq::new(
        g.blocks[k].insts.len(),
        |i: int|
            copied_inst(f, g, state_at(f, g, start, k as nat, i as nat), g.blocks[k].insts[i]),
    )
}

/// The fresh caller blocks made from the callee blocks after the entry block.
pub open spec fn later_blocks(f: FuncModel, g: FuncModel, start: CopyState) -> Seq<BlockModel> {
    Seq::new(
        (g.blocks.len() - 1) as nat,
        |k: int|
            BlockModel {
                id: (f.next_block + 1 + k) as u32,
                params: Seq::empty(),
                insts: copied_block(f, g, start, k + 1),
            },
    )
}

/// The copy state made of a value correspondence and two wide counters.
pub open spec fn state_wide(vmap: Map<u32, u32>, next_value: u64, next_inst: u64) -> CopyState {
    CopyState { vmap, next_value: next_value as int, next_inst: next_inst as int }
}

/// The copy state made of a value correspondence and two counters.
pub open spec fn state_of(vmap: Map<u32, u32>, next_value: u32, next_inst: u32) -> CopyState {
    CopyState { vmap, next_value: next_value as int, next_inst: next_inst as int }
}

/// `inst` with each operand equal to `old` replaced by `new`.
pub open spec fn replace_value(inst: InstModel, old: u32, new: u32) -> InstModel {
    InstModel {
        id: inst.id,
        data: inst.data,
        kind: inst.kind,
        args: inst.args.map_values(|a: u32| if a == old { new } else { a }),
        num_fixed: inst.num_fixed,
        uses_list: inst.uses_list,
        results: inst.results,
    }
}

/// Whether the caller `f` can take the body of `g` at the instruction numbered `callsite`.
pub open spec fn can_inline(f: FuncModel, callsite: u32, g: FuncModel) -> bool {
    let (sb, si) = position_of(f, callsite);
    let call = f.blocks[sb].insts[si];
    let start = copy_start(f, call, g);
    let end = state_at(f, g, start, g.blocks.len() as nat, 0);
    &&& placed_once(f, callsite)
    &&& (call.kind matches InstKind::Call { .. } || call.kind is CallIndirect)
    &&& call.num_fixed <= call.args.len()
    &&& call.results.len() >= 1
    &&& si + 1 < f.blocks[sb].insts.len()
    &&& g.blocks.len() >= 1
    &&& g.returns >= 1
    &&& g.blocks[0].params.len() <= call_arguments(call).len()
    &&& block_ids_distinct(g)
    &&& forall|j: int| 0 <= j < g.ext_funcs.len() ==> has_named(f.ext_funcs, #[trigger] g.ext_funcs[j].name)
    &&& f.ext_funcs.len() <= u32::MAX
    &&& forall|k: int, i: int|
        0 <= k < g.blocks.len() && 0 <= i < g.blocks[k].insts.len() ==> #[trigger] copyable(
            f, g,
            state_at(f, g, start, k as nat, i as nat),
            g.blocks[k].insts[i],
        )
    &&& end.next_value <= u32::MAX
    &&& end.next_inst <= u32::MAX
    &&& f.next_block + g.blocks.len() <= u32::MAX
    &&& f.global_values.len() + g.global_values.len() <= u32::MAX
}

/// The caller after the body of `g` replaced the call numbered `callsite`.
pub open spec fn inline_result(f: FuncModel, callsite: u32, g: FuncModel) -> FuncModel {
    let (sb, si) = position_of(f, callsite);
    let blk = f.blocks[sb];
    let call = blk.insts[si];
    let start = copy_start(f, call, g);
    let end = state_at(f, g, start, g.blocks.len() as nat, 0);
    let head = BlockModel {
        id: blk.id,
        params: blk.params,
        insts: blk.insts.take(si) + copied_block(f, g, start, 0),
    };
    let middle = later_blocks(f, g, start);
    let cont = BlockModel {
        id: f.next_block,
        params: seq![f.next_value],
        insts: blk.insts.skip(si + 1).map_values(
            |x: InstModel| replace_value(x, call.results[0], f.next_value),
        ),
    };
    FuncModel {
        name: f.name,
        blocks: f.blocks.take(sb) + seq![head] + middle + seq![cont] + f.blocks.skip(sb + 1),
        ext_funcs: f.ext_funcs,
        signatures: f.signatures,
        returns: f.returns,
        global_values: f.global_values + g.global_values,
        next_value: end.next_value as u32,
        next_block: (f.next_block + g.blocks.len()) as u32,
        next_inst: end.next_inst as u32,
    }
}

/// The value that `vm` binds to `k`, if any.
fn lookup(vm: &HashMap<u32, u32>, k: u32) -> (r: Option<u32>)
    ensures
        r == (if vm@.contains_key(k) { Some(vm@[k]) } else { None::<u32> }),
{
    match vm.get(&k) {
        Some(v) => Some(*v),
        None => None,
    }
}

/// Finds the first external function of `func` named `name`.
pub fn get_funcref_for_extfunc_name(func: &Func, name: &ExtName) -> (r: Option<u32>)
    requires
        func.ext_funcs@.len() <= u32::MAX,
    ensures
        match r {
            Some(j) => has_named(func.ext_funcs@, *name) && j as int == first_named(func.ext_funcs@, *name),
            None => !has_named(func.ext_funcs@, *name),
        },
{
    let mut j: usize = 0;
    while j < func.ext_funcs.len()
        invariant
            j <= func.ext_funcs@.len() <= u32::MAX,
            forall|j2: int| 0 <= j2 < j ==> #[trigger] func.ext_funcs@[j2].name != *name,
        decreases func.ext_funcs.len() - j,
    {
        if func.ext_funcs[j].name == *name {
            let ghost exts = func.ext_funcs@;
            assert(exts[j as int].name == *name);
            let ghost w = first_named(exts, *name);
            assert(0 <= w < exts.len() && exts[w].name == *name && forall|j2: int|
                0 <= j2 < w ==> #[trigger] exts[j2].name != *name);
            assert(w == j as int) by {
                if w < j as int {
                    assert(exts[w].name != *name);
                }
                if w > j as int {
                    assert(exts[j as int].name != *name);
                }
            }
            return Some(j as u32);
        }
        j = j + 1;
    }
    None
}

/// Along the copy, the counters never decrease: each state lies between the start and the end.
pub(crate) proof fn lemma_state_between(f: FuncModel, g: FuncModel, start: CopyState, k: nat, i: nat)
    requires
        k < g.blocks.len(),
        i <= g.blocks[k as int].insts.len(),
    ensures
        start.next_value <= state_at(f, g, start, k, i).next_value <= state_at(
            f,
            g,
            start,
            g.blocks.len() as nat,
            0,
        ).next_value,
        start.next_inst <= state_at(f, g, start, k, i).next_inst <= state_at(
            f,
            g,
            start,
            g.blocks.len() as nat,
            0,
        ).next_inst,
{
    lemma_state_after_start(f, g, start, k, i);
    lemma_state_before_end(f, g, start, k, i);
}

proof fn lemma_state_after_start(f: FuncModel, g: FuncModel, start: CopyState, k: nat, i: nat)
    requires
        k < g.blocks.len(),
        i <= g.blocks[k as int].insts.len(),
    ensures
        start.next_value <= state_at(f, g, start, k, i).next_value,
        start.next_inst <= state_at(f, g, start, k, i).next_inst,
    decreases k, i,
{
    if i > 0 {
        lemma_state_after_start(f, g, start, k, (i - 1) as nat);
    } else if k > 0 {
        lemma_state_after_start(f, g, start, (k - 1) as nat, g.blocks[k - 1].insts.len());
    }
}

proof fn lemma_state_before_end(f: FuncModel, g: FuncModel, start: CopyState, k: nat, i: nat)
    requires
        k < g.blocks.len(),
        i <= g.blocks[k as int].insts.len(),
    ensures
        state_at(f, g, start, k, i).next_value <= state_at(f, g, start, g.blocks.len() as nat, 0).next_value,
        state_at(f, g, start, k, i).next_inst <= state_at(f, g, start, g.blocks.len() as nat, 0).next_inst,
    decreases g.blocks.len() - k, g.blocks[k as int].insts.len() - i,
{
    if i < g.blocks[k as int].insts.len() {
        lemma_state_before_end(f, g, start, k, i + 1);
    } else {
        assert(state_at(f, g, start, k + 1, 0) == state_at(f, g, start, k, i));
        if k + 1 < g.blocks.len() {
            lemma_state_before_end(f, g, start, k + 1, 0);
        }
    }
}

/// The index of the callee block numbered `id` among the blocks after the entry block.
fn find_later_block(g: &Func, id: u32) -> (k: usize)
    requires
        has_later_block(g@, id),
        block_ids_distinct(g@),
    ensures
        k as int == later_block_index(g@, id),
        1 <= k < g@.blocks.len(),
{
    let ghost w = later_block_index(g@, id);
    assert(1 <= w < g@.blocks.len() && g@.blocks[w].id == id);
    let mut k: usize = 1;
    while k < g.blocks.len()
        invariant
            1 <= k <= g@.blocks.len(),
            1 <= w < g@.blocks.len() && g@.blocks[w].id == id,
            block_ids_distinct(g@),
            w >= k,
        decreases g.blocks.len() - k,
    {
        assert(g@.blocks[k as int].id == g.blocks@[k as int].id);
        if g.blocks[k].id == id {
            assert(k as int == w) by {
                if k as int != w {
                    assert(g@.blocks[k as int].id != g@.blocks[w].id);
                }
            }
            return k;
        }
        k = k + 1;
    }
    assert(false);
    0
}

/// Copies one callee instruction into the caller, renaming it through `vm` and the
/// counters, which advance past it.
fn copy_callee_inst(
    inst: &Inst,
    vm: &mut HashMap<u32, u32>,
    next_value: &mut u32,
    next_inst: &mut u32,
    cont: u32,
    gv_base: usize,
    fnmap: &Vec<u32>,
    g: &Func,
    caller: &Func,
    Ghost(f): Ghost<FuncModel>,
) -> (r: Inst)
    requires
        caller@ == f,
        copyable(f, g@, state_of(old(vm)@, *old(next_value), *old(next_inst)), inst@),
        cont == f.next_block,
        gv_base == f.global_values.len(),
        fnmap@.len() == g.ext_funcs@.len(),
        forall|j: int|
            0 <= j < fnmap@.len() ==> #[trigger] fnmap@[j] as int == first_named(
                f.ext_funcs,
                g.ext_funcs@[j].name,
            ),
        block_ids_distinct(g@),
        *old(next_inst) < u32::MAX,
        !(inst@.kind is Return) ==> *old(next_value) + copied_result_count(f, g@, inst@) <= u32::MAX,
        f.next_block + g@.blocks.len() <= u32::MAX,
        f.global_values.len() + g.global_values@.len() <= u32::MAX,
    ensures
        r@ == copied_inst(f, g@, state_of(old(vm)@, *old(next_value), *old(next_inst)), inst@),
        state_of(final(vm)@, *final(next_value), *final(next_inst)) == step(
            f, g@, state_of(old(vm)@, *old(next_value), *old(next_inst)),
            inst@,
        ),
{
    let ghost s0 = state_of(vm@, *next_value, *next_inst);
    let id = *next_inst;
    *next_inst = *next_inst + 1;
    if let InstKind::Return = inst.kind {
        let v = lookup(vm, inst.args[0]).unwrap();
        let mut args: Vec<u32> = Vec::new();
        args.push(v);
        let r = Inst {
            id,
            data: 0,
            kind: InstKind::Jump { dest: cont },
            args,
            num_fixed: 0,
            uses_list: true,
            results: Vec::new(),
        };
        assert(r@.args =~= seq![s0.vmap[inst@.args[0]]]);
        assert(r@.results =~= Seq::<u32>::empty());
        return r;
    }
    // Operands.
    let mut args: Vec<u32> = Vec::new();
    let mut j: usize = 0;
    while j < inst.args.len()
        invariant
            vm@ == s0.vmap,
            !(inst@.kind is Return),
            copyable(f, g@, s0, inst@),
            j <= inst.args@.len(),
            args@.len() == j,
            forall|j2: int| 0 <= j2 < j ==> args@[j2] == #[trigger] remap_args(s0.vmap, inst@)[j2],
        decreases inst.args.len() - j,
    {
        let a = inst.args[j];
        let v = if inst.uses_list {
            assert(s0.vmap.contains_key(inst@.args[j as int]));
            let m1 = lookup(vm, a).unwrap();
            if j < inst.num_fixed {
                match lookup(vm, m1) {
                    Some(m2) => m2,
                    None => m1,
                }
            } else {
                m1
            }
        } else {
            match lookup(vm, a) {
                Some(m1) => m1,
                None => a,
            }
        };
        args.push(v);
        j = j + 1;
    }
    assert(args@ =~= remap_args(s0.vmap, inst@));
    // References to other entities.
    let kind = match inst.kind {
        InstKind::Call { func_ref } => InstKind::Call { func_ref: fnmap[func_ref as usize] },
        InstKind::GlobalValue { global_value } => InstKind::GlobalValue {
            global_value: (gv_base + global_value as usize) as u32,
        },
        InstKind::Jump { dest } => {
            let k = find_later_block(g, dest);
            InstKind::Jump { dest: cont + k as u32 }
        },
        InstKind::Branch { dest } => {
            let k = find_later_block(g, dest);
            InstKind::Branch { dest: cont + k as u32 }
        },
        other => other,
    };
    assert(kind == remap_kind(f, g@, inst@.kind));
    // A call takes its number of results from its signature in the caller.
    proof {
        if let InstKind::Call { func_ref } = inst@.kind {
            lemma_has_first_named(f.ext_funcs, g@.ext_funcs[func_ref as int].name);
        }
    }
    let count: usize = match kind {
        InstKind::Call { func_ref } => {
            let sig = caller.ext_funcs[func_ref as usize].signature;
            caller.signatures[sig as usize]
        },
        InstKind::CallIndirect { sig_ref } => caller.signatures[sig_ref as usize],
        _ => inst.results.len(),
    };
    assert(count == copied_result_count(f, g@, inst@));
    // Fresh results: the callee's results are bound to the first of them.
    let mut results: Vec<u32> = Vec::new();
    let mut nv: u32 = *next_value;
    let mut r: usize = 0;
    while r < inst.results.len()
        invariant
            r <= inst.results@.len(),
            inst.results@.len() <= count,
            nv as int == s0.next_value + r,
            s0.next_value + count <= u32::MAX,
            results@.len() == r,
            forall|j2: int| 0 <= j2 < r ==> results@[j2] as int == s0.next_value + j2,
            vm@ == bind_results(s0.vmap, inst@.results.take(r as int), s0.next_value),
        decreases inst.results.len() - r,
    {
        let ghost before = inst@.results.take(r as int);
        vm.insert(inst.results[r], nv);
        results.push(nv);
        nv = nv + 1;
        r = r + 1;
        assert(inst@.results.take(r as int).drop_last() =~= before);
    }
    assert(inst@.results.take(inst@.results.len() as int) =~= inst@.results);
    while r < count
        invariant
            inst.results@.len() <= r <= count,
            nv as int == s0.next_value + r,
            s0.next_value + count <= u32::MAX,
            results@.len() == r,
            forall|j2: int| 0 <= j2 < r ==> results@[j2] as int == s0.next_value + j2,
            vm@ == bind_results(s0.vmap, inst@.results, s0.next_value),
        decreases count - r,
    {
        results.push(nv);
        nv = nv + 1;
        r = r + 1;
    }
    *next_value = nv;
    let out = Inst {
        id,
        data: inst.data,
        kind,
        args,
        num_fixed: inst.num_fixed,
        uses_list: inst.uses_list,
        results,
    };
    assert(out@.results =~= Seq::new(count as nat, |j: int| (s0.next_value + j) as u32));
    out
}

/// Whether every callee instruction can be copied along the copy that starts in `start`.
pub open spec fn all_copyable(f: FuncModel, g: FuncModel, start: CopyState) -> bool {
    forall|k: int, i: int|
        0 <= k < g.blocks.len() && 0 <= i < g.blocks[k].insts.len() ==> #[trigger] copyable(
            f, g,
            state_at(f, g, start, k as nat, i as nat),
            g.blocks[k].insts[i],
        )
}

/// Copies the whole callee: the copies of its entry block's instructions and the fresh
/// blocks made from its later blocks.
#[verifier::loop_isolation(false)]
fn copy_callee_body(
    g: &Func,
    vm: &mut HashMap<u32, u32>,
    next_value: &mut u32,
    next_inst: &mut u32,
    cont: u32,
    gv_base: usize,
    fnmap: &Vec<u32>,
    caller: &Func,
    Ghost(f): Ghost<FuncModel>,
    Ghost(start): Ghost<CopyState>,
) -> (r: (Vec<Inst>, Vec<Block>))
    requires
        caller@ == f,
        state_of(old(vm)@, *old(next_value), *old(next_inst)) == start,
        g@.blocks.len() >= 1,
        all_copyable(f, g@, start),
        state_at(f, g@, start, g@.blocks.len() as nat, 0).next_value <= u32::MAX,
        state_at(f, g@, start, g@.blocks.len() as nat, 0).next_inst <= u32::MAX,
        cont == f.next_block,
        gv_base == f.global_values.len(),
        fnmap@.len() == g.ext_funcs@.len(),
        forall|j: int|
            0 <= j < fnmap@.len() ==> #[trigger] fnmap@[j] as int == first_named(
                f.ext_funcs,
                g.ext_funcs@[j].name,
            ),
        block_ids_distinct(g@),
        f.next_block + g@.blocks.len() <= u32::MAX,
        f.global_values.len() + g.global_values@.len() <= u32::MAX,
    ensures
        state_of(final(vm)@, *final(next_value), *final(next_inst)) == state_at(
            f,
            g@,
            start,
            g@.blocks.len() as nat,
            0,
        ),
        r.0@.map_values(|x: Inst| x@) == copied_block(f, g@, start, 0),
        r.1@.map_values(|b: Block| b@) == later_blocks(f, g@, start),
{
    let ghost gm = g@;
    let mut head: Vec<Inst> = Vec::new();
    let mut middle: Vec<Block> = Vec::new();
    let mut k: usize = 0;
    while k < g.blocks.len()
        invariant
            k <= gm.blocks.len(),
            state_of(vm@, *next_value, *next_inst) == state_at(f, gm, start, k as nat, 0),
            k >= 1 ==> head@.map_values(|x: Inst| x@) == copied_block(f, gm, start, 0),
            middle@.len() == (if k == 0 { 0 } else { k - 1 }),
            forall|j: int| 0 <= j < middle@.len() ==> #[trigger] middle@[j]@ == later_blocks(f, gm, start)[j],
        decreases g.blocks.len() - k,
    {
        let insts = &g.blocks[k].insts;
        assert(gm.blocks[k as int].insts == insts@.map_values(|x: Inst| x@));
        let mut out: Vec<Inst> = Vec::new();
        let mut i: usize = 0;
        while i < insts.len()
            invariant
                k < gm.blocks.len(),
                insts == &g.blocks@[k as int].insts,
                gm.blocks[k as int].insts == insts@.map_values(|x: Inst| x@),
                i <= insts@.len(),
                state_of(vm@, *next_value, *next_inst) == state_at(f, gm, start, k as nat, i as nat),
                out@.len() == i,
                forall|j: int| 0 <= j < i ==> #[trigger] out@[j]@ == copied_block(f, gm, start, k as int)[j],
            decreases insts.len() - i,
        {
            proof {
                lemma_state_between(f, gm, start, k as nat, (i + 1) as nat);
                let ki = k as int;
                let ii = i as int;
                assert(copyable(f, gm, state_at(f, gm, start, ki as nat, ii as nat), gm.blocks[ki].insts[ii]));
                assert(gm.blocks[k as int].insts[i as int] == insts@[i as int]@);
            }
            let c = copy_callee_inst(&insts[i], vm, next_value, next_inst, cont, gv_base, fnmap, g, caller, Ghost(f));
            out.push(c);
            i = i + 1;
        }
        assert(out@.map_values(|x: Inst| x@) =~= copied_block(f, gm, start, k as int));
        assert(state_at(f, gm, start, (k + 1) as nat, 0) == state_at(f, gm, start, k as nat, insts@.len() as nat));
        if k == 0 {
            head = out;
        } else {
            let b = Block { id: cont + k as u32, params: Vec::new(), insts: out };
            assert(b@.params =~= Seq::<u32>::empty());
            assert(b@ == later_blocks(f, gm, start)[k - 1]);
            middle.push(b);
        }
        k = k + 1;
    }
    assert(middle@.map_values(|b: Block| b@) =~= later_blocks(f, gm, start));
    (head, middle)
}

/// Copies `inst` with each operand equal to `old` replaced by `new`.
fn copy_replacing(inst: &Inst, old: u32, new: u32) -> (r: Inst)
    ensures
        r@ == replace_value(inst@, old, new),
{
    let mut args: Vec<u32> = Vec::new();
    let mut j: usize = 0;
    while j < inst.args.len()
        invariant
            j <= inst.args@.len(),
            args@.len() == j,
            forall|j2: int| 0 <= j2 < j ==> #[trigger] args@[j2] == replace_value(inst@, old, new).args[j2],
        decreases inst.args.len() - j,
    {
        let a = inst.args[j];
        args.push(if a == old { new } else { a });
        j = j + 1;
    }
    assert(args@ =~= replace_value(inst@, old, new).args);
    Inst {
        id: inst.id,
        data: inst.data,
        kind: inst.kind,
        args,
        num_fixed: inst.num_fixed,
        uses_list: inst.uses_list,
        results: copy_values(&inst.results),
    }
}

/// Replaces the call numbered `callsite` in `calleefunc` by the body of `func`.
///
/// The contract states the whole resulting function: see [`inline_result`].
#[verifier::loop_isolation(false)]
pub fn inlinefn_into(calleefunc: &mut Func, callsite: u32, func: &Func)
    requires
        can_inline(old(calleefunc)@, callsite, func@),
    ensures
        final(calleefunc)@ == inline_result(old(calleefunc)@, callsite, func@),
{
    let ghost f = calleefunc@;
    let ghost g = func@;
    let (sb, si) = find_sole_position(calleefunc, callsite).unwrap();
    proof {
        lemma_position_of(f, callsite, sb as int, si as int);
    }
    let ghost blk_m = f.blocks[sb as int];
    let ghost call_m = blk_m.insts[si as int];
    let ghost start = copy_start(f, call_m, g);
    let ghost end = state_at(f, g, start, g.blocks.len() as nat, 0);
    assert(f.blocks[sb as int] == calleefunc.blocks@[sb as int]@);
    assert(blk_m.insts == calleefunc.blocks@[sb as int].insts@.map_values(|x: Inst| x@));
    assert(call_m == calleefunc.blocks@[sb as int].insts@[si as int]@);
    assert(g.blocks[0] == func.blocks@[0]@);
    proof {
        let (pb, pi) = position_of(f, callsite);
        assert(pb == sb as int && pi == si as int);
        lemma_state_between(f, g, start, 0, 0);
        assert(end.next_value <= u32::MAX);
        assert(si + 1 < blk_m.insts.len());
    }
    let cont = calleefunc.next_block;
    let ret_val = calleefunc.next_value;
    let r0 = calleefunc.blocks[sb].insts[si].results[0];
    // The entry parameters take the call's arguments.
    let mut vm = bind_entry_params(&func.blocks[0].params, &calleefunc.blocks[sb].insts[si]);
    // Each external function of the callee goes to the caller's one of the same name.
    let mut fnmap: Vec<u32> = Vec::new();
    let mut j: usize = 0;
    while j < func.ext_funcs.len()
        invariant
            calleefunc@ == f,
            j <= func.ext_funcs@.len(),
            fnmap@.len() == j,
            forall|j2: int|
                0 <= j2 < j ==> #[trigger] fnmap@[j2] as int == first_named(
                    f.ext_funcs,
                    func.ext_funcs@[j2].name,
                ),
        decreases func.ext_funcs.len() - j,
    {
        assert(has_named(f.ext_funcs, g.ext_funcs[j as int].name));
        let fr = get_funcref_for_extfunc_name(calleefunc, &func.ext_funcs[j].name);
        fnmap.push(fr.unwrap());
        j = j + 1;
    }
    let gv_base = calleefunc.global_values.len();
    let mut next_value: u32 = ret_val + 1;
    let mut next_inst: u32 = calleefunc.next_inst;
    proof {
        lemma_state_between(f, g, start, 0, 0);
    }
    let (head_copy, middle) = copy_callee_body(
        func,
        &mut vm,
        &mut next_value,
        &mut next_inst,
        cont,
        gv_base,
        &fnmap,
        calleefunc,
        Ghost(f),
        Ghost(start),
    );
    // The block of the call keeps what precedes the call, then the callee's entry block.
    let blk = &calleefunc.blocks[sb];
    let mut head_insts = copy_insts(&blk.insts, 0, si);
    let mut hc = head_copy;
    let ghost pre = head_insts@;
    let ghost hc0 = hc@;
    head_insts.append(&mut hc);
    assert(head_insts@.map_values(|x: Inst| x@) =~= blk_m.insts.take(si as int) + copied_block(f, g, start, 0)) by {
        assert(head_insts@ == pre + hc0);
        assert(pre.map_values(|x: Inst| x@) == blk_m.insts.subrange(0, si as int));
        assert(hc0.map_values(|x: Inst| x@) == copied_block(f, g, start, 0));
    }
    let head = Block { id: blk.id, params: copy_values(&blk.params), insts: head_insts };
    // The instructions after the call move to the continuation block.
    let mut cont_insts: Vec<Inst> = Vec::new();
    let _n_insts = blk.insts.len();
    assert(blk_m.insts.len() == blk.insts@.len());
    let mut i: usize = si + 1;
    while i < blk.insts.len()
        invariant
            si + 1 <= i <= blk.insts@.len(),
            blk_m.insts == blk.insts@.map_values(|x: Inst| x@),
            cont_insts@.len() == i - (si + 1),
            forall|j2: int|
                0 <= j2 < cont_insts@.len() ==> #[trigger] cont_insts@[j2]@ == replace_value(
                    blk_m.insts[si + 1 + j2],
                    r0,
                    ret_val,
                ),
        decreases blk.insts.len() - i,
    {
        cont_insts.push(copy_replacing(&blk.insts[i], r0, ret_val));
        i = i + 1;
    }
    let mut cont_params: Vec<u32> = Vec::new();
    cont_params.push(ret_val);
    let cont_block = Block { id: cont, params: cont_params, insts: cont_insts };
    let ghost cont_m = BlockModel {
        id: f.next_block,
        params: seq![f.next_value],
        insts: blk_m.insts.skip(si + 1).map_values(
            |x: InstModel| replace_value(x, call_m.results[0], f.next_value),
        ),
    };
    assert(cont_block@.params =~= cont_m.params);
    assert(cont_block@.insts =~= cont_m.insts);
    // Assemble the blocks.
    let mut blocks = copy_blocks(&calleefunc.blocks, 0, sb);
    let ghost b0 = blocks@;
    blocks.push(head);
    let mut mid = middle;
    let ghost mid0 = mid@;
    blocks.append(&mut mid);
    blocks.push(cont_block);
    let n_blocks = calleefunc.blocks.len();
    let mut rest = copy_blocks(&calleefunc.blocks, sb + 1, n_blocks);
    let ghost rest0 = rest@;
    let ghost b1 = blocks@;
    blocks.append(&mut rest);
    let ghost head_m = BlockModel {
        id: blk_m.id,
        params: blk_m.params,
        insts: blk_m.insts.take(si as int) + copied_block(f, g, start, 0),
    };
    assert(blocks@ == b0 + seq![head] + mid0 + seq![cont_block] + rest0);
    assert(blocks@.map_values(|b: Block| b@) =~= f.blocks.take(sb as int) + seq![head_m] + later_blocks(f, g, start)
        + seq![cont_m] + f.blocks.skip(sb + 1)) by {
        assert(b0.map_values(|b: Block| b@) == f.blocks.subrange(0, sb as int));
        assert(mid0.map_values(|b: Block| b@) == later_blocks(f, g, start));
        assert(rest0.map_values(|b: Block| b@) == f.blocks.subrange(sb + 1, f.blocks.len() as int));
        assert(head@ == head_m);
        assert(cont_block@ == cont_m);
    }
    // The callee's global values are appended.
    let mut k: usize = 0;
    while k < func.global_values.len()
        invariant
            k <= func.global_values@.len(),
            calleefunc.global_values@ == f.global_values + func.global_values@.take(k as int),
            calleefunc.blocks@ == old(calleefunc).blocks@,
            calleefunc.name == f.name,
            calleefunc.ext_funcs@ == f.ext_funcs,
            calleefunc.signatures@ == f.signatures,
            calleefunc.returns == f.returns,
        decreases func.global_values.len() - k,
    {
        calleefunc.global_values.push(func.global_values[k]);
        k = k + 1;
        assert(calleefunc.global_values@ =~= f.global_values + func.global_values@.take(k as int));
    }
    assert(func.global_values@.take(func.global_values@.len() as int) =~= func.global_values@);
    calleefunc.blocks = blocks;
    calleefunc.next_value = next_value;
    calleefunc.next_block = cont + func.blocks.len() as u32;
    calleefunc.next_inst = next_inst;
    proof {
        let res = inline_result(f, callsite, g);
        let (pb, pi) = position_of(f, callsite);
        assert(pb == sb as int && pi == si as int);
        assert(res.blocks == f.blocks.take(sb as int) + seq![head_m] + later_blocks(f, g, start) + seq![cont_m]
            + f.blocks.skip(sb + 1));
        assert(calleefunc@.blocks == res.blocks);
        assert(calleefunc@.global_values == res.global_values);
        assert(calleefunc@.next_value == res.next_value);
        assert(calleefunc@.next_inst == res.next_inst);
        assert(calleefunc@.next_block == res.next_block);
        assert(calleefunc@.name == res.name);
        assert(calleefunc@.ext_funcs == res.ext_funcs);
        assert(calleefunc@.signatures == res.signatures);
    }
}

/// The direct calls among `insts`, in order: each call's number and the name of its callee.
pub open spec fn calls_in(insts: Seq<InstModel>, exts: Seq<ExtFunc>) -> Seq<(u32, ExtName)>
    decreases insts.len(),
{
    if insts.len() == 0 {
        Seq::empty()
    } else {
        let rest = calls_in(insts.drop_last(), exts);
        match insts.last().kind {
            InstKind::Call { func_ref } => rest.push((insts.last().id, exts[func_ref as int].name)),
            _ => rest,
        }
    }
}

/// The direct calls in `blocks`, in layout order.
pub open spec fn calls_in_blocks(blocks: Seq<BlockModel>, exts: Seq<ExtFunc>) -> Seq<(u32, ExtName)>
    decreases blocks.len(),
{
    if blocks.len() == 0 {
        Seq::empty()
    } else {
        calls_in_blocks(blocks.drop_last(), exts) + calls_in(blocks.last().insts, exts)
    }
}

/// The direct calls in `f`, in layout order, with the names of their callees.
pub open spec fn callsites_of(f: FuncModel) -> Seq<(u32, ExtName)> {
    calls_in_blocks(f.blocks, f.ext_funcs)
}

/// Whether every direct call of `f` refers to an entry of its external function table.
pub open spec fn call_refs_valid(f: FuncModel) -> bool {
    forall|b: int, i: int|
        is_position(f, b, i) ==> ((#[trigger] f.blocks[b].insts[i]).kind matches InstKind::Call { func_ref }
            ==> func_ref < f.ext_funcs.len())
}

/// The number of direct calls among `insts`.
pub open spec fn count_calls_in(insts: Seq<InstModel>) -> nat
    decreases insts.len(),
{
    if insts.len() == 0 {
        0
    } else {
        count_calls_in(insts.drop_last()) + if insts.last().kind is Call {
            1nat
        } else {
            0nat
        }
    }
}

/// The number of direct calls in `blocks`.
pub open spec fn count_calls(blocks: Seq<BlockModel>) -> nat
    decreases blocks.len(),
{
    if blocks.len() == 0 {
        0
    } else {
        count_calls(blocks.drop_last()) + count_calls_in(blocks.last().insts)
    }
}

/// The entry that the direct call `inst` gives in a list of call sites.
pub open spec fn call_entry(inst: InstModel, exts: Seq<ExtFunc>) -> (u32, ExtName) {
    (inst.id, exts[inst.kind->func_ref as int].name)
}

proof fn lemma_calls_in(insts: Seq<InstModel>, exts: Seq<ExtFunc>)
    ensures
        calls_in(insts, exts).len() == count_calls_in(insts),
        forall|i: int|
            0 <= i < insts.len() && (#[trigger] insts[i]).kind is Call ==> calls_in(insts, exts).contains(
                call_entry(insts[i], exts),
            ),
    decreases insts.len(),
{
    if insts.len() > 0 {
        let p = insts.drop_last();
        lemma_calls_in(p, exts);
        let rest = calls_in(p, exts);
        let cs = calls_in(insts, exts);
        let last = insts.last();
        assert(last == insts[insts.len() - 1]);
        assert forall|i: int| 0 <= i < insts.len() && (#[trigger] insts[i]).kind is Call implies cs.contains(
            call_entry(insts[i], exts),
        ) by {
            if i < insts.len() - 1 {
                assert(p[i] == insts[i]);
                let w = choose|w: int| 0 <= w < rest.len() && rest[w] == call_entry(p[i], exts);
                assert(cs[w] == rest[w]);
            } else {
                assert(cs[rest.len() as int] == call_entry(last, exts));
            }
        }
    }
}

/// The instruction of `insts` that gives the `j`-th entry of `calls_in(insts, exts)`.
proof fn lemma_calls_in_entry(insts: Seq<InstModel>, exts: Seq<ExtFunc>, j: int) -> (i: int)
    requires
        0 <= j < calls_in(insts, exts).len(),
    ensures
        0 <= i < insts.len(),
        insts[i].kind is Call,
        calls_in(insts, exts)[j] == call_entry(insts[i], exts),
    decreases insts.len(),
{
    let p = insts.drop_last();
    let rest = calls_in(p, exts);
    let cs = calls_in(insts, exts);
    if j < rest.len() {
        assert(cs[j] == rest[j]);
        let i = lemma_calls_in_entry(p, exts, j);
        assert(insts[i] == p[i]);
        i
    } else {
        assert(cs[j] == call_entry(insts.last(), exts));
        (insts.len() - 1) as int
    }
}

proof fn lemma_calls_in_blocks(blocks: Seq<BlockModel>, exts: Seq<ExtFunc>)
    ensures
        calls_in_blocks(blocks, exts).len() == count_calls(blocks),
        forall|b: int, i: int|
            0 <= b < blocks.len() && 0 <= i < blocks[b].insts.len() && (#[trigger] blocks[b].insts[i]).kind is Call
                ==> calls_in_blocks(blocks, exts).contains(call_entry(blocks[b].insts[i], exts)),
    decreases blocks.len(),
{
    if blocks.len() > 0 {
        let p = blocks.drop_last();
        lemma_calls_in_blocks(p, exts);
        let lb = blocks.last();
        assert(lb == blocks[blocks.len() - 1]);
        lemma_calls_in(lb.insts, exts);
        let rest = calls_in_blocks(p, exts);
        let here = calls_in(lb.insts, exts);
        let cs = calls_in_blocks(blocks, exts);
        assert(cs == rest + here);
        assert forall|b: int, i: int|
            0 <= b < blocks.len() && 0 <= i < blocks[b].insts.len() && (#[trigger] blocks[b].insts[i]).kind is Call
            implies cs.contains(call_entry(blocks[b].insts[i], exts)) by {
            if b < blocks.len() - 1 {
                assert(p[b] == blocks[b]);
                assert(p[b].insts[i] == blocks[b].insts[i]);
                let w = choose|w: int| 0 <= w < rest.len() && rest[w] == call_entry(p[b].insts[i], exts);
                assert(cs[w] == rest[w]);
            } else {
                assert(lb.insts[i] == blocks[b].insts[i]);
                let w = choose|w: int| 0 <= w < here.len() && here[w] == call_entry(lb.insts[i], exts);
                assert(cs[rest.len() + w] == here[w]);
            }
        }
    }
}

/// The position of the instruction that gives the `j`-th entry of `calls_in_blocks(blocks, exts)`.
proof fn lemma_calls_in_blocks_entry(blocks: Seq<BlockModel>, exts: Seq<ExtFunc>, j: int) -> (r: (int, int))
    requires
        0 <= j < calls_in_blocks(blocks, exts).len(),
    ensures
        0 <= r.0 < blocks.len(),
        0 <= r.1 < blocks[r.0].insts.len(),
        blocks[r.0].insts[r.1].kind is Call,
        calls_in_blocks(blocks, exts)[j] == call_entry(blocks[r.0].insts[r.1], exts),
    decreases blocks.len(),
{
    let p = blocks.drop_last();
    let lb = blocks.last();
    let rest = calls_in_blocks(p, exts);
    let here = calls_in(lb.insts, exts);
    let cs = calls_in_blocks(blocks, exts);
    assert(cs == rest + here);
    if j < rest.len() {
        assert(cs[j] == rest[j]);
        let (b, i) = lemma_calls_in_blocks_entry(p, exts, j);
        assert(blocks[b] == p[b]);
        (b, i)
    } else {
        assert(cs[j] == here[j - rest.len()]);
        let i = lemma_calls_in_entry(lb.insts, exts, j - rest.len());
        ((blocks.len() - 1) as int, i)
    }
}

/// Whether the instruction at `(b, i)` of `f` is a direct call whose number and callee name
/// are `e`.
pub open spec fn is_call_with_entry(f: FuncModel, b: int, i: int, e: (u32, ExtName)) -> bool {
    &&& is_position(f, b, i)
    &&& f.blocks[b].insts[i].kind is Call
    &&& e.0 == f.blocks[b].insts[i].id
    &&& e.1 == f.ext_funcs[f.blocks[b].insts[i].kind->func_ref as int].name
}

/// Whether some direct call of `f` has the number and callee name `e`.
pub open spec fn has_call_with_entry(f: FuncModel, e: (u32, ExtName)) -> bool {
    exists|b: int, i: int| #[trigger] is_call_with_entry(f, b, i, e)
}

/// The call sites of `f` are exactly its direct calls, each once: every direct call of `f`
/// is listed with its number and the name of its external function, every entry is such a
/// call, and there are as many entries as direct calls.
pub proof fn law_callsites_are_the_calls(f: FuncModel)
    ensures
        callsites_of(f).len() == count_calls(f.blocks),
        forall|b: int, i: int|
            is_position(f, b, i) && (#[trigger] f.blocks[b].insts[i]).kind is Call ==> callsites_of(f).contains(
                (f.blocks[b].insts[i].id, f.ext_funcs[f.blocks[b].insts[i].kind->func_ref as int].name),
            ),
        forall|j: int|
            0 <= j < callsites_of(f).len() ==> has_call_with_entry(f, #[trigger] callsites_of(f)[j]),
{
    lemma_calls_in_blocks(f.blocks, f.ext_funcs);
    assert forall|j: int| 0 <= j < callsites_of(f).len() implies has_call_with_entry(
        f,
        #[trigger] callsites_of(f)[j],
    ) by {
        let (b, i) = lemma_calls_in_blocks_entry(f.blocks, f.ext_funcs, j);
        assert(is_call_with_entry(f, b, i, callsites_of(f)[j]));
    }
}

/// Lists the direct calls of `func` in layout order, with the names of their callees.
pub fn find_callsites(func: &Func) -> (r: Vec<(u32, ExtName)>)
    requires
        call_refs_valid(func@),
    ensures
        r@ == callsites_of(func@),
        r@.len() == count_calls(func@.blocks),
        forall|b: int, i: int|
            is_position(func@, b, i) && (#[trigger] func@.blocks[b].insts[i]).kind is Call ==> r@.contains(
                (func@.blocks[b].insts[i].id, func@.ext_funcs[func@.blocks[b].insts[i].kind->func_ref as int].name),
            ),
{
    let ghost f = func@;
    let mut callsites: Vec<(u32, ExtName)> = Vec::new();
    let mut b: usize = 0;
    while b < func.blocks.len()
        invariant
            b <= f.blocks.len(),
            f == func@,
            call_refs_valid(f),
            callsites@ == calls_in_blocks(f.blocks.take(b as int), f.ext_funcs),
        decreases func.blocks.len() - b,
    {
        let insts = &func.blocks[b].insts;
        assert(f.blocks[b as int].insts == insts@.map_values(|x: Inst| x@));
        let ghost before = callsites@;
        let mut i: usize = 0;
        while i < insts.len()
            invariant
                b < f.blocks.len(),
                f == func@,
                call_refs_valid(f),
                f.blocks[b as int].insts == insts@.map_values(|x: Inst| x@),
                i <= insts@.len(),
                callsites@ == before + calls_in(f.blocks[b as int].insts.take(i as int), f.ext_funcs),
            decreases insts.len() - i,
        {
            let ghost ins = f.blocks[b as int].insts;
            assert(ins.take(i + 1).drop_last() =~= ins.take(i as int));
            assert(ins[i as int] == insts@[i as int]@);
            if let InstKind::Call { func_ref } = insts[i].kind {
                assert(is_position(f, b as int, i as int));
                assert(func_ref < f.ext_funcs.len());
                callsites.push((insts[i].id, func.ext_funcs[func_ref as usize].name));
            }
            i = i + 1;
        }
        assert(f.blocks[b as int].insts.take(insts@.len() as int) =~= f.blocks[b as int].insts);
        assert(f.blocks.take(b + 1).drop_last() =~= f.blocks.take(b as int));
        b = b + 1;
    }
    assert(f.blocks.take(f.blocks.len() as int) =~= f.blocks);
    proof {
        law_callsites_are_the_calls(f);
    }
    callsites
}

/// The callee's entry parameters bound to the call's arguments.
fn bind_entry_params(params: &Vec<u32>, call: &Inst) -> (vm: HashMap<u32, u32>)
    requires
        call.num_fixed + params@.len() <= call.args@.len(),
    ensures
        vm@ == bind_params(params@, call_arguments(call@)),
{
    let mut vm = HashMap::new();
    let _n_args = call.args.len();
    let mut p: usize = 0;
    while p < params.len()
        invariant
            call.num_fixed + params@.len() <= call.args@.len(),
            _n_args == call.args@.len(),
            p <= params@.len(),
            vm@ == bind_params(params@.take(p as int), call_arguments(call@)),
        decreases params.len() - p,
    {
        let ghost before = params@.take(p as int);
        vm.insert(params[p], call.args[call.num_fixed + p]);
        p = p + 1;
        assert(params@.take(p as int).drop_last() =~= before);
    }
    assert(params@.take(params@.len() as int) =~= params@);
    vm
}

pub(crate) proof fn lemma_position_of(f: FuncModel, id: u32, b: int, i: int)
    requires
        sole_position(f, id, b, i),
    ensures
        placed_once(f, id),
        position_of(f, id) == (b, i),
{
    let p = position_of(f, id);
    assert(sole_position(f, id, p.0, p.1));
    assert(f.blocks[b].insts[i].id == id);
}

/// The position of the instruction numbered `id`, where it stands exactly once in `f`.
fn find_sole_position(f: &Func, id: u32) -> (r: Option<(usize, usize)>)
    ensures
        match r {
            Some((b, i)) => sole_position(f@, id, b as int, i as int),
            None => !placed_once(f@, id),
        },
{
    let ghost fm = f@;
    let mut found: Option<(usize, usize)> = None;
    let mut b: usize = 0;
    while b < f.blocks.len()
        invariant
            fm == f@,
            b <= fm.blocks.len(),
            match found {
                Some((fb, fi)) => {
                    &&& is_position(fm, fb as int, fi as int) && fb < b
                    &&& fm.blocks[fb as int].insts[fi as int].id == id
                    &&& forall|b2: int, i2: int|
                        0 <= b2 < b && is_position(fm, b2, i2) && #[trigger] fm.blocks[b2].insts[i2].id
                            == id ==> b2 == fb && i2 == fi
                },
                None => forall|b2: int, i2: int|
                    0 <= b2 < b && is_position(fm, b2, i2) ==> #[trigger] fm.blocks[b2].insts[i2].id
                        != id,
            },
        decreases f.blocks.len() - b,
    {
        let insts = &f.blocks[b].insts;
        assert(fm.blocks[b as int].insts == insts@.map_values(|x: Inst| x@));
        let mut i: usize = 0;
        while i < insts.len()
            invariant
                fm == f@,
                b < fm.blocks.len(),
                insts == &f.blocks@[b as int].insts,
                fm.blocks[b as int].insts == insts@.map_values(|x: Inst| x@),
                i <= insts@.len(),
                match found {
                    Some((fb, fi)) => {
                        &&& is_position(fm, fb as int, fi as int) && (fb < b || (fb == b && fi < i))
                        &&& fm.blocks[fb as int].insts[fi as int].id == id
                        &&& forall|b2: int, i2: int|
                            ((0 <= b2 < b) || (b2 == b && 0 <= i2 < i)) && is_position(fm, b2, i2)
                                && #[trigger] fm.blocks[b2].insts[i2].id == id ==> b2 == fb && i2 == fi
                    },
                    None => forall|b2: int, i2: int|
                        ((0 <= b2 < b) || (b2 == b && 0 <= i2 < i)) && is_position(fm, b2, i2)
                            ==> #[trigger] fm.blocks[b2].insts[i2].id != id,
                },
            decreases insts.len() - i,
        {
            assert(fm.blocks[b as int].insts[i as int] == insts@[i as int]@);
            if insts[i].id == id {
                match found {
                    Some((fb, fi)) => {
                        proof {
                            assert(is_position(fm, b as int, i as int));
                            if placed_once(fm, id) {
                                let p = position_of(fm, id);
                                assert(sole_position(fm, id, p.0, p.1));
                                assert(fm.blocks[fb as int].insts[fi as int].id == id);
                                assert(fm.blocks[b as int].insts[i as int].id == id);
                            }
                        }
                        return None;
                    },
                    None => {
                        found = Some((b, i));
                    },
                }
            }
            i = i + 1;
        }
        b = b + 1;
    }
    match found {
        Some((fb, fi)) => {
            assert(sole_position(fm, id, fb as int, fi as int));
            Some((fb, fi))
        },
        None => {
            proof {
                if placed_once(fm, id) {
                    let p = position_of(fm, id);
                    assert(sole_position(fm, id, p.0, p.1));
                    assert(fm.blocks[p.0].insts[p.1].id == id);
                }
            }
            None
        },
    }
}

/// Whether no two blocks of `f` have the same number.
fn block_ids_are_distinct(f: &Func) -> (r: bool)
    ensures
        r == block_ids_distinct(f@),
{
    let ghost fm = f@;
    let mut k1: usize = 0;
    while k1 < f.blocks.len()
        invariant
            fm == f@,
            k1 <= fm.blocks.len(),
            forall|a: int, c: int|
                0 <= a < k1 && 0 <= c < fm.blocks.len() && a != c ==> #[trigger] fm.blocks[a].id
                    != #[trigger] fm.blocks[c].id,
        decreases f.blocks.len() - k1,
    {
        let mut k2: usize = 0;
        while k2 < f.blocks.len()
            invariant
                fm == f@,
                k1 < fm.blocks.len(),
                k2 <= fm.blocks.len(),
                forall|a: int, c: int|
                    0 <= a < k1 && 0 <= c < fm.blocks.len() && a != c ==> #[trigger] fm.blocks[a].id
                        != #[trigger] fm.blocks[c].id,
                forall|c: int| 0 <= c < k2 && c != k1 ==> fm.blocks[k1 as int].id != #[trigger] fm.blocks[c].id,
            decreases f.blocks.len() - k2,
        {
            assert(fm.blocks[k1 as int].id == f.blocks@[k1 as int].id);
            assert(fm.blocks[k2 as int].id == f.blocks@[k2 as int].id);
            if k1 != k2 && f.blocks[k1].id == f.blocks[k2].id {
                return false;
            }
            k2 = k2 + 1;
        }
        k1 = k1 + 1;
    }
    true
}

/// Whether some callee block after the entry block is numbered `id`.
fn has_later_block_exec(g: &Func, id: u32) -> (r: bool)
    ensures
        r == has_later_block(g@, id),
{
    let mut k: usize = 1;
    while k < g.blocks.len()
        invariant
            1 <= k,
            forall|k2: int| 1 <= k2 < k && k2 < g@.blocks.len() ==> #[trigger] g@.blocks[k2].id != id,
        decreases g.blocks.len() - k,
    {
        assert(g@.blocks[k as int].id == g.blocks@[k as int].id);
        if g.blocks[k].id == id {
            return true;
        }
        k = k + 1;
    }
    false
}

/// Checks whether callee instruction `inst` can be copied into `caller` in the state
/// `(vm, nv, ni)`, and where it can, advances the state past it.
#[verifier::loop_isolation(false)]
fn check_and_step(
    inst: &Inst,
    vm: &mut HashMap<u32, u32>,
    nv: &mut u64,
    ni: &mut u64,
    g: &Func,
    caller: &Func,
    Ghost(end): Ghost<CopyState>,
) -> (r: bool)
    requires
        *old(nv) <= u32::MAX,
        *old(ni) <= u32::MAX,
        caller.ext_funcs@.len() <= u32::MAX,
        end.next_value >= step(caller@, g@, state_wide(old(vm)@, *old(nv), *old(ni)), inst@).next_value,
        end.next_inst >= step(caller@, g@, state_wide(old(vm)@, *old(nv), *old(ni)), inst@).next_inst,
    ensures
        r ==> copyable(caller@, g@, state_wide(old(vm)@, *old(nv), *old(ni)), inst@),
        r ==> *final(nv) <= u32::MAX && *final(ni) <= u32::MAX,
        r ==> state_wide(final(vm)@, *final(nv), *final(ni)) == step(
            caller@,
            g@,
            state_wide(old(vm)@, *old(nv), *old(ni)),
            inst@,
        ),
        !r ==> !copyable(caller@, g@, state_wide(old(vm)@, *old(nv), *old(ni)), inst@)
            || end.next_value > u32::MAX || end.next_inst > u32::MAX,
{
    let ghost f = caller@;
    let ghost s0 = CopyState { vmap: vm@, next_value: *nv as int, next_inst: *ni as int };
    assert(step(f, g@, s0, inst@).next_inst == s0.next_inst + 1);
    if *ni >= 0xffff_ffffu64 {
        return false;
    }
    if let InstKind::Return = inst.kind {
        if inst.args.len() == 0 {
            return false;
        }
        if lookup(vm, inst.args[0]).is_none() {
            return false;
        }
        *ni = *ni + 1;
        return true;
    }
    if inst.uses_list {
        let mut j: usize = 0;
        while j < inst.args.len()
            invariant
                vm@ == s0.vmap,
                j <= inst.args@.len(),
                forall|j2: int| 0 <= j2 < j ==> s0.vmap.contains_key(#[trigger] inst.args@[j2]),
            decreases inst.args.len() - j,
        {
            if lookup(vm, inst.args[j]).is_none() {
                assert(!s0.vmap.contains_key(inst@.args[j as int]));
                return false;
            }
            j = j + 1;
        }
    }
    match inst.kind {
        InstKind::GlobalValue { global_value } => {
            if global_value as usize >= g.global_values.len() {
                return false;
            }
        },
        InstKind::Jump { dest } => {
            if !has_later_block_exec(g, dest) {
                return false;
            }
        },
        InstKind::Branch { dest } => {
            if !has_later_block_exec(g, dest) {
                return false;
            }
        },
        _ => {},
    }
    // The number of results of the copy: a call's comes from its signature in the caller.
    let count: usize = match inst.kind {
        InstKind::Call { func_ref } => {
            if func_ref as usize >= g.ext_funcs.len() {
                return false;
            }
            match get_funcref_for_extfunc_name(caller, &g.ext_funcs[func_ref as usize].name) {
                Some(fr) => {
                    proof {
                        lemma_has_first_named(f.ext_funcs, g@.ext_funcs[func_ref as int].name);
                    }
                    let sig = caller.ext_funcs[fr as usize].signature;
                    if sig as usize >= caller.signatures.len() {
                        return false;
                    }
                    caller.signatures[sig as usize]
                },
                None => {
                    return false;
                },
            }
        },
        InstKind::CallIndirect { sig_ref } => {
            if sig_ref as usize >= caller.signatures.len() {
                return false;
            }
            caller.signatures[sig_ref as usize]
        },
        _ => inst.results.len(),
    };
    assert(count == copied_result_count(f, g@, inst@));
    let n = inst.results.len();
    if n > count {
        return false;
    }
    assert(step(f, g@, s0, inst@).next_value == s0.next_value + count);
    if count as u64 > 0xffff_ffffu64 - *nv {
        return false;
    }
    let mut r: usize = 0;
    let mut v: u64 = *nv;
    while r < n
        invariant
            n == inst.results@.len(),
            r <= n,
            v == *nv + r,
            s0.next_value == *nv as int,
            *nv + n <= u32::MAX,
            vm@ == bind_results(s0.vmap, inst@.results.take(r as int), s0.next_value),
            forall|j: int|
                0 <= j < r ==> !#[trigger] bind_results(
                    s0.vmap,
                    inst@.results.take(j),
                    s0.next_value,
                ).contains_key(inst@.results[j]),
        decreases n - r,
    {
        if lookup(vm, inst.results[r]).is_some() {
            return false;
        }
        let ghost before = inst@.results.take(r as int);
        vm.insert(inst.results[r], v as u32);
        v = v + 1;
        r = r + 1;
        assert(inst@.results.take(r as int).drop_last() =~= before);
    }
    assert(inst@.results.take(n as int) =~= inst@.results);
    *nv = *nv + count as u64;
    *ni = *ni + 1;
    true
}

/// Whether every callee instruction can be copied along the copy that starts in `start`,
/// and the counters stay within 32 bits.
fn callee_copyable(
    g: &Func,
    caller: &Func,
    vm: HashMap<u32, u32>,
    nv0: u64,
    ni0: u64,
    Ghost(start): Ghost<CopyState>,
) -> (r: bool)
    requires
        caller.ext_funcs@.len() <= u32::MAX,
        start == state_wide(vm@, nv0, ni0),
        g@.blocks.len() >= 1,
        nv0 <= u32::MAX,
        ni0 <= u32::MAX,
    ensures
        r == (all_copyable(caller@, g@, start) && state_at(caller@, g@, start, g@.blocks.len() as nat, 0).next_value
            <= u32::MAX && state_at(caller@, g@, start, g@.blocks.len() as nat, 0).next_inst <= u32::MAX),
{
    let ghost f = caller@;
    let ghost gm = g@;
    let ghost end = state_at(f, gm, start, gm.blocks.len() as nat, 0);
    let mut vm = vm;
    let mut nv = nv0;
    let mut ni = ni0;
    let mut k: usize = 0;
    while k < g.blocks.len()
        invariant
            gm == g@,
            f == caller@,
            caller.ext_funcs@.len() <= u32::MAX,
            k <= gm.blocks.len(),
            gm.blocks.len() >= 1,
            end == state_at(f, gm, start, gm.blocks.len() as nat, 0),
            nv <= u32::MAX,
            ni <= u32::MAX,
            state_wide(vm@, nv, ni) == state_at(f, gm, start, k as nat, 0),
            forall|k2: int, i2: int|
                0 <= k2 < k && 0 <= i2 < gm.blocks[k2].insts.len() ==> #[trigger] copyable(
                    f, gm,
                    state_at(f, gm, start, k2 as nat, i2 as nat),
                    gm.blocks[k2].insts[i2],
                ),
        decreases g.blocks.len() - k,
    {
        let insts = &g.blocks[k].insts;
        assert(gm.blocks[k as int].insts == insts@.map_values(|x: Inst| x@));
        let mut i: usize = 0;
        while i < insts.len()
            invariant
                gm == g@,
                f == caller@,
                caller.ext_funcs@.len() <= u32::MAX,
                k < gm.blocks.len(),
                insts == &g.blocks@[k as int].insts,
                gm.blocks[k as int].insts == insts@.map_values(|x: Inst| x@),
                i <= insts@.len(),
                end == state_at(f, gm, start, gm.blocks.len() as nat, 0),
                nv <= u32::MAX,
                ni <= u32::MAX,
                state_wide(vm@, nv, ni) == state_at(f, gm, start, k as nat, i as nat),
                forall|k2: int, i2: int|
                    ((0 <= k2 < k && 0 <= i2 < gm.blocks[k2].insts.len()) || (k2 == k && 0 <= i2 < i)) ==> #[trigger] copyable(
                        f, gm,
                        state_at(f, gm, start, k2 as nat, i2 as nat),
                        gm.blocks[k2].insts[i2],
                    ),
            decreases insts.len() - i,
        {
            proof {
                lemma_state_before_end(f, gm, start, k as nat, (i + 1) as nat);
                assert(gm.blocks[k as int].insts[i as int] == insts@[i as int]@);
            }
            if !check_and_step(&insts[i], &mut vm, &mut nv, &mut ni, g, caller, Ghost(end)) {
                proof {
                    let ki = k as int;
                    let ii = i as int;
                    if all_copyable(f, gm, start) {
                        assert(copyable(f, gm, state_at(f, gm, start, ki as nat, ii as nat), gm.blocks[ki].insts[ii]));
                    }
                }
                return false;
            }
            i = i + 1;
        }
        assert(state_at(f, gm, start, (k + 1) as nat, 0) == state_at(f, gm, start, k as nat, insts@.len() as nat));
        k = k + 1;
    }
    true
}

/// Whether the caller `calleefunc` can take the body of `func` at the instruction numbered
/// `callsite`: the condition under which [`inlinefn_into`] is defined.
pub fn inline_allowed(calleefunc: &Func, callsite: u32, func: &Func) -> (r: bool)
    ensures
        r == can_inline(calleefunc@, callsite, func@),
{
    let ghost f = calleefunc@;
    let ghost g = func@;
    let (sb, si) = match find_sole_position(calleefunc, callsite) {
        Some(p) => p,
        None => {
            return false;
        },
    };
    proof {
        lemma_position_of(f, callsite, sb as int, si as int);
    }
    let ghost blk_m = f.blocks[sb as int];
    let ghost call_m = blk_m.insts[si as int];
    assert(f.blocks[sb as int] == calleefunc.blocks@[sb as int]@);
    assert(blk_m.insts == calleefunc.blocks@[sb as int].insts@.map_values(|x: Inst| x@));
    assert(call_m == calleefunc.blocks@[sb as int].insts@[si as int]@);
    let blk = &calleefunc.blocks[sb];
    let call = &blk.insts[si];
    match call.kind {
        InstKind::Call { .. } => {},
        InstKind::CallIndirect { .. } => {},
        _ => {
            return false;
        },
    }
    let n_insts = blk.insts.len();
    if call.num_fixed > call.args.len() || call.results.len() == 0 || si >= n_insts - 1 {
        return false;
    }
    if func.blocks.len() == 0 || func.returns == 0 {
        return false;
    }
    assert(g.blocks[0] == func.blocks@[0]@);
    if func.blocks[0].params.len() > call.args.len() - call.num_fixed {
        return false;
    }
    if !block_ids_are_distinct(func) {
        return false;
    }
    if calleefunc.ext_funcs.len() > 0xffff_ffffusize {
        return false;
    }
    let mut j: usize = 0;
    while j < func.ext_funcs.len()
        invariant
            f == calleefunc@,
            g == func@,
            f.ext_funcs.len() <= u32::MAX,
            j <= g.ext_funcs.len(),
            forall|j2: int| 0 <= j2 < j ==> has_named(f.ext_funcs, #[trigger] g.ext_funcs[j2].name),
        decreases func.ext_funcs.len() - j,
    {
        if get_funcref_for_extfunc_name(calleefunc, &func.ext_funcs[j].name).is_none() {
            return false;
        }
        j = j + 1;
    }
    if func.blocks.len() as u64 > 0xffff_ffffu64 - calleefunc.next_block as u64 {
        return false;
    }
    if calleefunc.global_values.len() > 0xffff_ffffusize || func.global_values.len() > 0xffff_ffffusize
        - calleefunc.global_values.len() {
        return false;
    }
    let vm = bind_entry_params(&func.blocks[0].params, call);
    let ghost start = copy_start(f, call_m, g);
    let nv0 = calleefunc.next_value as u64 + 1;
    if nv0 > 0xffff_ffffu64 {
        proof {
            lemma_state_between(f, g, start, 0, 0);
        }
        return false;
    }
    callee_copyable(func, calleefunc, vm, nv0, calleefunc.next_inst as u64, Ghost(start))
}

} // verus!
