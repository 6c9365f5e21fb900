//! A plain-value model of the parts of a compiled function that the inliner reads and writes.
//!
//! A function is a list of blocks in layout order; the first block is the entry block.
//! Values, blocks and instructions are named by `u32` numbers; `next_value`, `next_block`
//! and `next_inst` are the numbers that the next fresh entity of each kind receives.
//! What an instruction computes beyond its operands (its opcode, immediates and types)
//! is carried as an opaque `data` word that the inliner copies unchanged.

use vstd::prelude::*;

verus! {

/// The name of an entity outside a function: a user symbol or a runtime library routine.
#[derive(PartialEq, Eq, Structural, Clone, Copy, Debug)]
pub enum ExtName {
    User { namespace: u32, index: u32 },
    LibCall(u32),
}

/// What the inliner needs to know about an instruction's opcode.
#[derive(PartialEq, Eq, Structural, Clone, Copy, Debug)]
pub enum InstKind {
    /// Any instruction without references to other entities.
    Other,
    /// A direct call through the function's external function table.
    Call { func_ref: u32 },
    /// An indirect call through the signature numbered `sig_ref`; its first fixed operand
    /// is the callee address.
    CallIndirect { sig_ref: u32 },
    /// An instruction that reads a global value of the function.
    GlobalValue { global_value: u32 },
    /// An unconditional jump.
    Jump { dest: u32 },
    /// Any other instruction with a destination block.
    Branch { dest: u32 },
    /// A return from the function.
    Return,
}

/// An entry of the external function table.
#[derive(PartialEq, Eq, Structural, Clone, Copy, Debug)]
pub struct ExtFunc {
    pub name: ExtName,
    pub signature: u32,
}

/// An instruction. `args` lists its value operands; when `uses_list` holds they are
/// stored as a value list whose first `num_fixed` entries are the fixed operands.
pub struct Inst {
    pub id: u32,
    pub data: u64,
    pub kind: InstKind,
    pub args: Vec<u32>,
    pub num_fixed: usize,
    pub uses_list: bool,
    pub results: Vec<u32>,
}

/// A basic block: its number, its parameters and its instructions in layout order.
pub struct Block {
    pub id: u32,
    pub params: Vec<u32>,
    pub insts: Vec<Inst>,
}

/// A function body. `signatures` gives, for each signature that the function refers to,
/// the number of values it returns; `returns` is the number of values the function itself
/// returns.
pub struct Func {
    pub name: ExtName,
    pub blocks: Vec<Block>,
    pub ext_funcs: Vec<ExtFunc>,
    pub signatures: Vec<usize>,
    pub returns: usize,
    pub global_values: Vec<u64>,
    pub next_value: u32,
    pub next_block: u32,
    pub next_inst: u32,
}

/// The mathematical value of an [`Inst`].
pub struct InstModel {
    pub id: u32,
    pub data: u64,
    pub kind: InstKind,
    pub args: Seq<u32>,
    pub num_fixed: nat,
    pub uses_list: bool,
    pub results: Seq<u32>,
}

/// The mathematical value of a [`Block`].
pub struct BlockModel {
    pub id: u32,
    pub params: Seq<u32>,
    pub insts: Seq<InstModel>,
}

/// The mathematical value of a [`Func`].
pub struct FuncModel {
    pub name: ExtName,
    pub blocks: Seq<BlockModel>,
    pub ext_funcs: Seq<ExtFunc>,
    pub signatures: Seq<usize>,
    pub returns: usize,
    pub global_values: Seq<u64>,
    pub next_value: u32,
    pub next_block: u32,
    pub next_inst: u32,
}

impl View for Inst {
    type V = InstModel;

    open spec fn view(&self) -> InstModel {
        InstModel {
            id: self.id,
            data: self.data,
            kind: self.kind,
            args: self.args@,
            num_fixed: self.num_fixed as nat,
            uses_list: self.uses_list,
            results: self.results@,
        }
    }
}

impl View for Block {
    type V = BlockModel;

    open spec fn view(&self) -> BlockModel {
        BlockModel {
            id: self.id,
            params: self.params@,
            insts: self.insts@.map_values(|i: Inst| i@),
        }
    }
}

impl View for Func {
    type V = FuncModel;

    open spec fn view(&self) -> FuncModel {
        FuncModel {
            name: self.name,
            blocks: self.blocks@.map_values(|b: Block| b@),
            ext_funcs: self.ext_funcs@,
            signatures: self.signatures@,
            returns: self.returns,
            global_values: self.global_values@,
            next_value: self.next_value,
            next_block: self.next_block,
            next_inst: self.next_inst,
        }
    }
}

/// Whether `(b, i)` is the position of an instruction of `f`.
pub open spec fn is_position(f: FuncModel, b: int, i: int) -> bool {
    0 <= b < f.blocks.len() && 0 <= i < f.blocks[b].insts.len()
}

/// Whether the instruction numbered `id` stands at `(b, i)` and nowhere else in `f`.
pub open spec fn sole_position(f: FuncModel, id: u32, b: int, i: int) -> bool {
    &&& is_position(f, b, i)
    &&& f.blocks[b].insts[i].id == id
    &&& forall|b2: int, i2: int|
        is_position(f, b2, i2) && #[trigger] f.blocks[b2].insts[i2].id == id ==> b2 == b && i2
            == i
}

/// Whether the instruction numbered `id` stands exactly once in the layout of `f`.
pub open spec fn placed_once(f: FuncModel, id: u32) -> bool {
    exists|b: int, i: int| sole_position(f, id, b, i)
}

/// The position of the instruction numbered `id`, where it stands exactly once.
pub open spec fn position_of(f: FuncModel, id: u32) -> (int, int) {
    choose|b: int, i: int| sole_position(f, id, b, i)
}

/// Whether no two blocks of `f` have the same number.
pub open spec fn block_ids_distinct(f: FuncModel) -> bool {
    forall|k1: int, k2: int|
        0 <= k1 < f.blocks.len() && 0 <= k2 < f.blocks.len() && k1 != k2 ==> #[trigger] f.blocks[k1].id
            != #[trigger] f.blocks[k2].id
}

/// Whether no two instructions in the layout of `f` have the same number.
pub open spec fn inst_ids_distinct(f: FuncModel) -> bool {
    forall|b1: int, i1: int, b2: int, i2: int|
        is_position(f, b1, i1) && is_position(f, b2, i2) && (b1 != b2 || i1 != i2) ==> #[trigger] f.blocks[b1].insts[i1].id
            != #[trigger] f.blocks[b2].insts[i2].id
}

/// Whether `f` defines each value once: its block parameters and the results of the
/// instructions in its layout are pairwise distinct.
pub open spec fn values_defined_once(f: FuncModel) -> bool {
    &&& forall|k1: int, p1: int, k2: int, p2: int|
        0 <= k1 < f.blocks.len() && 0 <= p1 < f.blocks[k1].params.len() && 0 <= k2 < f.blocks.len() && 0
            <= p2 < f.blocks[k2].params.len() && (k1 != k2 || p1 != p2) ==> #[trigger] f.blocks[k1].params[p1]
            != #[trigger] f.blocks[k2].params[p2]
    &&& forall|b1: int, i1: int, j1: int, b2: int, i2: int, j2: int|
        is_position(f, b1, i1) && 0 <= j1 < f.blocks[b1].insts[i1].results.len() && is_position(f, b2, i2) && 0
            <= j2 < f.blocks[b2].insts[i2].results.len() && (b1 != b2 || i1 != i2 || j1 != j2)
            ==> #[trigger] f.blocks[b1].insts[i1].results[j1] != #[trigger] f.blocks[b2].insts[i2].results[j2]
    &&& forall|k: int, p: int, b: int, i: int, j: int|
        0 <= k < f.blocks.len() && 0 <= p < f.blocks[k].params.len() && is_position(f, b, i) && 0 <= j
            < f.blocks[b].insts[i].results.len() ==> #[trigger] f.blocks[k].params[p]
            != #[trigger] f.blocks[b].insts[i].results[j]
}

/// Whether the numbering of `f` is sound: blocks are numbered distinctly, instructions
/// too, each value is defined once, and every block, instruction and value that `f`
/// defines (a block parameter or an instruction result) is numbered below the next fresh
/// number of its kind.
pub open spec fn well_numbered(f: FuncModel) -> bool {
    &&& block_ids_distinct(f)
    &&& inst_ids_distinct(f)
    &&& values_defined_once(f)
    &&& forall|k: int| 0 <= k < f.blocks.len() ==> #[trigger] f.blocks[k].id < f.next_block
    &&& forall|b: int, i: int| is_position(f, b, i) ==> #[trigger] f.blocks[b].insts[i].id < f.next_inst
    &&& forall|k: int, p: int|
        0 <= k < f.blocks.len() && 0 <= p < f.blocks[k].params.len() ==> #[trigger] f.blocks[k].params[p]
            < f.next_value
    &&& forall|b: int, i: int, j: int|
        is_position(f, b, i) && 0 <= j < f.blocks[b].insts[i].results.len() ==> #[trigger] f.blocks[b].insts[i].results[j]
            < f.next_value
}

/// Copies an instruction.
pub fn copy_inst(inst: &Inst) -> (r: Inst)
    ensures
        r@ == inst@,
{
    Inst {
        id: inst.id,
        data: inst.data,
        kind: inst.kind,
        args: copy_values(&inst.args),
        num_fixed: inst.num_fixed,
        uses_list: inst.uses_list,
        results: copy_values(&inst.results),
    }
}

/// Copies a list of value numbers.
pub fn copy_values(v: &Vec<u32>) -> (r: Vec<u32>)
    ensures
        r@ == v@,
{
    let mut r: Vec<u32> = Vec::new();
    let mut i: usize = 0;
    while i < v.len()
        invariant
            i <= v.len(),
            r@ == v@.take(i as int),
        decreases v.len() - i,
    {
        r.push(v[i]);
        i = i + 1;
        assert(r@ =~= v@.take(i as int));
    }
    assert(v@.take(v.len() as int) =~= v@);
    r
}

/// Copies a list of counts.
pub fn copy_counts(v: &Vec<usize>) -> (r: Vec<usize>)
    ensures
        r@ == v@,
{
    let mut r: Vec<usize> = Vec::new();
    let mut i: usize = 0;
    while i < v.len()
        invariant
            i <= v.len(),
            r@ == v@.take(i as int),
        decreases v.len() - i,
    {
        r.push(v[i]);
        i = i + 1;
        assert(r@ =~= v@.take(i as int));
    }
    assert(v@.take(v.len() as int) =~= v@);
    r
}

/// Copies the instructions `insts[from..to]`.
pub fn copy_insts(insts: &Vec<Inst>, from: usize, to: usize) -> (r: Vec<Inst>)
    requires
        from <= to <= insts.len(),
    ensures
        r@.map_values(|i: Inst| i@) == insts@.map_values(|i: Inst| i@).subrange(from as int, to as int),
{
    let mut r: Vec<Inst> = Vec::new();
    let mut i: usize = from;
    while i < to
        invariant
            from <= i <= to <= insts.len(),
            r@.len() == i - from,
            forall|j: int| 0 <= j < r@.len() ==> #[trigger] r@[j]@ == insts@[from + j]@,
        decreases to - i,
    {
        r.push(copy_inst(&insts[i]));
        i = i + 1;
    }
    assert(r@.map_values(|x: Inst| x@) =~= insts@.map_values(|x: Inst| x@).subrange(from as int, to as int));
    r
}

/// Copies a block.
pub fn copy_block(b: &Block) -> (r: Block)
    ensures
        r@ == b@,
{
    let insts = copy_insts(&b.insts, 0, b.insts.len());
    let r = Block { id: b.id, params: copy_values(&b.params), insts };
    assert(r@.insts =~= b@.insts);
    r
}

/// Copies the blocks `blocks[from..to]`.
pub fn copy_blocks(blocks: &Vec<Block>, from: usize, to: usize) -> (r: Vec<Block>)
    requires
        from <= to <= blocks.len(),
    ensures
        r@.map_values(|b: Block| b@) == blocks@.map_values(|b: Block| b@).subrange(from as int, to as int),
{
    let mut r: Vec<Block> = Vec::new();
    let mut i: usize = from;
    while i < to
        invariant
            from <= i <= to <= blocks.len(),
            r@.len() == i - from,
            forall|j: int| 0 <= j < r@.len() ==> #[trigger] r@[j]@ == blocks@[from + j]@,
        decreases to - i,
    {
        r.push(copy_block(&blocks[i]));
        i = i + 1;
    }
    assert(r@.map_values(|x: Block| x@) =~= blocks@.map_values(|x: Block| x@).subrange(from as int, to as int));
    r
}

/// Copies a function.
pub fn copy_func(f: &Func) -> (r: Func)
    ensures
        r@ == f@,
{
    let blocks = copy_blocks(&f.blocks, 0, f.blocks.len());
    let mut ext_funcs: Vec<ExtFunc> = Vec::new();
    let mut i: usize = 0;
    while i < f.ext_funcs.len()
        invariant
            i <= f.ext_funcs.len(),
            ext_funcs@ == f.ext_funcs@.take(i as int),
        decreases f.ext_funcs.len() - i,
    {
        ext_funcs.push(f.ext_funcs[i]);
        i = i + 1;
        assert(ext_funcs@ =~= f.ext_funcs@.take(i as int));
    }
    assert(f.ext_funcs@.take(f.ext_funcs.len() as int) =~= f.ext_funcs@);
    let mut gvs: Vec<u64> = Vec::new();
    let mut j: usize = 0;
    while j < f.global_values.len()
        invariant
            j <= f.global_values.len(),
            gvs@ == f.global_values@.take(j as int),
        decreases f.global_values.len() - j,
    {
        gvs.push(f.global_values[j]);
        j = j + 1;
        assert(gvs@ =~= f.global_values@.take(j as int));
    }
    assert(f.global_values@.take(f.global_values.len() as int) =~= f.global_values@);
    let r = Func {
        name: f.name,
        blocks,
        ext_funcs,
        signatures: copy_counts(&f.signatures),
        returns: f.returns,
        global_values: gvs,
        next_value: f.next_value,
        next_block: f.next_block,
        next_inst: f.next_inst,
    };
    assert(r@.blocks =~= f@.blocks);
    r
}

} // verus!
