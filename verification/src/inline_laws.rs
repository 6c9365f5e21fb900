//! What inlining keeps: a caller whose numbering is sound keeps a sound numbering, and the
//! call that was inlined no longer stands in it.

use vstd::prelude::*;
use crate::ir::{
    block_ids_distinct, inst_ids_distinct, is_position, position_of, sole_position,
    values_defined_once, well_numbered, BlockModel, FuncModel, InstModel,
};
use crate::inline::{
    all_copyable, bind_params, bind_results, can_inline, copied_block, copied_inst, copied_result_count,
    copy_start, first_named, has_later_block, has_named, inline_result, later_blocks, replace_value,
    lemma_position_of, lemma_state_between, later_block_index, remap_kind, state_at, step, CopyState,
};
use crate::ir::InstKind;

verus! {

/// Later copy states have counters at least as large as earlier ones.
proof fn lemma_state_mono(f: FuncModel, g: FuncModel, start: CopyState, k1: nat, i1: nat, k2: nat, i2: nat)
    requires
        k2 < g.blocks.len(),
        i2 <= g.blocks[k2 as int].insts.len(),
        i1 <= g.blocks[k1 as int].insts.len(),
        k1 <= k2,
        k1 == k2 ==> i1 <= i2,
    ensures
        state_at(f, g, start, k1, i1).next_value <= state_at(f, g, start, k2, i2).next_value,
        state_at(f, g, start, k1, i1).next_inst <= state_at(f, g, start, k2, i2).next_inst,
    decreases k2, i2,
{
    if k1 == k2 && i1 == i2 {
    } else if i2 > 0 {
        lemma_state_mono(f, g, start, k1, i1, k2, (i2 - 1) as nat);
    } else {
        lemma_state_mono(f, g, start, k1, i1, (k2 - 1) as nat, g.blocks[k2 - 1].insts.len());
    }
}

/// Copies of distinct callee instructions get distinct numbers, in increasing order.
proof fn lemma_copy_ids_increase(f: FuncModel, g: FuncModel, start: CopyState, k1: nat, i1: nat, k2: nat, i2: nat)
    requires
        k2 < g.blocks.len(),
        i1 < g.blocks[k1 as int].insts.len(),
        i2 < g.blocks[k2 as int].insts.len(),
        k1 < k2 || (k1 == k2 && i1 < i2),
    ensures
        state_at(f, g, start, k1, i1).next_inst < state_at(f, g, start, k2, i2).next_inst,
{
    lemma_state_mono(f, g, start, k1, i1 + 1, k2, i2);
}

/// Where the instruction at `(b, i)` of the inlined caller comes from: `(true, x, y)` for
/// the caller's instruction at `(x, y)`, `(false, k, y)` for the copy of the callee's
/// instruction at `(k, y)`.
spec fn origin(f: FuncModel, g: FuncModel, sb: int, si: int, b: int, i: int) -> (bool, int, int) {
    let n = g.blocks.len() as int;
    if b < sb {
        (true, b, i)
    } else if b == sb {
        if i < si {
            (true, sb, i)
        } else {
            (false, 0, i - si)
        }
    } else if b < sb + n {
        (false, b - sb, i)
    } else if b == sb + n {
        (true, sb, si + 1 + i)
    } else {
        (true, b - n, i)
    }
}

/// The blocks of the inlined caller, by index.
proof fn lemma_result_blocks(f: FuncModel, c: u32, g: FuncModel, sb: int, si: int)
    requires
        can_inline(f, c, g),
        position_of(f, c) == (sb, si),
    ensures
        sole_position(f, c, sb, si),
        inline_result(f, c, g).blocks.len() == f.blocks.len() + g.blocks.len(),
        forall|b: int| 0 <= b < sb ==> #[trigger] inline_result(f, c, g).blocks[b] == f.blocks[b],
        inline_result(f, c, g).blocks[sb] == (BlockModel {
            id: f.blocks[sb].id,
            params: f.blocks[sb].params,
            insts: f.blocks[sb].insts.take(si) + copied_block(
                f,
                g,
                copy_start(f, f.blocks[sb].insts[si], g),
                0,
            ),
        }),
        forall|k: int|
            1 <= k < g.blocks.len() ==> #[trigger] inline_result(f, c, g).blocks[sb + k] == later_blocks(
                f,
                g,
                copy_start(f, f.blocks[sb].insts[si], g),
            )[k - 1],
        inline_result(f, c, g).blocks[sb + g.blocks.len()] == (BlockModel {
            id: f.next_block,
            params: seq![f.next_value],
            insts: f.blocks[sb].insts.skip(si + 1).map_values(
                |x: InstModel| replace_value(x, f.blocks[sb].insts[si].results[0], f.next_value),
            ),
        }),
        forall|b: int|
            sb + g.blocks.len() < b < f.blocks.len() + g.blocks.len() ==> #[trigger] inline_result(
                f,
                c,
                g,
            ).blocks[b] == f.blocks[b - g.blocks.len()],
{
    let p = position_of(f, c);
    assert(sole_position(f, c, p.0, p.1));
}

/// The instruction at `(b, i)` of the inlined caller is the caller's or the callee's
/// instruction that [`origin`] names, the latter copied.
proof fn lemma_origin(f: FuncModel, c: u32, g: FuncModel, sb: int, si: int, b: int, i: int)
    requires
        can_inline(f, c, g),
        position_of(f, c) == (sb, si),
        is_position(inline_result(f, c, g), b, i),
    ensures
        ({
            let o = origin(f, g, sb, si, b, i);
            let r = inline_result(f, c, g).blocks[b].insts[i];
            let start = copy_start(f, f.blocks[sb].insts[si], g);
            &&& o.0 ==> {
                &&& is_position(f, o.1, o.2)
                &&& !(o.1 == sb && o.2 == si)
                &&& r.id == f.blocks[o.1].insts[o.2].id
                &&& r.results == f.blocks[o.1].insts[o.2].results
            }
            &&& !o.0 ==> {
                &&& 0 <= o.1 < g.blocks.len()
                &&& 0 <= o.2 < g.blocks[o.1].insts.len()
                &&& r == copied_inst(f, g, state_at(f, g, start, o.1 as nat, o.2 as nat), g.blocks[o.1].insts[o.2])
            }
        }),
{
    lemma_result_blocks(f, c, g, sb, si);
    let n = g.blocks.len() as int;
    let res = inline_result(f, c, g);
    let start = copy_start(f, f.blocks[sb].insts[si], g);
    if b < sb {
    } else if b == sb {
        if i < si {
            assert(res.blocks[sb].insts[i] == f.blocks[sb].insts[i]);
        } else {
            assert(res.blocks[sb].insts[i] == copied_block(f, g, start, 0)[i - si]);
        }
    } else if b < sb + n {
        let k = b - sb;
        assert(res.blocks[sb + k] == later_blocks(f, g, start)[k - 1]);
    } else if b == sb + n {
        assert(res.blocks[b].insts[i] == replace_value(
            f.blocks[sb].insts[si + 1 + i],
            f.blocks[sb].insts[si].results[0],
            f.next_value,
        ));
    } else {
    }
}

/// Distinct instruction positions of the inlined caller have distinct origins.
proof fn lemma_origin_injective(
    f: FuncModel,
    c: u32,
    g: FuncModel,
    sb: int,
    si: int,
    b1: int,
    i1: int,
    b2: int,
    i2: int,
)
    requires
        can_inline(f, c, g),
        position_of(f, c) == (sb, si),
        is_position(inline_result(f, c, g), b1, i1),
        is_position(inline_result(f, c, g), b2, i2),
        origin(f, g, sb, si, b1, i1) == origin(f, g, sb, si, b2, i2),
    ensures
        b1 == b2 && i1 == i2,
{
    lemma_result_blocks(f, c, g, sb, si);
}

/// The copy of the callee instruction at `(k, i)` is numbered, and defines values,
/// below the inlined caller's next fresh numbers.
proof fn lemma_copy_below_end(f: FuncModel, c: u32, g: FuncModel, sb: int, si: int, k: int, i: int)
    requires
        can_inline(f, c, g),
        position_of(f, c) == (sb, si),
        0 <= k < g.blocks.len(),
        0 <= i < g.blocks[k].insts.len(),
    ensures
        ({
            let start = copy_start(f, f.blocks[sb].insts[si], g);
            let s = state_at(f, g, start, k as nat, i as nat);
            let r = copied_inst(f, g, s, g.blocks[k].insts[i]);
            let res = inline_result(f, c, g);
            &&& f.next_inst <= s.next_inst
            &&& r.id == s.next_inst
            &&& r.id < res.next_inst
            &&& forall|j: int| 0 <= j < r.results.len() ==> #[trigger] r.results[j] < res.next_value
            &&& f.next_value + 1 <= s.next_value
            &&& forall|j: int|
                0 <= j < r.results.len() ==> #[trigger] r.results[j] == s.next_value + j && s.next_value + j
                    < state_at(f, g, start, k as nat, (i + 1) as nat).next_value
        }),
{
    let n = g.blocks.len() as int;
    let start = copy_start(f, f.blocks[sb].insts[si], g);
    let end = state_at(f, g, start, n as nat, 0);
    let s = state_at(f, g, start, k as nat, i as nat);
    let inst = g.blocks[k].insts[i];
    assert(end.next_value <= u32::MAX && end.next_inst <= u32::MAX);
    lemma_state_mono(f, g, start, 0, 0, k as nat, i as nat);
    lemma_state_mono(f, g, start, k as nat, (i + 1) as nat, (n - 1) as nat, g.blocks[n - 1].insts.len());
    assert(end == state_at(f, g, start, (n - 1) as nat, g.blocks[n - 1].insts.len()));
    let s1 = state_at(f, g, start, k as nat, (i + 1) as nat);
    assert(s1 == crate::inline::step(f, g, s, inst));
    assert(s1.next_inst == s.next_inst + 1);
    if !(inst.kind is Return) {
        assert(s1.next_value == s.next_value + crate::inline::copied_result_count(f, g, inst));
    }
}

/// The blocks of the inlined caller are numbered distinctly and below its next block number.
proof fn lemma_blocks_numbered(f: FuncModel, c: u32, g: FuncModel)
    requires
        well_numbered(f),
        can_inline(f, c, g),
    ensures
        block_ids_distinct(inline_result(f, c, g)),
        forall|k: int|
            0 <= k < inline_result(f, c, g).blocks.len() ==> #[trigger] inline_result(f, c, g).blocks[k].id
                < inline_result(f, c, g).next_block,
{
    let (sb, si) = position_of(f, c);
    lemma_result_blocks(f, c, g, sb, si);
    let res = inline_result(f, c, g);
    let n = g.blocks.len() as int;
    let start = copy_start(f, f.blocks[sb].insts[si], g);
    assert forall|k: int| 0 <= k < res.blocks.len() implies #[trigger] res.blocks[k].id < res.next_block by {
        if k < sb {
        } else if k == sb {
        } else if k < sb + n {
            assert(res.blocks[sb + (k - sb)].id == later_blocks(f, g, start)[k - sb - 1].id);
        } else if k == sb + n {
        } else {
        }
    }
    assert forall|k1: int, k2: int|
        0 <= k1 < res.blocks.len() && 0 <= k2 < res.blocks.len() && k1 != k2 implies #[trigger] res.blocks[k1].id
        != #[trigger] res.blocks[k2].id by {
        if sb < k1 < sb + n {
            assert(res.blocks[sb + (k1 - sb)].id == later_blocks(f, g, start)[k1 - sb - 1].id);
        }
        if sb < k2 < sb + n {
            assert(res.blocks[sb + (k2 - sb)].id == later_blocks(f, g, start)[k2 - sb - 1].id);
        }
        if k1 < sb || k1 > sb + n {
            let o1 = if k1 < sb { k1 } else { k1 - n };
            assert(f.blocks[o1].id < f.next_block);
            if k2 < sb || k2 > sb + n {
                let o2 = if k2 < sb { k2 } else { k2 - n };
                assert(f.blocks[o1].id != f.blocks[o2].id);
            } else if k2 == sb {
                assert(f.blocks[o1].id != f.blocks[sb].id);
            }
        }
        if k2 < sb || k2 > sb + n {
            let o2 = if k2 < sb { k2 } else { k2 - n };
            assert(f.blocks[o2].id < f.next_block);
            if k1 == sb {
                assert(f.blocks[o2].id != f.blocks[sb].id);
            }
        }
        if k1 == sb {
            assert(f.blocks[sb].id < f.next_block);
        }
        if k2 == sb {
            assert(f.blocks[sb].id < f.next_block);
        }
    }
}

/// The instructions of the inlined caller are numbered distinctly and below its next
/// instruction number.
proof fn lemma_insts_numbered(f: FuncModel, c: u32, g: FuncModel)
    requires
        well_numbered(f),
        can_inline(f, c, g),
    ensures
        inst_ids_distinct(inline_result(f, c, g)),
        forall|b: int, i: int|
            is_position(inline_result(f, c, g), b, i) ==> #[trigger] inline_result(f, c, g).blocks[b].insts[i].id
                < inline_result(f, c, g).next_inst,
{
    let (sb, si) = position_of(f, c);
    lemma_result_blocks(f, c, g, sb, si);
    let res = inline_result(f, c, g);
    let start = copy_start(f, f.blocks[sb].insts[si], g);
    assert forall|b: int, i: int| is_position(res, b, i) implies #[trigger] res.blocks[b].insts[i].id < res.next_inst by {
        lemma_origin(f, c, g, sb, si, b, i);
        let o = origin(f, g, sb, si, b, i);
        if o.0 {
            assert(f.blocks[o.1].insts[o.2].id < f.next_inst);
            lemma_state_between(f, g, start, 0, 0);
            assert(state_at(f, g, start, g.blocks.len() as nat, 0).next_inst <= u32::MAX);
        } else {
            lemma_copy_below_end(f, c, g, sb, si, o.1, o.2);
        }
    }
    assert forall|b1: int, i1: int, b2: int, i2: int|
        is_position(res, b1, i1) && is_position(res, b2, i2) && (b1 != b2 || i1 != i2) implies #[trigger] res.blocks[b1].insts[i1].id
        != #[trigger] res.blocks[b2].insts[i2].id by {
        lemma_origin(f, c, g, sb, si, b1, i1);
        lemma_origin(f, c, g, sb, si, b2, i2);
        let o1 = origin(f, g, sb, si, b1, i1);
        let o2 = origin(f, g, sb, si, b2, i2);
        if o1 == o2 {
            lemma_origin_injective(f, c, g, sb, si, b1, i1, b2, i2);
        }
        if o1.0 && o2.0 {
            assert(f.blocks[o1.1].insts[o1.2].id != f.blocks[o2.1].insts[o2.2].id);
        } else if o1.0 && !o2.0 {
            assert(f.blocks[o1.1].insts[o1.2].id < f.next_inst);
            lemma_copy_below_end(f, c, g, sb, si, o2.1, o2.2);
        } else if !o1.0 && o2.0 {
            assert(f.blocks[o2.1].insts[o2.2].id < f.next_inst);
            lemma_copy_below_end(f, c, g, sb, si, o1.1, o1.2);
        } else {
            lemma_copy_below_end(f, c, g, sb, si, o1.1, o1.2);
            lemma_copy_below_end(f, c, g, sb, si, o2.1, o2.2);
            if o1.1 < o2.1 || (o1.1 == o2.1 && o1.2 < o2.2) {
                lemma_copy_ids_increase(f, g, start, o1.1 as nat, o1.2 as nat, o2.1 as nat, o2.2 as nat);
            } else if o1 != o2 {
                lemma_copy_ids_increase(f, g, start, o2.1 as nat, o2.2 as nat, o1.1 as nat, o1.2 as nat);
            }
        }
    }
}

/// The values that the inlined caller defines are numbered below its next value number.
proof fn lemma_values_numbered(f: FuncModel, c: u32, g: FuncModel)
    requires
        well_numbered(f),
        can_inline(f, c, g),
    ensures
        forall|k: int, p: int|
            0 <= k < inline_result(f, c, g).blocks.len() && 0 <= p < inline_result(f, c, g).blocks[k].params.len()
                ==> #[trigger] inline_result(f, c, g).blocks[k].params[p] < inline_result(f, c, g).next_value,
        forall|b: int, i: int, j: int|
            is_position(inline_result(f, c, g), b, i) && 0 <= j < inline_result(f, c, g).blocks[b].insts[i].results.len()
                ==> #[trigger] inline_result(f, c, g).blocks[b].insts[i].results[j] < inline_result(f, c, g).next_value,
{
    let (sb, si) = position_of(f, c);
    lemma_result_blocks(f, c, g, sb, si);
    let res = inline_result(f, c, g);
    let n = g.blocks.len() as int;
    let start = copy_start(f, f.blocks[sb].insts[si], g);
    lemma_state_between(f, g, start, 0, 0);
    assert forall|k: int, p: int|
        0 <= k < res.blocks.len() && 0 <= p < res.blocks[k].params.len() implies #[trigger] res.blocks[k].params[p]
        < res.next_value by {
        if k < sb {
            assert(f.blocks[k].params[p] < f.next_value);
        } else if k == sb {
            assert(f.blocks[sb].params[p] < f.next_value);
        } else if k < sb + n {
            assert(res.blocks[sb + (k - sb)] == later_blocks(f, g, start)[k - sb - 1]);
        } else if k == sb + n {
        } else {
            assert(f.blocks[k - n].params[p] < f.next_value);
        }
    }
    assert forall|b: int, i: int, j: int|
        is_position(res, b, i) && 0 <= j < res.blocks[b].insts[i].results.len() implies #[trigger] res.blocks[b].insts[i].results[j]
        < res.next_value by {
        lemma_origin(f, c, g, sb, si, b, i);
        let o = origin(f, g, sb, si, b, i);
        if o.0 {
            assert(f.blocks[o.1].insts[o.2].results[j] < f.next_value);
        } else {
            lemma_copy_below_end(f, c, g, sb, si, o.1, o.2);
        }
    }
}

/// The inlined caller defines each value once.
proof fn lemma_values_once(f: FuncModel, c: u32, g: FuncModel)
    requires
        well_numbered(f),
        can_inline(f, c, g),
    ensures
        values_defined_once(inline_result(f, c, g)),
{
    let (sb, si) = position_of(f, c);
    lemma_result_blocks(f, c, g, sb, si);
    let res = inline_result(f, c, g);
    let n = g.blocks.len() as int;
    let start = copy_start(f, f.blocks[sb].insts[si], g);
    lemma_state_between(f, g, start, 0, 0);
    // The block of the caller that each block of the inlined caller keeps the parameters of.
    let pb = |k: int| if k <= sb { k } else { k - n };
    assert forall|k: int| 0 <= k < res.blocks.len() && !(sb < k <= sb + n) implies #[trigger] res.blocks[k].params
        == f.blocks[pb(k)].params by {}
    assert forall|k: int| sb < k < sb + n implies #[trigger] res.blocks[k].params.len() == 0 by {
        assert(res.blocks[sb + (k - sb)] == later_blocks(f, g, start)[k - sb - 1]);
    }
    assert forall|k1: int, p1: int, k2: int, p2: int|
        0 <= k1 < res.blocks.len() && 0 <= p1 < res.blocks[k1].params.len() && 0 <= k2 < res.blocks.len() && 0
            <= p2 < res.blocks[k2].params.len() && (k1 != k2 || p1 != p2) implies #[trigger] res.blocks[k1].params[p1]
        != #[trigger] res.blocks[k2].params[p2] by {
        if sb < k1 < sb + n {
            assert(res.blocks[k1].params.len() == 0);
        }
        if sb < k2 < sb + n {
            assert(res.blocks[k2].params.len() == 0);
        }
        if k1 != sb + n {
            assert(f.blocks[pb(k1)].params[p1] < f.next_value);
        }
        if k2 != sb + n {
            assert(f.blocks[pb(k2)].params[p2] < f.next_value);
        }
        if k1 != sb + n && k2 != sb + n {
            assert(f.blocks[pb(k1)].params[p1] != f.blocks[pb(k2)].params[p2]);
        }
    }
    assert forall|b1: int, i1: int, j1: int, b2: int, i2: int, j2: int|
        is_position(res, b1, i1) && 0 <= j1 < res.blocks[b1].insts[i1].results.len() && is_position(res, b2, i2) && 0
            <= j2 < res.blocks[b2].insts[i2].results.len() && (b1 != b2 || i1 != i2 || j1 != j2)
        implies #[trigger] res.blocks[b1].insts[i1].results[j1] != #[trigger] res.blocks[b2].insts[i2].results[j2] by {
        lemma_origin(f, c, g, sb, si, b1, i1);
        lemma_origin(f, c, g, sb, si, b2, i2);
        let o1 = origin(f, g, sb, si, b1, i1);
        let o2 = origin(f, g, sb, si, b2, i2);
        if o1 == o2 {
            lemma_origin_injective(f, c, g, sb, si, b1, i1, b2, i2);
        }
        if o1.0 {
            assert(f.blocks[o1.1].insts[o1.2].results[j1] < f.next_value);
        } else {
            lemma_copy_below_end(f, c, g, sb, si, o1.1, o1.2);
        }
        if o2.0 {
            assert(f.blocks[o2.1].insts[o2.2].results[j2] < f.next_value);
        } else {
            lemma_copy_below_end(f, c, g, sb, si, o2.1, o2.2);
        }
        if o1.0 && o2.0 {
            assert(f.blocks[o1.1].insts[o1.2].results[j1] != f.blocks[o2.1].insts[o2.2].results[j2]);
        } else if !o1.0 && !o2.0 {
            if o1.1 < o2.1 || (o1.1 == o2.1 && o1.2 < o2.2) {
                lemma_state_mono(f, g, start, o1.1 as nat, (o1.2 + 1) as nat, o2.1 as nat, o2.2 as nat);
            } else if o1 != o2 {
                lemma_state_mono(f, g, start, o2.1 as nat, (o2.2 + 1) as nat, o1.1 as nat, o1.2 as nat);
            }
        }
    }
    assert forall|k: int, p: int, b: int, i: int, j: int|
        0 <= k < res.blocks.len() && 0 <= p < res.blocks[k].params.len() && is_position(res, b, i) && 0 <= j
            < res.blocks[b].insts[i].results.len() implies #[trigger] res.blocks[k].params[p]
        != #[trigger] res.blocks[b].insts[i].results[j] by {
        lemma_origin(f, c, g, sb, si, b, i);
        let o = origin(f, g, sb, si, b, i);
        if sb < k < sb + n {
            assert(res.blocks[k].params.len() == 0);
        }
        if o.0 {
            assert(f.blocks[o.1].insts[o.2].results[j] < f.next_value);
            if k != sb + n {
                assert(f.blocks[pb(k)].params[p] != f.blocks[o.1].insts[o.2].results[j]);
            }
        } else {
            lemma_copy_below_end(f, c, g, sb, si, o.1, o.2);
            if k != sb + n {
                assert(f.blocks[pb(k)].params[p] < f.next_value);
            }
        }
    }
}

/// Inlining keeps a sound numbering: in a caller whose blocks, instructions and values are
/// numbered distinctly and below its next fresh numbers, the body of a callee replaces a
/// call without breaking either property.
pub proof fn law_inline_keeps_numbering(f: FuncModel, callsite: u32, g: FuncModel)
    requires
        well_numbered(f),
        can_inline(f, callsite, g),
    ensures
        well_numbered(inline_result(f, callsite, g)),
{
    lemma_blocks_numbered(f, callsite, g);
    lemma_insts_numbered(f, callsite, g);
    lemma_values_numbered(f, callsite, g);
    lemma_values_once(f, callsite, g);
}

/// Inlining removes the call: in a caller with a sound numbering, the instruction numbered
/// `callsite` no longer stands anywhere once the callee's body has replaced it.
pub proof fn law_inline_removes_call(f: FuncModel, callsite: u32, g: FuncModel)
    requires
        well_numbered(f),
        can_inline(f, callsite, g),
    ensures
        forall|b: int, i: int|
            is_position(inline_result(f, callsite, g), b, i) ==> #[trigger] inline_result(
                f,
                callsite,
                g,
            ).blocks[b].insts[i].id != callsite,
{
    let (sb, si) = position_of(f, callsite);
    lemma_result_blocks(f, callsite, g, sb, si);
    let n = g.blocks.len() as int;
    let start = copy_start(f, f.blocks[sb].insts[si], g);
    lemma_state_between(f, g, start, 0, 0);
    assert forall|b: int, i: int| is_position(inline_result(f, callsite, g), b, i) implies #[trigger] inline_result(
        f,
        callsite,
        g,
    ).blocks[b].insts[i].id != callsite by {
        lemma_origin(f, callsite, g, sb, si, b, i);
        let o = origin(f, g, sb, si, b, i);
        if o.0 {
            assert(f.blocks[o.1].insts[o.2].id != f.blocks[sb].insts[si].id);
        } else {
            lemma_state_mono(f, g, start, 0, 0, o.1 as nat, o.2 as nat);
            lemma_state_mono(f, g, start, o.1 as nat, (o.2 + 1) as nat, (n - 1) as nat, g.blocks[n - 1].insts.len());
            assert(state_at(f, g, start, n as nat, 0) == state_at(f, g, start, (n - 1) as nat, g.blocks[n - 1].insts.len()));
            assert(f.blocks[sb].insts[si].id < f.next_inst);
        }
    }
}

/// Whether `v` is defined before the callee position `(k, i)`: it is a parameter of the
/// entry block, or a result of an instruction other than a return that stands earlier in
/// layout order.
pub open spec fn defined_before(g: FuncModel, v: u32, k: int, i: int) -> bool {
    ||| g.blocks[0].params.contains(v)
    ||| exists|k2: int, i2: int|
        #![trigger g.blocks[k2].insts[i2]]
        is_position(g, k2, i2) && (k2 < k || (k2 == k && i2 < i)) && !(
        g.blocks[k2].insts[i2].kind is Return) && g.blocks[k2].insts[i2].results.contains(v)
}

/// Whether the callee defines its values before it uses them: each operand that the copy
/// must rename (a value-list operand, or the value returned) is defined before the
/// instruction that reads it, and each return returns a value.
pub open spec fn uses_defined_before(g: FuncModel) -> bool {
    forall|k: int, i: int|
        #![trigger g.blocks[k].insts[i]]
        is_position(g, k, i) ==> {
            let inst = g.blocks[k].insts[i];
            &&& inst.kind is Return ==> inst.args.len() >= 1 && defined_before(g, inst.args[0], k, i)
            &&& !(inst.kind is Return) && inst.uses_list ==> forall|j: int|
                0 <= j < inst.args.len() ==> defined_before(g, #[trigger] inst.args[j], k, i)
        }
}

/// Whether every reference of the callee's instructions fits the caller and the callee:
/// calls go to functions that the caller knows under the same name, with a signature of
/// the caller that returns at least as many values as the call has results; global values
/// and destination blocks exist.
pub open spec fn callee_refs_fit(f: FuncModel, g: FuncModel) -> bool {
    forall|k: int, i: int|
        #![trigger g.blocks[k].insts[i]]
        is_position(g, k, i) && !(g.blocks[k].insts[i].kind is Return) ==> {
            let inst = g.blocks[k].insts[i];
            &&& inst.kind matches InstKind::Call { func_ref } ==> {
                &&& func_ref < g.ext_funcs.len()
                &&& has_named(f.ext_funcs, g.ext_funcs[func_ref as int].name)
                &&& f.ext_funcs[first_named(f.ext_funcs, g.ext_funcs[func_ref as int].name)].signature
                    < f.signatures.len()
            }
            &&& inst.kind matches InstKind::CallIndirect { sig_ref } ==> sig_ref < f.signatures.len()
            &&& inst.results.len() <= copied_result_count(f, g, inst)
            &&& inst.kind matches InstKind::GlobalValue { global_value } ==> global_value
                < g.global_values.len()
            &&& inst.kind matches InstKind::Jump { dest } ==> has_later_block(g, dest)
            &&& inst.kind matches InstKind::Branch { dest } ==> has_later_block(g, dest)
        }
}

proof fn lemma_bind_params_dom(params: Seq<u32>, args: Seq<u32>, v: u32)
    ensures
        bind_params(params, args).contains_key(v) <==> params.contains(v),
    decreases params.len(),
{
    if params.len() > 0 {
        let p0 = params.drop_last();
        lemma_bind_params_dom(p0, args, v);
        if params.contains(v) {
            let j = choose|j: int| 0 <= j < params.len() && params[j] == v;
            if j < params.len() - 1 {
                assert(p0[j] == v);
            }
        }
        if p0.contains(v) {
            let j = choose|j: int| 0 <= j < p0.len() && p0[j] == v;
            assert(params[j] == v);
        }
        if v == params.last() {
            assert(params[params.len() - 1] == v);
        }
    }
}

proof fn lemma_bind_results_dom(m: Map<u32, u32>, results: Seq<u32>, base: int, v: u32)
    ensures
        bind_results(m, results, base).contains_key(v) <==> (m.contains_key(v) || results.contains(v)),
    decreases results.len(),
{
    if results.len() > 0 {
        let r0 = results.drop_last();
        lemma_bind_results_dom(m, r0, base, v);
        if results.contains(v) {
            let j = choose|j: int| 0 <= j < results.len() && results[j] == v;
            if j < results.len() - 1 {
                assert(r0[j] == v);
            }
        }
        if r0.contains(v) {
            let j = choose|j: int| 0 <= j < r0.len() && r0[j] == v;
            assert(results[j] == v);
        }
        if v == results.last() {
            assert(results[results.len() - 1] == v);
        }
    }
}

/// Along the copy, the values bound are exactly those defined before the current position.
proof fn lemma_bound_iff_defined(f: FuncModel, g: FuncModel, start: CopyState, k: nat, i: nat, v: u32)
    requires
        k < g.blocks.len(),
        i <= g.blocks[k as int].insts.len(),
        start.vmap.contains_key(v) <==> g.blocks[0].params.contains(v),
    ensures
        state_at(f, g, start, k, i).vmap.contains_key(v) <==> defined_before(g, v, k as int, i as int),
    decreases k, i,
{
    if i > 0 {
        lemma_bound_iff_defined(f, g, start, k, (i - 1) as nat, v);
        let s = state_at(f, g, start, k, (i - 1) as nat);
        let inst = g.blocks[k as int].insts[i - 1];
        assert(state_at(f, g, start, k, i) == step(f, g, s, inst));
        if !(inst.kind is Return) {
            lemma_bind_results_dom(s.vmap, inst.results, s.next_value, v);
        }
        let ki = k as int;
        let ii = i as int;
        if defined_before(g, v, ki, ii) && !g.blocks[0].params.contains(v) {
            let (k2, i2) = choose|k2: int, i2: int|
                #![trigger g.blocks[k2].insts[i2]]
                is_position(g, k2, i2) && (k2 < ki || (k2 == ki && i2 < ii)) && !(
                g.blocks[k2].insts[i2].kind is Return) && g.blocks[k2].insts[i2].results.contains(v);
            if !(k2 == ki && i2 == ii - 1) {
                assert(is_position(g, k2, i2) && (k2 < ki || (k2 == ki && i2 < ii - 1)) && !(
                g.blocks[k2].insts[i2].kind is Return) && g.blocks[k2].insts[i2].results.contains(v));
                assert(defined_before(g, v, ki, ii - 1));
            }
        }
        if defined_before(g, v, ki, ii - 1) && !g.blocks[0].params.contains(v) {
            let (k2, i2) = choose|k2: int, i2: int|
                #![trigger g.blocks[k2].insts[i2]]
                is_position(g, k2, i2) && (k2 < ki || (k2 == ki && i2 < ii - 1)) && !(
                g.blocks[k2].insts[i2].kind is Return) && g.blocks[k2].insts[i2].results.contains(v);
            assert(is_position(g, k2, i2) && (k2 < ki || (k2 == ki && i2 < ii)) && !(
                g.blocks[k2].insts[i2].kind is Return) && g.blocks[k2].insts[i2].results.contains(v));
        }
        if !(inst.kind is Return) && inst.results.contains(v) {
            assert(is_position(g, ki, ii - 1));
            assert(g.blocks[ki].insts[ii - 1] == inst);
        }
    } else if k > 0 {
        let n = g.blocks[k - 1].insts.len();
        lemma_bound_iff_defined(f, g, start, (k - 1) as nat, n, v);
        let ki = k as int;
        if defined_before(g, v, ki, 0) && !g.blocks[0].params.contains(v) {
            let (k2, i2) = choose|k2: int, i2: int|
                #![trigger g.blocks[k2].insts[i2]]
                is_position(g, k2, i2) && (k2 < ki || (k2 == ki && i2 < 0)) && !(
                g.blocks[k2].insts[i2].kind is Return) && g.blocks[k2].insts[i2].results.contains(v);
            assert(is_position(g, k2, i2) && (k2 < ki - 1 || (k2 == ki - 1 && i2 < n)) && !(
                g.blocks[k2].insts[i2].kind is Return) && g.blocks[k2].insts[i2].results.contains(v));
        }
        if defined_before(g, v, ki - 1, n as int) && !g.blocks[0].params.contains(v) {
            let (k2, i2) = choose|k2: int, i2: int|
                #![trigger g.blocks[k2].insts[i2]]
                is_position(g, k2, i2) && (k2 < ki - 1 || (k2 == ki - 1 && i2 < n)) && !(
                g.blocks[k2].insts[i2].kind is Return) && g.blocks[k2].insts[i2].results.contains(v);
            assert(is_position(g, k2, i2) && (k2 < ki || (k2 == ki && i2 < 0)) && !(
                g.blocks[k2].insts[i2].kind is Return) && g.blocks[k2].insts[i2].results.contains(v));
        }
    }
}

/// A callee that defines each value once and before it uses it can be copied into any
/// caller that its references fit: at each of its instructions, every operand to rename
/// is bound and no result is bound yet.
pub proof fn law_defined_callee_copyable(f: FuncModel, call: InstModel, g: FuncModel)
    requires
        g.blocks.len() >= 1,
        values_defined_once(g),
        uses_defined_before(g),
        callee_refs_fit(f, g),
    ensures
        all_copyable(f, g, copy_start(f, call, g)),
{
    let start = copy_start(f, call, g);
    assert forall|v: u32| start.vmap.contains_key(v) <==> g.blocks[0].params.contains(v) by {
        lemma_bind_params_dom(g.blocks[0].params, crate::inline::call_arguments(call), v);
    }
    assert forall|k: int, i: int|
        0 <= k < g.blocks.len() && 0 <= i < g.blocks[k].insts.len() implies #[trigger] crate::inline::copyable(
        f,
        g,
        state_at(f, g, start, k as nat, i as nat),
        g.blocks[k].insts[i],
    ) by {
        let s = state_at(f, g, start, k as nat, i as nat);
        let inst = g.blocks[k].insts[i];
        assert(is_position(g, k, i));
        if inst.kind is Return {
            lemma_bound_iff_defined(f, g, start, k as nat, i as nat, inst.args[0]);
        } else {
            if inst.uses_list {
                assert forall|j: int| 0 <= j < inst.args.len() implies s.vmap.contains_key(
                    #[trigger] inst.args[j],
                ) by {
                    lemma_bound_iff_defined(f, g, start, k as nat, i as nat, inst.args[j]);
                }
            }
            assert forall|j: int| 0 <= j < inst.results.len() implies !#[trigger] bind_results(
                s.vmap,
                inst.results.take(j),
                s.next_value,
            ).contains_key(inst.results[j]) by {
                let v = inst.results[j];
                lemma_bind_results_dom(s.vmap, inst.results.take(j), s.next_value, v);
                lemma_bound_iff_defined(f, g, start, k as nat, i as nat, v);
                if inst.results.take(j).contains(v) {
                    let j2 = choose|j2: int| 0 <= j2 < j && inst.results.take(j)[j2] == v;
                    assert(g.blocks[k].insts[i].results[j2] != g.blocks[k].insts[i].results[j]);
                }
                if g.blocks[0].params.contains(v) {
                    let p = choose|p: int| 0 <= p < g.blocks[0].params.len() && g.blocks[0].params[p] == v;
                    assert(g.blocks[0].params[p] != g.blocks[k].insts[i].results[j]);
                }
                if defined_before(g, v, k, i) && !g.blocks[0].params.contains(v) {
                    let (k2, i2) = choose|k2: int, i2: int|
                        #![trigger g.blocks[k2].insts[i2]]
                        is_position(g, k2, i2) && (k2 < k || (k2 == k && i2 < i)) && !(
                        g.blocks[k2].insts[i2].kind is Return) && g.blocks[k2].insts[i2].results.contains(v);
                    let j2 = choose|j2: int|
                        0 <= j2 < g.blocks[k2].insts[i2].results.len() && g.blocks[k2].insts[i2].results[j2] == v;
                    assert(g.blocks[k2].insts[i2].results[j2] != g.blocks[k].insts[i].results[j]);
                }
            }
        }
    }
}

/// The position in the inlined caller of the copy of the callee instruction at `(k, i)`,
/// where the call stood at `(sb, si)`: the entry block's instructions follow those before
/// the call, and callee block `k >= 1` becomes the caller block `sb + k`.
pub open spec fn copy_position(sb: int, si: int, k: int, i: int) -> (int, int) {
    if k == 0 {
        (sb, si + i)
    } else {
        (sb + k, i)
    }
}

/// Every jump or branch copied from the callee goes to the caller block made from the callee
/// block it went to: that block stands at `sb + k2` in the inlined caller and is numbered
/// `f.next_block + k2`, where `k2` is its index among the callee's blocks, never the entry.
pub proof fn law_inline_branches_to_copied_blocks(
    f: FuncModel,
    c: u32,
    g: FuncModel,
    sb: int,
    si: int,
    k: int,
    i: int,
    k2: int,
)
    requires
        can_inline(f, c, g),
        sole_position(f, c, sb, si),
        0 <= k < g.blocks.len(),
        0 <= i < g.blocks[k].insts.len(),
        0 <= k2 < g.blocks.len(),
        g.blocks[k].insts[i].kind == (InstKind::Jump { dest: g.blocks[k2].id })
            || g.blocks[k].insts[i].kind == (InstKind::Branch { dest: g.blocks[k2].id }),
    ensures
        1 <= k2,
        is_position(inline_result(f, c, g), copy_position(sb, si, k, i).0, copy_position(sb, si, k, i).1),
        inline_result(f, c, g).blocks[sb + k2].id == f.next_block + k2,
        g.blocks[k].insts[i].kind == (InstKind::Jump { dest: g.blocks[k2].id }) ==> inline_result(
            f,
            c,
            g,
        ).blocks[copy_position(sb, si, k, i).0].insts[copy_position(sb, si, k, i).1].kind == (InstKind::Jump {
            dest: (f.next_block + k2) as u32,
        }),
        g.blocks[k].insts[i].kind == (InstKind::Branch { dest: g.blocks[k2].id }) ==> inline_result(
            f,
            c,
            g,
        ).blocks[copy_position(sb, si, k, i).0].insts[copy_position(sb, si, k, i).1].kind == (InstKind::Branch {
            dest: (f.next_block + k2) as u32,
        }),
{
    lemma_position_of(f, c, sb, si);
    lemma_result_blocks(f, c, g, sb, si);
    let start = copy_start(f, f.blocks[sb].insts[si], g);
    let s = state_at(f, g, start, k as nat, i as nat);
    let inst = g.blocks[k].insts[i];
    assert(crate::inline::copyable(f, g, s, inst));
    let dest = g.blocks[k2].id;
    let w = later_block_index(g, dest);
    assert(has_later_block(g, dest));
    assert(1 <= w < g.blocks.len() && g.blocks[w].id == dest);
    assert(w == k2) by {
        if w != k2 {
            assert(g.blocks[w].id != g.blocks[k2].id);
        }
    }
    let res = inline_result(f, c, g);
    assert(res.blocks[sb + k2] == later_blocks(f, g, start)[k2 - 1]);
    let r = copied_inst(f, g, s, inst);
    assert(r.kind == remap_kind(f, g, inst.kind));
    if k == 0 {
        assert(res.blocks[sb].insts[si + i] == copied_block(f, g, start, 0)[i]);
    } else {
        assert(res.blocks[sb + k] == later_blocks(f, g, start)[k - 1]);
        assert(res.blocks[sb + k].insts[i] == copied_block(f, g, start, k)[i]);
    }
}

/// Every return of the callee becomes a jump to the continuation block, which stands right
/// after the caller blocks made from the callee, is numbered `f.next_block`, and takes the
/// returned value as its one parameter, the value numbered `f.next_value`.
pub proof fn law_inline_returns_to_continuation(f: FuncModel, c: u32, g: FuncModel, sb: int, si: int, k: int, i: int)
    requires
        can_inline(f, c, g),
        sole_position(f, c, sb, si),
        0 <= k < g.blocks.len(),
        0 <= i < g.blocks[k].insts.len(),
        g.blocks[k].insts[i].kind is Return,
    ensures
        is_position(inline_result(f, c, g), copy_position(sb, si, k, i).0, copy_position(sb, si, k, i).1),
        inline_result(f, c, g).blocks[copy_position(sb, si, k, i).0].insts[copy_position(
            sb,
            si,
            k,
            i,
        ).1].kind == (InstKind::Jump { dest: f.next_block }),
        inline_result(f, c, g).blocks[sb + g.blocks.len()].id == f.next_block,
        inline_result(f, c, g).blocks[sb + g.blocks.len()].params == seq![f.next_value],
{
    lemma_position_of(f, c, sb, si);
    lemma_result_blocks(f, c, g, sb, si);
    let start = copy_start(f, f.blocks[sb].insts[si], g);
    let s = state_at(f, g, start, k as nat, i as nat);
    let inst = g.blocks[k].insts[i];
    let res = inline_result(f, c, g);
    if k == 0 {
        assert(res.blocks[sb].insts[si + i] == copied_block(f, g, start, 0)[i]);
    } else {
        assert(res.blocks[sb + k] == later_blocks(f, g, start)[k - 1]);
        assert(res.blocks[sb + k].insts[i] == copied_block(f, g, start, k)[i]);
    }
}

/// Whether `f2` is `f` with its blocks laid out in another order: the block at index `x` of
/// `f` stands at index `pi(x)` of `f2`, `sigma` undoes `pi`, and all else is the same.
pub open spec fn blocks_reordered(
    f: FuncModel,
    f2: FuncModel,
    pi: spec_fn(int) -> int,
    sigma: spec_fn(int) -> int,
) -> bool {
    &&& f2.blocks.len() == f.blocks.len()
    &&& forall|x: int|
        0 <= x < f.blocks.len() ==> 0 <= #[trigger] pi(x) < f.blocks.len() && sigma(pi(x)) == x
            && f2.blocks[pi(x)] == f.blocks[x]
    &&& forall|y: int| 0 <= y < f.blocks.len() ==> 0 <= #[trigger] sigma(y) < f.blocks.len() && pi(sigma(y)) == y
    &&& f2.name == f.name
    &&& f2.ext_funcs == f.ext_funcs
    &&& f2.signatures == f.signatures
    &&& f2.returns == f.returns
    &&& f2.global_values == f.global_values
    &&& f2.next_value == f.next_value
    &&& f2.next_block == f.next_block
    &&& f2.next_inst == f.next_inst
}

/// The copy of a callee reads of the caller only its tables and counters, not its blocks.
proof fn lemma_state_same_caller_tables(f: FuncModel, f2: FuncModel, g: FuncModel, start: CopyState, k: nat, i: nat)
    requires
        f2.ext_funcs == f.ext_funcs,
        f2.signatures == f.signatures,
        f2.global_values == f.global_values,
        f2.next_block == f.next_block,
    ensures
        state_at(f2, g, start, k, i) == state_at(f, g, start, k, i),
    decreases k, i,
{
    if i > 0 {
        lemma_state_same_caller_tables(f, f2, g, start, k, (i - 1) as nat);
        let inst = g.blocks[k as int].insts[i - 1];
        assert(copied_result_count(f2, g, inst) == copied_result_count(f, g, inst));
    } else if k > 0 {
        lemma_state_same_caller_tables(f, f2, g, start, (k - 1) as nat, g.blocks[k - 1].insts.len());
    }
}

proof fn lemma_reordered_keeps_can_inline(
    f: FuncModel,
    f2: FuncModel,
    pi: spec_fn(int) -> int,
    sigma: spec_fn(int) -> int,
    c: u32,
    g: FuncModel,
)
    requires
        blocks_reordered(f, f2, pi, sigma),
        can_inline(f, c, g),
    ensures
        can_inline(f2, c, g),
{
    let (sb, si) = position_of(f, c);
    assert(sole_position(f, c, sb, si));
    let sb2 = pi(sb);
    assert(f2.blocks[sb2] == f.blocks[sb]);
    assert forall|b2: int, i2: int|
        is_position(f2, b2, i2) && #[trigger] f2.blocks[b2].insts[i2].id == c implies b2 == sb2 && i2 == si by {
        let x = sigma(b2);
        assert(pi(x) == b2);
        assert(f2.blocks[pi(x)] == f.blocks[x]);
        assert(is_position(f, x, i2));
        assert(f.blocks[x].insts[i2].id == c);
    }
    assert(sole_position(f2, c, sb2, si));
    lemma_position_of(f2, c, sb2, si);
    let call = f.blocks[sb].insts[si];
    assert(f2.blocks[sb2].insts[si] == call);
    let start = copy_start(f, call, g);
    assert(copy_start(f2, call, g) == start);
    lemma_state_same_caller_tables(f, f2, g, start, g.blocks.len() as nat, 0);
    assert forall|k: int, i: int|
        0 <= k < g.blocks.len() && 0 <= i < g.blocks[k].insts.len() implies #[trigger] crate::inline::copyable(
        f2,
        g,
        state_at(f2, g, start, k as nat, i as nat),
        g.blocks[k].insts[i],
    ) by {
        lemma_state_same_caller_tables(f, f2, g, start, k as nat, i as nat);
        assert(crate::inline::copyable(f, g, state_at(f, g, start, k as nat, i as nat), g.blocks[k].insts[i]));
        assert(copied_result_count(f2, g, g.blocks[k].insts[i]) == copied_result_count(f, g, g.blocks[k].insts[i]));
    }
}

proof fn lemma_reordered_back(
    f: FuncModel,
    f2: FuncModel,
    pi: spec_fn(int) -> int,
    sigma: spec_fn(int) -> int,
)
    requires
        blocks_reordered(f, f2, pi, sigma),
    ensures
        blocks_reordered(f2, f, sigma, pi),
{
    assert forall|y: int| 0 <= y < f2.blocks.len() implies 0 <= #[trigger] sigma(y) < f2.blocks.len() && pi(
        sigma(y),
    ) == y && f.blocks[sigma(y)] == f2.blocks[y] by {
        let x = sigma(y);
        assert(f2.blocks[pi(x)] == f.blocks[x]);
    }
}

/// Whether a call can be inlined does not depend on where its block, or any other block,
/// stands in the caller: laying the caller's blocks out in another order leaves the answer
/// unchanged.
pub proof fn law_can_inline_ignores_block_order(
    f: FuncModel,
    f2: FuncModel,
    pi: spec_fn(int) -> int,
    sigma: spec_fn(int) -> int,
    c: u32,
    g: FuncModel,
)
    requires
        blocks_reordered(f, f2, pi, sigma),
    ensures
        can_inline(f, c, g) == can_inline(f2, c, g),
{
    lemma_reordered_back(f, f2, pi, sigma);
    if can_inline(f, c, g) {
        lemma_reordered_keeps_can_inline(f, f2, pi, sigma, c, g);
    }
    if can_inline(f2, c, g) {
        lemma_reordered_keeps_can_inline(f2, f, sigma, pi, c, g);
    }
}

/// Inlining never lowers the next instruction number.
pub proof fn lemma_inline_next_inst_grows(f: FuncModel, c: u32, g: FuncModel)
    requires
        can_inline(f, c, g),
    ensures
        f.next_inst <= inline_result(f, c, g).next_inst,
{
    let (sb, si) = position_of(f, c);
    let start = copy_start(f, f.blocks[sb].insts[si], g);
    lemma_state_between(f, g, start, 0, 0);
}

/// Whether no instruction in the layout of `f` is numbered `id`.
pub open spec fn inst_absent(f: FuncModel, id: u32) -> bool {
    forall|b: int, i: int| is_position(f, b, i) ==> #[trigger] f.blocks[b].insts[i].id != id
}

/// Inlining brings back no instruction number that was used up before: a number below the
/// caller's next instruction number that no instruction of the caller carries is carried by
/// no instruction of the result either, and stays below its next instruction number.
pub proof fn lemma_inline_keeps_absent(f: FuncModel, c: u32, g: FuncModel, id: u32)
    requires
        can_inline(f, c, g),
        inst_absent(f, id),
        id < f.next_inst,
    ensures
        inst_absent(inline_result(f, c, g), id),
        id < inline_result(f, c, g).next_inst,
        f.next_inst <= inline_result(f, c, g).next_inst,
{
    let (sb, si) = position_of(f, c);
    lemma_result_blocks(f, c, g, sb, si);
    let start = copy_start(f, f.blocks[sb].insts[si], g);
    lemma_state_between(f, g, start, 0, 0);
    let res = inline_result(f, c, g);
    assert forall|b: int, i: int| is_position(res, b, i) implies #[trigger] res.blocks[b].insts[i].id != id by {
        lemma_origin(f, c, g, sb, si, b, i);
        let o = origin(f, g, sb, si, b, i);
        if o.0 {
            assert(f.blocks[o.1].insts[o.2].id != id);
        } else {
            lemma_copy_below_end(f, c, g, sb, si, o.1, o.2);
        }
    }
}

/// The number of instructions in `blocks`.
pub open spec fn inst_count(blocks: Seq<BlockModel>) -> nat
    decreases blocks.len(),
{
    if blocks.len() == 0 {
        0
    } else {
        inst_count(blocks.drop_last()) + blocks.last().insts.len()
    }
}

/// The number of fresh values that copies of `insts` into caller `f` define.
pub open spec fn values_made(f: FuncModel, g: FuncModel, insts: Seq<InstModel>) -> nat
    decreases insts.len(),
{
    if insts.len() == 0 {
        0
    } else {
        values_made(f, g, insts.drop_last()) + if insts.last().kind is Return {
            0nat
        } else {
            copied_result_count(f, g, insts.last())
        }
    }
}

/// The number of fresh values that copies of the instructions of `blocks` define.
pub open spec fn values_made_blocks(f: FuncModel, g: FuncModel, blocks: Seq<BlockModel>) -> nat
    decreases blocks.len(),
{
    if blocks.len() == 0 {
        0
    } else {
        values_made_blocks(f, g, blocks.drop_last()) + values_made(f, g, blocks.last().insts)
    }
}

proof fn lemma_state_counts(f: FuncModel, g: FuncModel, start: CopyState, k: nat, i: nat)
    requires
        k <= g.blocks.len(),
        k < g.blocks.len() ==> i <= g.blocks[k as int].insts.len(),
        k == g.blocks.len() ==> i == 0,
    ensures
        state_at(f, g, start, k, i).next_inst == start.next_inst + inst_count(g.blocks.take(k as int)) + i,
        state_at(f, g, start, k, i).next_value == start.next_value + values_made_blocks(f, g, g.blocks.take(k as int))
            + (if i == 0 { 0 } else { values_made(f, g, g.blocks[k as int].insts.take(i as int)) }),
    decreases k, i,
{
    if i > 0 {
        lemma_state_counts(f, g, start, k, (i - 1) as nat);
        let insts = g.blocks[k as int].insts;
        assert(insts.take(i as int).drop_last() =~= insts.take(i - 1));
        assert(insts.take(i as int).last() == insts[i - 1]);
        if i == 1 {
            assert(insts.take(0) =~= Seq::<InstModel>::empty());
        }
    } else if k > 0 {
        let n = g.blocks[k - 1].insts.len();
        lemma_state_counts(f, g, start, (k - 1) as nat, n);
        assert(g.blocks.take(k as int).drop_last() =~= g.blocks.take(k - 1));
        assert(g.blocks.take(k as int).last() == g.blocks[k - 1]);
        assert(g.blocks[k - 1].insts.take(n as int) =~= g.blocks[k - 1].insts);
        if n == 0 {
            assert(values_made(f, g, g.blocks[k - 1].insts) == 0);
        }
    } else {
        assert(g.blocks.take(0) =~= Seq::<BlockModel>::empty());
    }
}

/// A call can be inlined wherever it stands: a call (direct or indirect, with at least one
/// result and an instruction after it), placed once in any block of the caller, takes the
/// body of any callee that has a block, returns a value, has no more entry parameters than
/// the call has arguments, numbers its blocks distinctly, defines its values once and
/// before their use, has references that fit the caller and names only functions that the
/// caller knows, as long as the caller's numbers do not run out.
pub proof fn law_can_inline_when_fitting(f: FuncModel, c: u32, g: FuncModel, sb: int, si: int)
    requires
        sole_position(f, c, sb, si),
        f.blocks[sb].insts[si].kind is Call || f.blocks[sb].insts[si].kind is CallIndirect,
        f.blocks[sb].insts[si].num_fixed <= f.blocks[sb].insts[si].args.len(),
        f.blocks[sb].insts[si].results.len() >= 1,
        si + 1 < f.blocks[sb].insts.len(),
        g.blocks.len() >= 1,
        g.returns >= 1,
        g.blocks[0].params.len() + f.blocks[sb].insts[si].num_fixed <= f.blocks[sb].insts[si].args.len(),
        block_ids_distinct(g),
        values_defined_once(g),
        uses_defined_before(g),
        callee_refs_fit(f, g),
        forall|j: int| 0 <= j < g.ext_funcs.len() ==> has_named(f.ext_funcs, #[trigger] g.ext_funcs[j].name),
        f.ext_funcs.len() <= u32::MAX,
        f.next_inst + inst_count(g.blocks) <= u32::MAX,
        f.next_value + 1 + values_made_blocks(f, g, g.blocks) <= u32::MAX,
        f.next_block + g.blocks.len() <= u32::MAX,
        f.global_values.len() + g.global_values.len() <= u32::MAX,
    ensures
        can_inline(f, c, g),
{
    lemma_position_of(f, c, sb, si);
    let call = f.blocks[sb].insts[si];
    let start = copy_start(f, call, g);
    law_defined_callee_copyable(f, call, g);
    lemma_state_counts(f, g, start, g.blocks.len() as nat, 0);
    assert(g.blocks.take(g.blocks.len() as int) =~= g.blocks);
}

} // verus!
