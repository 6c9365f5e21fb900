use nitrousoxide::inline::{find_callsites, get_funcref_for_extfunc_name, inline_allowed, inlinefn_into};
use nitrousoxide::ir::{Block, ExtFunc, ExtName, Func, Inst, InstKind};

fn inst(id: u32, data: u64, kind: InstKind, args: Vec<u32>, uses_list: bool, results: Vec<u32>) -> Inst {
    Inst { id, data, kind, args, num_fixed: 0, uses_list, results }
}

fn user(index: u32) -> ExtName {
    ExtName::User { namespace: 0, index }
}

/// Caller: v1 = call fn0(v0); v2 = iadd v1, v1; return v2.
fn simple_caller() -> Func {
    Func {
        name: user(1),
        blocks: vec![Block {
            id: 0,
            params: vec![0],
            insts: vec![
                inst(0, 11, InstKind::Call { func_ref: 0 }, vec![0], true, vec![1]),
                inst(1, 12, InstKind::Other, vec![1, 1], false, vec![2]),
                inst(2, 13, InstKind::Return, vec![2], true, vec![]),
            ],
        }],
        ext_funcs: vec![ExtFunc { name: user(5), signature: 0 }],
        signatures: vec![1, 1, 1, 1, 1],
        returns: 1,
        global_values: vec![],
        next_value: 3,
        next_block: 1,
        next_inst: 3,
    }
}

/// Callee: v1 = iconst; v2 = iadd v0, v1; return v2.
fn simple_callee() -> Func {
    Func {
        name: user(5),
        blocks: vec![Block {
            id: 0,
            params: vec![0],
            insts: vec![
                inst(0, 7, InstKind::Other, vec![], false, vec![1]),
                inst(1, 8, InstKind::Other, vec![0, 1], false, vec![2]),
                inst(2, 9, InstKind::Return, vec![2], true, vec![]),
            ],
        }],
        ext_funcs: vec![],
        signatures: vec![1, 1, 1, 1, 1],
        returns: 1,
        global_values: vec![],
        next_value: 3,
        next_block: 1,
        next_inst: 3,
    }
}

fn summary(i: &Inst) -> (u32, u64, InstKind, Vec<u32>, Vec<u32>) {
    (i.id, i.data, i.kind, i.args.clone(), i.results.clone())
}

#[test]
fn inline_single_block_callee() {
    let mut caller = simple_caller();
    let callee = simple_callee();
    inlinefn_into(&mut caller, 0, &callee);
    assert_eq!(caller.blocks.len(), 2);
    let head = &caller.blocks[0];
    assert_eq!(head.id, 0);
    assert_eq!(head.params, vec![0]);
    let got: Vec<_> = head.insts.iter().map(summary).collect();
    assert_eq!(
        got,
        vec![
            (3, 7, InstKind::Other, vec![], vec![4]),
            (4, 8, InstKind::Other, vec![0, 4], vec![5]),
            (5, 0, InstKind::Jump { dest: 1 }, vec![5], vec![]),
        ]
    );
    let cont = &caller.blocks[1];
    assert_eq!(cont.id, 1);
    assert_eq!(cont.params, vec![3]);
    let got: Vec<_> = cont.insts.iter().map(summary).collect();
    assert_eq!(
        got,
        vec![
            (1, 12, InstKind::Other, vec![3, 3], vec![2]),
            (2, 13, InstKind::Return, vec![2], vec![]),
        ]
    );
    assert_eq!(caller.next_value, 6);
    assert_eq!(caller.next_block, 2);
    assert_eq!(caller.next_inst, 6);
    assert_eq!(caller.ext_funcs.len(), 1);
}

/// A callee with two blocks, a branch, a call and a global value, inlined into the middle
/// of the second block of a caller.
#[test]
fn inline_multi_block_callee() {
    let caller = Func {
        name: user(1),
        blocks: vec![
            Block { id: 0, params: vec![], insts: vec![inst(0, 1, InstKind::Jump { dest: 1 }, vec![], true, vec![])] },
            Block {
                id: 1,
                params: vec![10],
                insts: vec![
                    inst(1, 2, InstKind::Other, vec![10], false, vec![11]),
                    Inst {
                        id: 2,
                        data: 3,
                        kind: InstKind::CallIndirect { sig_ref: 2 },
                        args: vec![11, 10],
                        num_fixed: 1,
                        uses_list: true,
                        results: vec![12],
                    },
                    inst(3, 4, InstKind::Return, vec![12], true, vec![]),
                ],
            },
            Block { id: 2, params: vec![], insts: vec![inst(4, 5, InstKind::Return, vec![10], true, vec![])] },
        ],
        ext_funcs: vec![ExtFunc { name: user(9), signature: 2 }, ExtFunc { name: user(7), signature: 3 }],
        signatures: vec![1, 1, 1, 1, 1],
        returns: 1,
        global_values: vec![100, 101],
        next_value: 13,
        next_block: 3,
        next_inst: 5,
    };
    let callee = Func {
        name: user(5),
        blocks: vec![
            Block {
                id: 4,
                params: vec![0],
                insts: vec![
                    inst(0, 20, InstKind::GlobalValue { global_value: 0 }, vec![], false, vec![1]),
                    Inst {
                        id: 1,
                        data: 21,
                        kind: InstKind::Branch { dest: 6 },
                        args: vec![0],
                        num_fixed: 1,
                        uses_list: true,
                        results: vec![],
                    },
                    inst(2, 22, InstKind::Return, vec![1], true, vec![]),
                ],
            },
            Block {
                id: 6,
                params: vec![],
                insts: vec![
                    inst(3, 23, InstKind::Call { func_ref: 0 }, vec![0], true, vec![2]),
                    inst(4, 24, InstKind::Return, vec![2], true, vec![]),
                ],
            },
        ],
        ext_funcs: vec![ExtFunc { name: user(7), signature: 0 }],
        signatures: vec![1, 1, 1, 1, 1],
        returns: 1,
        global_values: vec![200],
        next_value: 3,
        next_block: 7,
        next_inst: 5,
    };
    let mut f = caller;
    inlinefn_into(&mut f, 2, &callee);
    let ids: Vec<u32> = f.blocks.iter().map(|b| b.id).collect();
    assert_eq!(ids, vec![0, 1, 4, 3, 2]);
    let head: Vec<_> = f.blocks[1].insts.iter().map(summary).collect();
    assert_eq!(
        head,
        vec![
            (1, 2, InstKind::Other, vec![10], vec![11]),
            (5, 20, InstKind::GlobalValue { global_value: 2 }, vec![], vec![14]),
            (6, 21, InstKind::Branch { dest: 4 }, vec![10], vec![]),
            (7, 0, InstKind::Jump { dest: 3 }, vec![14], vec![]),
        ]
    );
    let later: Vec<_> = f.blocks[2].insts.iter().map(summary).collect();
    assert_eq!(
        later,
        vec![
            (8, 23, InstKind::Call { func_ref: 1 }, vec![10], vec![15]),
            (9, 0, InstKind::Jump { dest: 3 }, vec![15], vec![]),
        ]
    );
    assert!(f.blocks[2].params.is_empty());
    assert_eq!(f.blocks[3].params, vec![13]);
    let cont: Vec<_> = f.blocks[3].insts.iter().map(summary).collect();
    assert_eq!(cont, vec![(3, 4, InstKind::Return, vec![13], vec![])]);
    assert_eq!(f.global_values, vec![100, 101, 200]);
    assert_eq!(f.next_value, 16);
    assert_eq!(f.next_block, 5);
    assert_eq!(f.next_inst, 10);
}

/// A fixed operand of a value list is renamed twice where its first name is bound too.
#[test]
fn inline_fixed_operand_renamed_twice() {
    let mut caller = simple_caller();
    let callee = Func {
        name: user(5),
        blocks: vec![Block {
            id: 0,
            params: vec![3],
            insts: vec![
                inst(0, 29, InstKind::Other, vec![], false, vec![0]),
                Inst {
                    id: 1,
                    data: 30,
                    kind: InstKind::Other,
                    args: vec![3, 3],
                    num_fixed: 1,
                    uses_list: true,
                    results: vec![1],
                },
                inst(2, 31, InstKind::Return, vec![1], true, vec![]),
            ],
        }],
        ext_funcs: vec![],
        signatures: vec![1, 1, 1, 1, 1],
        returns: 1,
        global_values: vec![],
        next_value: 4,
        next_block: 1,
        next_inst: 3,
    };
    inlinefn_into(&mut caller, 0, &callee);
    // v3 is bound to the call's argument v0, and v0 to the fresh v4: the fixed operand
    // becomes v4, the other one v0.
    let head: Vec<_> = caller.blocks[0].insts.iter().map(summary).collect();
    assert_eq!(head[1], (4, 30, InstKind::Other, vec![4, 0], vec![5]));
    assert_eq!(head[2], (5, 0, InstKind::Jump { dest: 1 }, vec![5], vec![]));
}

#[test]
fn callsites_in_layout_order() {
    let f = Func {
        name: user(1),
        blocks: vec![
            Block {
                id: 0,
                params: vec![],
                insts: vec![
                    inst(7, 0, InstKind::Call { func_ref: 1 }, vec![], true, vec![0]),
                    inst(8, 0, InstKind::CallIndirect { sig_ref: 2 }, vec![0], true, vec![1]),
                    inst(9, 0, InstKind::Jump { dest: 1 }, vec![], true, vec![]),
                ],
            },
            Block {
                id: 1,
                params: vec![],
                insts: vec![
                    inst(3, 0, InstKind::Call { func_ref: 0 }, vec![], true, vec![2]),
                    inst(4, 0, InstKind::Return, vec![2], true, vec![]),
                ],
            },
        ],
        ext_funcs: vec![ExtFunc { name: user(20), signature: 0 }, ExtFunc { name: ExtName::LibCall(3), signature: 1 }],
        signatures: vec![1, 1, 1, 1, 1],
        returns: 1,
        global_values: vec![],
        next_value: 3,
        next_block: 2,
        next_inst: 10,
    };
    assert_eq!(find_callsites(&f), vec![(7, ExtName::LibCall(3)), (3, user(20))]);
}

#[test]
fn funcref_is_first_of_name() {
    let mut f = simple_caller();
    f.ext_funcs = vec![
        ExtFunc { name: user(2), signature: 0 },
        ExtFunc { name: user(5), signature: 1 },
        ExtFunc { name: user(5), signature: 2 },
    ];
    assert_eq!(get_funcref_for_extfunc_name(&f, &user(5)), Some(1));
    assert_eq!(get_funcref_for_extfunc_name(&f, &user(2)), Some(0));
    assert_eq!(get_funcref_for_extfunc_name(&f, &user(6)), None);
}

/// Blocks and instructions numbered distinctly, and every number below the next fresh one.
fn numbering_sound(f: &Func) -> bool {
    let mut block_ids = Vec::new();
    let mut inst_ids = Vec::new();
    let mut values = Vec::new();
    for b in &f.blocks {
        values.extend(b.params.iter().copied());
        for i in &b.insts {
            values.extend(i.results.iter().copied());
        }
    }
    let mut sorted = values.clone();
    sorted.sort();
    sorted.dedup();
    if sorted.len() != values.len() {
        return false;
    }
    for b in &f.blocks {
        if b.id >= f.next_block || block_ids.contains(&b.id) {
            return false;
        }
        block_ids.push(b.id);
        if b.params.iter().any(|v| *v >= f.next_value) {
            return false;
        }
        for i in &b.insts {
            if i.id >= f.next_inst || inst_ids.contains(&i.id) {
                return false;
            }
            inst_ids.push(i.id);
            if i.results.iter().any(|v| *v >= f.next_value) {
                return false;
            }
        }
    }
    true
}

fn has_inst(f: &Func, id: u32) -> bool {
    f.blocks.iter().any(|b| b.insts.iter().any(|i| i.id == id))
}

#[test]
fn inlining_keeps_numbering_and_removes_call() {
    let mut caller = simple_caller();
    let callee = simple_callee();
    assert!(numbering_sound(&caller));
    assert!(inline_allowed(&caller, 0, &callee));
    inlinefn_into(&mut caller, 0, &callee);
    assert!(numbering_sound(&caller));
    assert!(!has_inst(&caller, 0));
}

#[test]
fn inlining_keeps_numbering_with_later_blocks() {
    let mut f = Func {
        name: user(1),
        blocks: vec![
            Block {
                id: 0,
                params: vec![0],
                insts: vec![
                    inst(0, 1, InstKind::Call { func_ref: 0 }, vec![0], true, vec![1]),
                    inst(1, 2, InstKind::Return, vec![1], true, vec![]),
                ],
            },
            Block { id: 1, params: vec![2], insts: vec![inst(2, 3, InstKind::Return, vec![2], true, vec![])] },
        ],
        ext_funcs: vec![ExtFunc { name: user(5), signature: 0 }],
        signatures: vec![1, 1, 1, 1, 1],
        returns: 1,
        global_values: vec![],
        next_value: 3,
        next_block: 2,
        next_inst: 3,
    };
    let callee = Func {
        name: user(5),
        blocks: vec![
            Block { id: 0, params: vec![0], insts: vec![inst(0, 4, InstKind::Jump { dest: 1 }, vec![], true, vec![])] },
            Block {
                id: 1,
                params: vec![],
                insts: vec![
                    inst(1, 5, InstKind::Other, vec![0], false, vec![1, 2]),
                    inst(2, 6, InstKind::Return, vec![2], true, vec![]),
                ],
            },
        ],
        ext_funcs: vec![],
        signatures: vec![1, 1, 1, 1, 1],
        returns: 1,
        global_values: vec![],
        next_value: 3,
        next_block: 2,
        next_inst: 3,
    };
    assert!(numbering_sound(&f));
    assert!(inline_allowed(&f, 0, &callee));
    inlinefn_into(&mut f, 0, &callee);
    assert!(numbering_sound(&f));
    assert!(!has_inst(&f, 0));
    let ids: Vec<u32> = f.blocks.iter().map(|b| b.id).collect();
    assert_eq!(ids, vec![0, 3, 2, 1]);
    assert_eq!(f.blocks[1].insts[0].results, vec![4, 5]);
    assert_eq!(f.blocks[2].params, vec![3]);
}

#[test]
fn inline_allowed_on_valid_call() {
    assert!(inline_allowed(&simple_caller(), 0, &simple_callee()));
}

#[test]
fn inline_refused_without_call() {
    // No instruction numbered 9; instruction 1 is not a call.
    assert!(!inline_allowed(&simple_caller(), 9, &simple_callee()));
    assert!(!inline_allowed(&simple_caller(), 1, &simple_callee()));
}

#[test]
fn inline_refused_for_duplicate_call_number() {
    let mut caller = simple_caller();
    caller.blocks[0].insts[1].id = 0;
    assert!(!inline_allowed(&caller, 0, &simple_callee()));
}

#[test]
fn inline_refused_for_call_without_result() {
    let mut caller = simple_caller();
    caller.blocks[0].insts[0].results = vec![];
    assert!(!inline_allowed(&caller, 0, &simple_callee()));
}

#[test]
fn inline_refused_for_call_at_block_end() {
    let mut caller = simple_caller();
    caller.blocks[0].insts.truncate(1);
    assert!(!inline_allowed(&caller, 0, &simple_callee()));
}

#[test]
fn inline_refused_for_too_few_arguments() {
    let mut callee = simple_callee();
    callee.blocks[0].params = vec![0, 5];
    assert!(!inline_allowed(&simple_caller(), 0, &callee));
}

#[test]
fn inline_refused_for_unknown_callee_function() {
    let mut callee = simple_callee();
    callee.ext_funcs = vec![ExtFunc { name: user(77), signature: 0 }];
    assert!(!inline_allowed(&simple_caller(), 0, &callee));
}

#[test]
fn inline_refused_for_unbound_return_value() {
    let mut callee = simple_callee();
    callee.blocks[0].insts[2].args = vec![9];
    assert!(!inline_allowed(&simple_caller(), 0, &callee));
}

#[test]
fn inline_refused_for_undefined_list_operand() {
    let mut callee = simple_callee();
    callee.blocks[0].insts[1].uses_list = true;
    callee.blocks[0].insts[1].args = vec![0, 8];
    assert!(!inline_allowed(&simple_caller(), 0, &callee));
    // Outside a value list, an unbound operand is kept as it is.
    let mut callee = simple_callee();
    callee.blocks[0].insts[1].args = vec![0, 8];
    assert!(inline_allowed(&simple_caller(), 0, &callee));
}

#[test]
fn inline_refused_for_result_defined_twice() {
    let mut callee = simple_callee();
    callee.blocks[0].insts[1].results = vec![1];
    assert!(!inline_allowed(&simple_caller(), 0, &callee));
    let mut callee = simple_callee();
    callee.blocks[0].insts[0].results = vec![0];
    assert!(!inline_allowed(&simple_caller(), 0, &callee));
}

#[test]
fn inline_refused_for_branch_to_entry_block() {
    let mut callee = simple_callee();
    callee.blocks[0].insts[1].kind = InstKind::Branch { dest: 0 };
    assert!(!inline_allowed(&simple_caller(), 0, &callee));
}

#[test]
fn inline_refused_for_unknown_global_value() {
    let mut callee = simple_callee();
    callee.blocks[0].insts[0].kind = InstKind::GlobalValue { global_value: 0 };
    assert!(!inline_allowed(&simple_caller(), 0, &callee));
    callee.global_values = vec![5];
    assert!(inline_allowed(&simple_caller(), 0, &callee));
}

#[test]
fn inline_refused_for_duplicate_block_numbers() {
    let mut callee = simple_callee();
    callee.blocks.push(Block { id: 0, params: vec![], insts: vec![] });
    assert!(!inline_allowed(&simple_caller(), 0, &callee));
}

#[test]
fn inline_refused_for_empty_callee() {
    let mut callee = simple_callee();
    callee.blocks = vec![];
    assert!(!inline_allowed(&simple_caller(), 0, &callee));
}

#[test]
fn inline_refused_when_numbers_run_out() {
    let mut caller = simple_caller();
    caller.next_value = u32::MAX - 2;
    assert!(!inline_allowed(&caller, 0, &simple_callee()));
    caller.next_value = u32::MAX - 3;
    assert!(inline_allowed(&caller, 0, &simple_callee()));
    let mut caller = simple_caller();
    caller.next_inst = u32::MAX - 2;
    assert!(!inline_allowed(&caller, 0, &simple_callee()));
    let mut caller = simple_caller();
    caller.next_block = u32::MAX;
    assert!(!inline_allowed(&caller, 0, &simple_callee()));
}

/// A callee whose entry block calls `user(5)` with one result and returns it.
fn calling_callee(kind: InstKind, num_fixed: usize) -> Func {
    let mut callee = simple_callee();
    callee.blocks[0].insts = vec![
        Inst { id: 0, data: 40, kind, args: vec![0], num_fixed, uses_list: true, results: vec![1] },
        inst(1, 41, InstKind::Return, vec![1], true, vec![]),
    ];
    callee.ext_funcs = vec![ExtFunc { name: user(5), signature: 0 }];
    callee.signatures = vec![1];
    callee
}

#[test]
fn inline_call_results_follow_caller_signature() {
    // In the caller, `user(5)` has signature 1, which returns two values.
    let mut caller = simple_caller();
    caller.ext_funcs = vec![ExtFunc { name: user(5), signature: 1 }];
    caller.signatures = vec![1, 2];
    let callee = calling_callee(InstKind::Call { func_ref: 0 }, 0);
    assert!(inline_allowed(&caller, 0, &callee));
    inlinefn_into(&mut caller, 0, &callee);
    let head: Vec<_> = caller.blocks[0].insts.iter().map(summary).collect();
    assert_eq!(
        head,
        vec![
            (3, 40, InstKind::Call { func_ref: 0 }, vec![0], vec![4, 5]),
            (4, 0, InstKind::Jump { dest: 1 }, vec![4], vec![]),
        ]
    );
    assert_eq!(caller.next_value, 6);
    assert_eq!(caller.next_inst, 5);
}

#[test]
fn inline_indirect_call_uses_caller_signature_number() {
    // The signature number 1 is read in the caller's table, where it returns three values.
    let mut caller = simple_caller();
    caller.signatures = vec![1, 3];
    let callee = calling_callee(InstKind::CallIndirect { sig_ref: 1 }, 1);
    assert!(inline_allowed(&caller, 0, &callee));
    inlinefn_into(&mut caller, 0, &callee);
    let head: Vec<_> = caller.blocks[0].insts.iter().map(summary).collect();
    assert_eq!(head[0], (3, 40, InstKind::CallIndirect { sig_ref: 1 }, vec![0], vec![4, 5, 6]));
    assert_eq!(head[1], (4, 0, InstKind::Jump { dest: 1 }, vec![4], vec![]));
    assert_eq!(caller.next_value, 7);
}

#[test]
fn inline_refused_when_caller_signature_returns_fewer() {
    let mut caller = simple_caller();
    caller.signatures = vec![0];
    assert!(!inline_allowed(&caller, 0, &calling_callee(InstKind::Call { func_ref: 0 }, 0)));
    let mut caller = simple_caller();
    caller.signatures = vec![1];
    assert!(!inline_allowed(&caller, 0, &calling_callee(InstKind::CallIndirect { sig_ref: 4 }, 1)));
}

#[test]
fn inline_refused_for_callee_without_return_value() {
    let mut callee = simple_callee();
    callee.returns = 0;
    assert!(!inline_allowed(&simple_caller(), 0, &callee));
}

/// A callee over two blocks that defines each value once and before its use.
fn defined_callee() -> Func {
    Func {
        name: user(5),
        blocks: vec![
            Block {
                id: 0,
                params: vec![0],
                insts: vec![
                    inst(0, 50, InstKind::Other, vec![0], false, vec![1]),
                    inst(1, 51, InstKind::Jump { dest: 3 }, vec![1], true, vec![]),
                ],
            },
            Block {
                id: 3,
                params: vec![],
                insts: vec![
                    inst(2, 52, InstKind::Other, vec![0, 1], true, vec![2]),
                    inst(3, 53, InstKind::Return, vec![2], true, vec![]),
                ],
            },
        ],
        ext_funcs: vec![],
        signatures: vec![],
        returns: 1,
        global_values: vec![],
        next_value: 3,
        next_block: 4,
        next_inst: 4,
    }
}

#[test]
fn callee_defining_values_before_use_is_copyable() {
    let callee = defined_callee();
    assert!(inline_allowed(&simple_caller(), 0, &callee));
    let mut caller = simple_caller();
    inlinefn_into(&mut caller, 0, &callee);
    assert!(numbering_sound(&caller));
    // A use of a value that is only defined later is not copyable.
    let mut callee = defined_callee();
    callee.blocks[1].insts[0].args = vec![0, 2];
    assert!(!inline_allowed(&simple_caller(), 0, &callee));
}
