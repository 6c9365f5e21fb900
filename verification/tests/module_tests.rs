use nitrousoxide::ir::{Block, ExtFunc, ExtName, Func, Inst, InstKind};
use nitrousoxide::module::{
    bytes_eq, call_refs_are_valid, data_id_name, data_to_declare, find_func_in_module, find_func_in_modules, first_data_mismatch, func_id_name,
    inline_calls, needs_declaration, rename_ext_funcs, should_inline, SymbolKind, BitcodeModule,
};

fn user(index: u32) -> ExtName {
    ExtName::User { namespace: 0, index }
}

fn leaf(name: ExtName, marker: u64) -> Func {
    Func {
        name,
        blocks: vec![Block {
            id: 0,
            params: vec![0],
            insts: vec![Inst {
                id: 0,
                data: marker,
                kind: InstKind::Return,
                args: vec![0],
                num_fixed: 0,
                uses_list: true,
                results: vec![],
            }],
        }],
        ext_funcs: vec![],
        signatures: vec![1, 1, 1, 1, 1],
        returns: 1,
        global_values: vec![],
        next_value: 1,
        next_block: 1,
        next_inst: 1,
    }
}

fn module(functions: Vec<Func>, strings: Vec<(ExtName, &str)>) -> BitcodeModule {
    BitcodeModule {
        functions,
        imports: vec![],
        data_symbols: vec![],
        strings: strings.into_iter().map(|(n, s)| (n, s.as_bytes().to_vec())).collect(),
    }
}

#[test]
fn inline_only_fib() {
    let m = module(
        vec![leaf(user(1), 50), leaf(user(2), 60)],
        vec![(user(1), "fib"), (user(2), "other"), (user(3), "main")],
    );
    assert!(should_inline(&m, &user(1)));
    assert!(!should_inline(&m, &user(2)));
    assert!(!should_inline(&m, &user(9)));
}

#[test]
fn find_function_by_text() {
    let m = module(vec![leaf(user(1), 50), leaf(user(2), 60)], vec![(user(1), "fib"), (user(2), "other")]);
    let f = find_func_in_module(&m, &"other".as_bytes().to_vec()).unwrap();
    assert_eq!(f.name, user(2));
    assert_eq!(f.blocks[0].insts[0].data, 60);
    assert!(find_func_in_module(&m, &"main".as_bytes().to_vec()).is_none());
    // Two functions with the same text: neither is found.
    let m2 = module(vec![leaf(user(1), 50), leaf(user(2), 60)], vec![(user(1), "fib"), (user(2), "fib")]);
    assert!(find_func_in_module(&m2, &"fib".as_bytes().to_vec()).is_none());
}

#[test]
fn find_function_in_first_module() {
    let m0 = module(vec![leaf(user(1), 50)], vec![(user(1), "a")]);
    let m1 = module(vec![leaf(user(1), 51)], vec![(user(1), "b")]);
    let m2 = module(vec![leaf(user(1), 52)], vec![(user(1), "b")]);
    let ms = vec![m0, m1, m2];
    let (k, f) = find_func_in_modules(&ms, &"b".as_bytes().to_vec()).unwrap();
    assert_eq!(k, 1);
    assert_eq!(f.blocks[0].insts[0].data, 51);
    assert!(find_func_in_modules(&ms, &"c".as_bytes().to_vec()).is_none());
}

#[test]
fn inline_calls_to_fib() {
    // main: v1 = call fib(v0); v2 = call other(v1); return v2.
    let mut main = Func {
        name: user(3),
        blocks: vec![Block {
            id: 0,
            params: vec![0],
            insts: vec![
                Inst { id: 0, data: 1, kind: InstKind::Call { func_ref: 0 }, args: vec![0], num_fixed: 0, uses_list: true, results: vec![1] },
                Inst { id: 1, data: 2, kind: InstKind::Call { func_ref: 1 }, args: vec![1], num_fixed: 0, uses_list: true, results: vec![2] },
                Inst { id: 2, data: 3, kind: InstKind::Return, args: vec![2], num_fixed: 0, uses_list: true, results: vec![] },
            ],
        }],
        ext_funcs: vec![ExtFunc { name: user(1), signature: 0 }, ExtFunc { name: user(2), signature: 0 }],
        signatures: vec![1, 1, 1, 1, 1],
        returns: 1,
        global_values: vec![],
        next_value: 3,
        next_block: 1,
        next_inst: 3,
    };
    let m = module(
        vec![leaf(user(1), 50), leaf(user(2), 60)],
        vec![(user(1), "fib"), (user(2), "other"), (user(3), "main")],
    );
    assert!(inline_calls(&mut main, &m));
    assert_eq!(main.blocks.len(), 2);
    // The call to fib became a jump; the call to other stays.
    let kinds: Vec<InstKind> = main.blocks[0].insts.iter().map(|i| i.kind).collect();
    assert_eq!(kinds, vec![InstKind::Jump { dest: 1 }]);
    assert_eq!(main.blocks[0].insts[0].args, vec![0]);
    let kinds: Vec<InstKind> = main.blocks[1].insts.iter().map(|i| i.kind).collect();
    assert_eq!(kinds, vec![InstKind::Call { func_ref: 1 }, InstKind::Return]);
    assert_eq!(main.blocks[1].insts[0].args, vec![3]);
}

#[test]
fn inline_calls_refused_where_fib_is_last() {
    // The call to fib is the last instruction of its block: it cannot be inlined.
    let mut main = Func {
        name: user(3),
        blocks: vec![Block {
            id: 0,
            params: vec![0],
            insts: vec![Inst { id: 0, data: 1, kind: InstKind::Call { func_ref: 0 }, args: vec![0], num_fixed: 0, uses_list: true, results: vec![1] }],
        }],
        ext_funcs: vec![ExtFunc { name: user(1), signature: 0 }],
        signatures: vec![1, 1, 1, 1, 1],
        returns: 1,
        global_values: vec![],
        next_value: 2,
        next_block: 1,
        next_inst: 1,
    };
    let m = module(vec![leaf(user(1), 50)], vec![(user(1), "fib")]);
    assert!(!inline_calls(&mut main, &m));
}

#[test]
fn data_declarations() {
    let m = BitcodeModule {
        functions: vec![],
        imports: vec![(user(4), SymbolKind::Function), (user(5), SymbolKind::Data), (user(6), SymbolKind::Data)],
        data_symbols: vec![user(7)],
        strings: vec![],
    };
    assert_eq!(data_to_declare(&m), vec![user(5), user(6), user(7)]);
}

#[test]
fn declared_names() {
    assert_eq!(func_id_name(4), ExtName::User { namespace: 0, index: 4 });
    assert_eq!(data_id_name(4), ExtName::User { namespace: 1, index: 4 });
    assert!(needs_declaration(&ExtFunc { name: user(1), signature: 0 }));
    assert!(!needs_declaration(&ExtFunc { name: ExtName::LibCall(2), signature: 0 }));
}

#[test]
fn renamed_after_declaration() {
    let mut f = leaf(user(1), 1);
    f.ext_funcs = vec![
        ExtFunc { name: user(8), signature: 3 },
        ExtFunc { name: ExtName::LibCall(2), signature: 4 },
    ];
    f.signatures = vec![0, 1, 2, 1, 3];
    f.returns = 2;
    rename_ext_funcs(&mut f, &vec![Some(0), None]);
    assert_eq!(
        f.ext_funcs,
        vec![ExtFunc { name: func_id_name(0), signature: 3 }, ExtFunc { name: ExtName::LibCall(2), signature: 4 }]
    );
    assert_eq!(f.signatures, vec![0, 1, 2, 1, 3]);
    assert_eq!(f.returns, 2);
}

#[test]
fn data_declarations_checked_in_order() {
    let names = vec![data_id_name(4), data_id_name(5), data_id_name(6)];
    assert_eq!(first_data_mismatch(&names, &vec![4, 5, 6]), None);
    assert_eq!(first_data_mismatch(&names, &vec![4, 7, 8]), Some(1));
    // A function's name is not a data object's name, though the numbers agree.
    assert_eq!(first_data_mismatch(&vec![func_id_name(0)], &vec![0]), Some(0));
    assert_eq!(first_data_mismatch(&vec![], &vec![]), None);
}

#[test]
fn byte_strings() {
    assert!(bytes_eq(&vec![1, 2], &vec![1, 2]));
    assert!(!bytes_eq(&vec![1, 2], &vec![1, 3]));
    assert!(!bytes_eq(&vec![1, 2], &vec![1]));
}

#[test]
fn name_texts() {
    let m = module(vec![], vec![(user(1), "one"), (user(1), "again"), (user(2), "two")]);
    assert_eq!(m.get_str(&user(1)), Some(&"one".as_bytes().to_vec()));
    assert_eq!(m.get_str(&user(2)), Some(&"two".as_bytes().to_vec()));
    assert_eq!(m.get_str(&user(3)), None);
}

#[test]
fn call_references_checked() {
    let mut f = leaf(user(1), 1);
    assert!(call_refs_are_valid(&f));
    f.blocks[0].insts.insert(
        0,
        Inst { id: 5, data: 2, kind: InstKind::Call { func_ref: 0 }, args: vec![], num_fixed: 0, uses_list: true, results: vec![1] },
    );
    assert!(!call_refs_are_valid(&f));
    f.ext_funcs.push(ExtFunc { name: user(4), signature: 0 });
    assert!(call_refs_are_valid(&f));
}
