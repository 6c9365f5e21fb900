//! Bitcode modules: the functions, imports, data symbols and name table that the
//! loading of a bitcode file yields, and the decisions made on them before code is
//! generated: which function to compile, which calls to inline, which symbols to declare
//! and how external functions are renamed after their declaration.

use vstd::prelude::*;
use crate::inline_laws::{
    inst_absent, law_inline_keeps_numbering, law_inline_removes_call, lemma_inline_keeps_absent,
    lemma_inline_next_inst_grows,
};
use crate::ir::{copy_func, is_position, position_of, sole_position, well_numbered, ExtFunc, ExtName, Func, FuncModel, Inst, InstKind};
use crate::inline::{
    call_refs_valid, callsites_of, can_inline, law_callsites_are_the_calls, find_callsites, inline_allowed, inline_result,
    inlinefn_into,
};

verus! {

/// What an imported symbol is.
#[derive(PartialEq, Eq, Structural, Clone, Copy, Debug)]
pub enum SymbolKind {
    Function,
    Data,
}

/// A module loaded from a bitcode file. `strings` gives the text of each name.
pub struct BitcodeModule {
    pub functions: Vec<Func>,
    pub imports: Vec<(ExtName, SymbolKind)>,
    pub data_symbols: Vec<ExtName>,
    pub strings: Vec<(ExtName, Vec<u8>)>,
}

/// The mathematical value of a [`BitcodeModule`].
pub struct ModuleModel {
    pub functions: Seq<FuncModel>,
    pub imports: Seq<(ExtName, SymbolKind)>,
    pub data_symbols: Seq<ExtName>,
    pub strings: Seq<(ExtName, Seq<u8>)>,
}

impl View for BitcodeModule {
    type V = ModuleModel;

    open spec fn view(&self) -> ModuleModel {
        ModuleModel {
            functions: self.functions@.map_values(|f: Func| f@),
            imports: self.imports@,
            data_symbols: self.data_symbols@,
            strings: self.strings@.map_values(|e: (ExtName, Vec<u8>)| (e.0, e.1@)),
        }
    }
}

/// The text of `name` in a name table: that of its first entry, if it has one.
pub open spec fn text_of(strings: Seq<(ExtName, Seq<u8>)>, name: ExtName) -> Option<Seq<u8>>
    decreases strings.len(),
{
    if strings.len() == 0 {
        None
    } else if strings[0].0 == name {
        Some(strings[0].1)
    } else {
        text_of(strings.drop_first(), name)
    }
}

/// The name of the only function that calls may be inlined to.
pub open spec fn inlined_name() -> Seq<u8> {
    seq![102u8, 105u8, 98u8]
}

/// Whether a call to `name` is to be inlined.
pub open spec fn spec_should_inline(m: ModuleModel, name: ExtName) -> bool {
    text_of(m.strings, name) == Some(inlined_name())
}

/// Whether the `j`-th function of `m` has the text `name`.
pub open spec fn function_named(m: ModuleModel, j: int, name: Seq<u8>) -> bool {
    text_of(m.strings, m.functions[j].name) == Some(name)
}

/// The number of functions among the first `n` of `m` that have the text `name`.
pub open spec fn count_named(m: ModuleModel, n: int, name: Seq<u8>) -> nat
    decreases n,
{
    if n <= 0 {
        0
    } else {
        count_named(m, n - 1, name) + if function_named(m, n - 1, name) {
            1nat
        } else {
            0nat
        }
    }
}

/// The function of `m` with the text `name`, where exactly one function has it.
pub open spec fn spec_find_func(m: ModuleModel, name: Seq<u8>) -> Option<FuncModel> {
    if count_named(m, m.functions.len() as int, name) == 1 {
        Some(m.functions[choose|j: int| 0 <= j < m.functions.len() && function_named(m, j, name)])
    } else {
        None
    }
}

/// The index of the first module of `ms` that [`spec_find_func`] finds `name` in.
pub open spec fn first_module_with(ms: Seq<ModuleModel>, name: Seq<u8>) -> Option<int> {
    if exists|k: int| 0 <= k < ms.len() && #[trigger] spec_find_func(ms[k], name) is Some {
        Some(
            choose|k: int|
                0 <= k < ms.len() && spec_find_func(ms[k], name) is Some && forall|k2: int|
                    0 <= k2 < k ==> #[trigger] spec_find_func(ms[k2], name) is None,
        )
    } else {
        None
    }
}

/// Compares two byte strings.
pub fn bytes_eq(a: &Vec<u8>, b: &Vec<u8>) -> (r: bool)
    ensures
        r == (a@ == b@),
{
    if a.len() != b.len() {
        return false;
    }
    let mut i: usize = 0;
    while i < a.len()
        invariant
            a@.len() == b@.len(),
            i <= a@.len(),
            forall|j: int| 0 <= j < i ==> a@[j] == b@[j],
        decreases a.len() - i,
    {
        if a[i] != b[i] {
            return false;
        }
        i = i + 1;
    }
    assert(a@ =~= b@);
    true
}

/// The byte string [`inlined_name`].
fn inlined_name_bytes() -> (r: Vec<u8>)
    ensures
        r@ == inlined_name(),
{
    let mut r: Vec<u8> = Vec::new();
    r.push(102u8);
    r.push(105u8);
    r.push(98u8);
    assert(r@ =~= inlined_name());
    r
}

impl BitcodeModule {
    /// The text of `name`, from the first entry of the name table for it.
    pub fn get_str(&self, name: &ExtName) -> (r: Option<&Vec<u8>>)
        ensures
            match r {
                Some(s) => text_of(self@.strings, *name) == Some(s@),
                None => text_of(self@.strings, *name) is None,
            },
    {
        let mut i: usize = 0;
        assert(self@.strings.skip(0) =~= self@.strings);
        while i < self.strings.len()
            invariant
                i <= self.strings@.len(),
                text_of(self@.strings, *name) == text_of(self@.strings.skip(i as int), *name),
            decreases self.strings.len() - i,
        {
            assert(self@.strings.skip(i as int)[0] == (self.strings@[i as int].0, self.strings@[i as int].1@));
            assert(self@.strings.skip(i as int).drop_first() =~= self@.strings.skip(i + 1));
            if self.strings[i].0 == *name {
                return Some(&self.strings[i].1);
            }
            i = i + 1;
        }
        None
    }
}

/// Whether a call to the external function `name` is to be inlined: its text is `fib`.
pub fn should_inline(module: &BitcodeModule, name: &ExtName) -> (r: bool)
    ensures
        r == spec_should_inline(module@, *name),
{
    match module.get_str(name) {
        Some(s) => bytes_eq(s, &inlined_name_bytes()),
        None => false,
    }
}

/// The function of `module` with the text `func_name`, where exactly one function has it.
pub fn find_func_in_module(module: &BitcodeModule, func_name: &Vec<u8>) -> (r: Option<Func>)
    ensures
        match spec_find_func(module@, func_name@) {
            Some(g) => r matches Some(f) && f@ == g,
            None => r is None,
        },
{
    let ghost m = module@;
    let mut count: usize = 0;
    let mut found: usize = 0;
    let mut j: usize = 0;
    while j < module.functions.len()
        invariant
            j <= module.functions@.len(),
            m == module@,
            count as int == count_named(m, j as int, func_name@),
            count <= j,
            count >= 1 ==> found < j && function_named(m, found as int, func_name@),
            count == 0 ==> forall|j2: int| 0 <= j2 < j ==> !function_named(m, j2, func_name@),
            count == 1 ==> forall|j2: int| 0 <= j2 < j && function_named(m, j2, func_name@) ==> j2 == found,
        decreases module.functions.len() - j,
    {
        assert(m.functions[j as int] == module.functions@[j as int]@);
        let matches = match module.get_str(&module.functions[j].name) {
            Some(s) => bytes_eq(s, func_name),
            None => false,
        };
        assert(matches == function_named(m, j as int, func_name@));
        if matches {
            if count == 0 {
                found = j;
            }
            count = count + 1;
        }
        j = j + 1;
    }
    if count == 1 {
        proof {
            let w = choose|w: int| 0 <= w < m.functions.len() && function_named(m, w, func_name@);
            assert(function_named(m, found as int, func_name@));
            assert(w == found as int);
        }
        assert(m.functions[found as int] == module.functions@[found as int]@);
        Some(copy_func(&module.functions[found]))
    } else {
        None
    }
}

/// The first module of `modules` that has exactly one function with the text `func_name`,
/// with its index.
pub fn find_func_in_modules(modules: &Vec<BitcodeModule>, func_name: &Vec<u8>) -> (r: Option<(usize, Func)>)
    ensures
        match first_module_with(modules@.map_values(|m: BitcodeModule| m@), func_name@) {
            Some(k) => r matches Some((k2, f)) && k2 as int == k
                && spec_find_func(modules@[k].view(), func_name@) == Some(f@),
            None => r is None,
        },
{
    let ghost ms = modules@.map_values(|m: BitcodeModule| m@);
    let mut k: usize = 0;
    while k < modules.len()
        invariant
            k <= modules@.len(),
            ms == modules@.map_values(|m: BitcodeModule| m@),
            forall|k2: int| 0 <= k2 < k ==> #[trigger] spec_find_func(ms[k2], func_name@) is None,
        decreases modules.len() - k,
    {
        assert(ms[k as int] == modules@[k as int]@);
        match find_func_in_module(&modules[k], func_name) {
            Some(f) => {
                proof {
                    let w = choose|w: int|
                        0 <= w < ms.len() && spec_find_func(ms[w], func_name@) is Some && forall|k2: int|
                            0 <= k2 < w ==> #[trigger] spec_find_func(ms[k2], func_name@) is None;
                    assert(spec_find_func(ms[k as int], func_name@) is Some);
                    assert(w == k as int) by {
                        if w < k as int {
                            assert(spec_find_func(ms[w], func_name@) is None);
                        }
                        if w > k as int {
                            assert(spec_find_func(ms[k as int], func_name@) is None);
                        }
                    }
                }
                return Some((k, f));
            },
            None => {},
        }
        k = k + 1;
    }
    None
}

/// The caller after one call site `site` is considered: a call to `fib` is replaced by
/// the body of the function with that text, where the module has exactly one.
pub open spec fn inline_step(f: FuncModel, site: (u32, ExtName), m: ModuleModel) -> FuncModel {
    if spec_should_inline(m, site.1) && spec_find_func(m, inlined_name()) is Some {
        inline_result(f, site.0, spec_find_func(m, inlined_name()).unwrap())
    } else {
        f
    }
}

/// Whether the inlining that `inline_step` performs, if any, can be done.
pub open spec fn step_allowed(f: FuncModel, site: (u32, ExtName), m: ModuleModel) -> bool {
    spec_should_inline(m, site.1) && spec_find_func(m, inlined_name()) is Some ==> can_inline(
        f,
        site.0,
        spec_find_func(m, inlined_name()).unwrap(),
    )
}

/// The caller after the call sites `sites` are considered in turn.
pub open spec fn inline_sites(f: FuncModel, sites: Seq<(u32, ExtName)>, m: ModuleModel) -> FuncModel
    decreases sites.len(),
{
    if sites.len() == 0 {
        f
    } else {
        inline_sites(inline_step(f, sites[0], m), sites.drop_first(), m)
    }
}

/// Whether each inlining along `inline_sites` can be done.
pub open spec fn sites_allowed(f: FuncModel, sites: Seq<(u32, ExtName)>, m: ModuleModel) -> bool
    decreases sites.len(),
{
    sites.len() == 0 || (step_allowed(f, sites[0], m) && sites_allowed(
        inline_step(f, sites[0], m),
        sites.drop_first(),
        m,
    ))
}

/// Inlines, in layout order, each direct call of `func` whose callee is `fib`, taking the
/// body from `module`. The call sites are those `func` has before any inlining. Returns
/// whether every inlining could be done; where one cannot, `func` is left as the earlier
/// ones made it.
pub fn inline_calls(func: &mut Func, module: &BitcodeModule) -> (r: bool)
    ensures
        r == (call_refs_valid(old(func)@) && sites_allowed(old(func)@, callsites_of(old(func)@), module@)),
        r ==> final(func)@ == inline_sites(old(func)@, callsites_of(old(func)@), module@),
        r && well_numbered(old(func)@) && spec_find_func(module@, inlined_name()) is Some ==> forall|b: int, i: int|
            is_position(old(func)@, b, i) && (#[trigger] old(func)@.blocks[b].insts[i]).kind is Call && text_of(
                module@.strings,
                old(func)@.ext_funcs[old(func)@.blocks[b].insts[i].kind->func_ref as int].name,
            ) == Some(inlined_name()) ==> inst_absent(final(func)@, old(func)@.blocks[b].insts[i].id),
{
    let ghost m = module@;
    let ghost f0 = func@;
    if !call_refs_are_valid(func) {
        return false;
    }
    let callsites = find_callsites(func);
    let ghost sites = callsites@;
    let mut i: usize = 0;
    assert(sites.skip(0) =~= sites);
    while i < callsites.len()
        invariant
            i <= sites.len(),
            sites == callsites@,
            sites == callsites_of(f0),
            f0 == old(func)@,
            call_refs_valid(f0),
            m == module@,
            sites_allowed(f0, sites, m) == sites_allowed(func@, sites.skip(i as int), m),
            inline_sites(f0, sites, m) == inline_sites(func@, sites.skip(i as int), m),
        decreases callsites.len() - i,
    {
        let (callsite, name) = callsites[i];
        assert(sites.skip(i as int)[0] == (callsite, name));
        assert(sites.skip(i as int).drop_first() =~= sites.skip(i + 1));
        if should_inline(module, &name) {
            match module.get_str(&name) {
                Some(text) => {
                    match find_func_in_module(module, text) {
                        Some(callee) => {
                            if !inline_allowed(func, callsite, &callee) {
                                assert(text@ == inlined_name());
                                assert(!step_allowed(func@, (callsite, name), m));
                                assert(!sites_allowed(func@, sites.skip(i as int), m));
                                return false;
                            }
                            inlinefn_into(func, callsite, &callee);
                        },
                        None => {},
                    }
                },
                None => {},
            }
        }
        i = i + 1;
    }
    proof {
        if well_numbered(f0) && spec_find_func(m, inlined_name()) is Some {
            law_inline_calls_remove_fib_calls(f0, m);
        }
    }
    true
}

/// Whether every direct call of `func` refers to an entry of its external function table.
pub fn call_refs_are_valid(func: &Func) -> (r: bool)
    ensures
        r == call_refs_valid(func@),
{
    let ghost f = func@;
    let mut b: usize = 0;
    while b < func.blocks.len()
        invariant
            f == func@,
            b <= f.blocks.len(),
            forall|b2: int, i2: int|
                0 <= b2 < b && is_position(f, b2, i2) ==> ((#[trigger] f.blocks[b2].insts[i2]).kind matches InstKind::Call {
                    func_ref,
                } ==> func_ref < f.ext_funcs.len()),
        decreases func.blocks.len() - b,
    {
        let insts = &func.blocks[b].insts;
        assert(f.blocks[b as int].insts == insts@.map_values(|x: Inst| x@));
        let mut i: usize = 0;
        while i < insts.len()
            invariant
                f == func@,
                b < f.blocks.len(),
                insts == &func.blocks@[b as int].insts,
                f.blocks[b as int].insts == insts@.map_values(|x: Inst| x@),
                i <= insts@.len(),
                forall|b2: int, i2: int|
                    (0 <= b2 < b || (b2 == b && i2 < i)) && is_position(f, b2, i2) ==> ((
                    #[trigger] f.blocks[b2].insts[i2]).kind matches InstKind::Call { func_ref } ==> func_ref
                        < f.ext_funcs.len()),
            decreases insts.len() - i,
        {
            assert(f.blocks[b as int].insts[i as int] == insts@[i as int]@);
            if let InstKind::Call { func_ref } = insts[i].kind {
                if func_ref as usize >= func.ext_funcs.len() {
                    assert(is_position(f, b as int, i as int));
                    return false;
                }
            }
            i = i + 1;
        }
        b = b + 1;
    }
    true
}

/// The names among `imports` that are data, in order.
pub open spec fn data_imports(imports: Seq<(ExtName, SymbolKind)>) -> Seq<ExtName>
    decreases imports.len(),
{
    if imports.len() == 0 {
        Seq::empty()
    } else {
        let rest = data_imports(imports.drop_last());
        if imports.last().1 == SymbolKind::Data {
            rest.push(imports.last().0)
        } else {
            rest
        }
    }
}

/// The data symbols to declare before a function of `m` is compiled, in order: the
/// imports that are data, then the module's own data symbols.
pub open spec fn spec_data_to_declare(m: ModuleModel) -> Seq<ExtName> {
    data_imports(m.imports) + m.data_symbols
}

/// Lists the data symbols to declare before a function of `module` is compiled.
pub fn data_to_declare(module: &BitcodeModule) -> (r: Vec<ExtName>)
    ensures
        r@ == spec_data_to_declare(module@),
{
    let mut r: Vec<ExtName> = Vec::new();
    let mut i: usize = 0;
    while i < module.imports.len()
        invariant
            i <= module.imports@.len(),
            r@ == data_imports(module.imports@.take(i as int)),
        decreases module.imports.len() - i,
    {
        assert(module.imports@.take(i + 1).drop_last() =~= module.imports@.take(i as int));
        if module.imports[i].1 == SymbolKind::Data {
            r.push(module.imports[i].0);
        }
        i = i + 1;
    }
    assert(module.imports@.take(module.imports@.len() as int) =~= module.imports@);
    let mut j: usize = 0;
    let ghost before = r@;
    while j < module.data_symbols.len()
        invariant
            j <= module.data_symbols@.len(),
            r@ == before + module.data_symbols@.take(j as int),
        decreases module.data_symbols.len() - j,
    {
        r.push(module.data_symbols[j]);
        j = j + 1;
        assert(r@ =~= before + module.data_symbols@.take(j as int));
    }
    assert(module.data_symbols@.take(module.data_symbols@.len() as int) =~= module.data_symbols@);
    r
}

/// The name that a function declared with number `id` has in generated code.
pub open spec fn spec_func_id_name(id: u32) -> ExtName {
    ExtName::User { namespace: 0, index: id }
}

/// The name that a data object declared with number `id` has in generated code.
pub open spec fn spec_data_id_name(id: u32) -> ExtName {
    ExtName::User { namespace: 1, index: id }
}

/// The name that a function declared with number `id` has in generated code.
pub fn func_id_name(id: u32) -> (r: ExtName)
    ensures
        r == spec_func_id_name(id),
{
    ExtName::User { namespace: 0, index: id }
}

/// The name that a data object declared with number `id` has in generated code.
pub fn data_id_name(id: u32) -> (r: ExtName)
    ensures
        r == spec_data_id_name(id),
{
    ExtName::User { namespace: 1, index: id }
}

/// The first data symbol of `names` that the declaration numbered `ids[i]` does not name,
/// if any: the `i`-th symbol declared must get the name `names[i]` in generated code.
pub fn first_data_mismatch(names: &Vec<ExtName>, ids: &Vec<u32>) -> (r: Option<usize>)
    requires
        names@.len() == ids@.len(),
    ensures
        match r {
            Some(i) => i < names@.len() && spec_data_id_name(ids@[i as int]) != names@[i as int]
                && forall|j: int| 0 <= j < i ==> spec_data_id_name(#[trigger] ids@[j]) == names@[j],
            None => forall|j: int| 0 <= j < names@.len() ==> spec_data_id_name(#[trigger] ids@[j]) == names@[j],
        },
{
    let mut i: usize = 0;
    while i < names.len()
        invariant
            names@.len() == ids@.len(),
            i <= names@.len(),
            forall|j: int| 0 <= j < i ==> spec_data_id_name(#[trigger] ids@[j]) == names@[j],
        decreases names.len() - i,
    {
        if data_id_name(ids[i]) != names[i] {
            return Some(i);
        }
        i = i + 1;
    }
    None
}

/// Whether an external function must be declared before code that calls it is generated:
/// library routines need no declaration.
pub fn needs_declaration(ext: &ExtFunc) -> (r: bool)
    ensures
        r == !(ext.name is LibCall),
{
    !matches!(ext.name, ExtName::LibCall(_))
}

/// Renames each external function of `func` that was declared: the `j`-th one, declared
/// with number `id`, gets the name of that declaration.
pub fn rename_ext_funcs(func: &mut Func, ids: &Vec<Option<u32>>)
    requires
        ids@.len() == old(func).ext_funcs@.len(),
    ensures
        final(func)@.blocks == old(func)@.blocks,
        final(func)@.global_values == old(func)@.global_values,
        final(func)@.signatures == old(func)@.signatures,
        final(func)@.returns == old(func)@.returns,
        final(func)@.name == old(func)@.name,
        final(func)@.next_value == old(func)@.next_value,
        final(func)@.next_block == old(func)@.next_block,
        final(func)@.next_inst == old(func)@.next_inst,
        final(func)@.ext_funcs.len() == old(func)@.ext_funcs.len(),
        forall|j: int|
            0 <= j < ids@.len() ==> #[trigger] final(func)@.ext_funcs[j] == match ids@[j] {
                Some(id) => ExtFunc {
                    name: spec_func_id_name(id),
                    signature: old(func)@.ext_funcs[j].signature,
                },
                None => old(func)@.ext_funcs[j],
            },
{
    let mut j: usize = 0;
    while j < ids.len()
        invariant
            j <= ids@.len(),
            ids@.len() == func.ext_funcs@.len(),
            func.ext_funcs@.len() == old(func).ext_funcs@.len(),
            func.blocks@ == old(func).blocks@,
            func.global_values@ == old(func).global_values@,
            func.signatures@ == old(func).signatures@,
            func.returns == old(func).returns,
            func.name == old(func).name,
            func.next_value == old(func).next_value,
            func.next_block == old(func).next_block,
            func.next_inst == old(func).next_inst,
            forall|j2: int|
                j <= j2 < ids@.len() ==> #[trigger] func.ext_funcs@[j2] == old(func).ext_funcs@[j2],
            forall|j2: int|
                0 <= j2 < j ==> #[trigger] func.ext_funcs@[j2] == match ids@[j2] {
                    Some(id) => ExtFunc {
                        name: spec_func_id_name(id),
                        signature: old(func).ext_funcs@[j2].signature,
                    },
                    None => old(func).ext_funcs@[j2],
                },
        decreases ids.len() - j,
    {
        if let Some(id) = ids[j] {
            let sig = func.ext_funcs[j].signature;
            func.ext_funcs.set(j, ExtFunc { name: func_id_name(id), signature: sig });
        }
        j = j + 1;
    }
}

/// Inlining calls to `fib` keeps a sound numbering: a caller whose numbering is sound
/// keeps it after every allowed inlining along its call sites.
pub proof fn law_inline_calls_keep_numbering(f: FuncModel, sites: Seq<(u32, ExtName)>, m: ModuleModel)
    requires
        well_numbered(f),
        sites_allowed(f, sites, m),
    ensures
        well_numbered(inline_sites(f, sites, m)),
    decreases sites.len(),
{
    if sites.len() > 0 {
        let site = sites[0];
        if spec_should_inline(m, site.1) && spec_find_func(m, inlined_name()) is Some {
            law_inline_keeps_numbering(f, site.0, spec_find_func(m, inlined_name()).unwrap());
        }
        law_inline_calls_keep_numbering(inline_step(f, site, m), sites.drop_first(), m);
    }
}

/// Inlining along call sites brings back no used-up instruction number, and every call site
/// whose callee's text is `fib` no longer stands once the sites are worked through.
proof fn lemma_inline_sites_remove(f: FuncModel, sites: Seq<(u32, ExtName)>, m: ModuleModel)
    requires
        well_numbered(f),
        sites_allowed(f, sites, m),
        spec_find_func(m, inlined_name()) is Some,
    ensures
        forall|id: u32|
            inst_absent(f, id) && id < f.next_inst ==> #[trigger] inst_absent(inline_sites(f, sites, m), id) && id
                < inline_sites(f, sites, m).next_inst,
        forall|j: int|
            0 <= j < sites.len() && spec_should_inline(m, (#[trigger] sites[j]).1) ==> inst_absent(
                inline_sites(f, sites, m),
                sites[j].0,
            ) && sites[j].0 < inline_sites(f, sites, m).next_inst,
    decreases sites.len(),
{
    if sites.len() > 0 {
        let site = sites[0];
        let f1 = inline_step(f, site, m);
        let rest = sites.drop_first();
        let inlined = spec_should_inline(m, site.1) && spec_find_func(m, inlined_name()) is Some;
        if inlined {
            let g = spec_find_func(m, inlined_name()).unwrap();
            law_inline_keeps_numbering(f, site.0, g);
            law_inline_removes_call(f, site.0, g);
            let (sb, si) = position_of(f, site.0);
            assert(sole_position(f, site.0, sb, si));
            assert(f.blocks[sb].insts[si].id < f.next_inst);
            lemma_inline_next_inst_grows(f, site.0, g);
            assert forall|id: u32| inst_absent(f, id) && id < f.next_inst implies #[trigger] inst_absent(f1, id)
                && id < f1.next_inst by {
                lemma_inline_keeps_absent(f, site.0, g, id);
            }
        }
        lemma_inline_sites_remove(f1, rest, m);
        let res = inline_sites(f, sites, m);
        assert(res == inline_sites(f1, rest, m));
        assert forall|j: int|
            0 <= j < sites.len() && spec_should_inline(m, (#[trigger] sites[j]).1) implies inst_absent(
            res,
            sites[j].0,
        ) && sites[j].0 < res.next_inst by {
            if j > 0 {
                assert(rest[j - 1] == sites[j]);
            } else {
                assert(inst_absent(f1, site.0) && site.0 < f1.next_inst);
            }
        }
    }
}

/// Every call to `fib` is inlined: in a caller with a sound numbering, once its call sites
/// are worked through with every inlining allowed and with a module that has exactly one
/// function `fib`, no direct call of the caller whose callee's text is `fib` still stands.
pub proof fn law_inline_calls_remove_fib_calls(f: FuncModel, m: ModuleModel)
    requires
        well_numbered(f),
        sites_allowed(f, callsites_of(f), m),
        spec_find_func(m, inlined_name()) is Some,
    ensures
        forall|b: int, i: int|
            is_position(f, b, i) && (#[trigger] f.blocks[b].insts[i]).kind is Call && text_of(
                m.strings,
                f.ext_funcs[f.blocks[b].insts[i].kind->func_ref as int].name,
            ) == Some(inlined_name()) ==> inst_absent(
                inline_sites(f, callsites_of(f), m),
                f.blocks[b].insts[i].id,
            ),
{
    let sites = callsites_of(f);
    lemma_inline_sites_remove(f, sites, m);
    law_callsites_are_the_calls(f);
    assert forall|b: int, i: int|
        is_position(f, b, i) && (#[trigger] f.blocks[b].insts[i]).kind is Call && text_of(
            m.strings,
            f.ext_funcs[f.blocks[b].insts[i].kind->func_ref as int].name,
        ) == Some(inlined_name()) implies inst_absent(inline_sites(f, sites, m), f.blocks[b].insts[i].id) by {
        let e = (f.blocks[b].insts[i].id, f.ext_funcs[f.blocks[b].insts[i].kind->func_ref as int].name);
        assert(sites.contains(e));
        let j = choose|j: int| 0 <= j < sites.len() && sites[j] == e;
        assert(spec_should_inline(m, sites[j].1));
    }
}

} // verus!
