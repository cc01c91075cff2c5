//! What holds of every program that was translated.

use super::human_format::{
    declare_items, declare_line, declare_lines, define_item, define_items, define_line,
    define_lines, empty_block, empty_func, empty_program, final_of, function_of, line_of, lines_of,
    locals_named, no_block, path_type, path_types, program_of, return_of, FuncState, Names,
    ParsedBlockLine, ParsedFunctionLine, ParsedItem, ParsedTypePath, ProgramState,
};
use super::{
    BasicBlockId, BlockModel, FinalModel, FuncModel, InsModel, OperandModel, PlaceModel,
    ProgramModel, TypeId, TypeModel, TypesModel, ValueModel,
};
use crate::slots::{key_pos, MAX_SLOTS};
use crate::text::word_of;
use vstd::prelude::*;

verus! {

/// Whether all types that a description names are there.
pub open spec fn info_closed(types: TypesModel, info: TypeModel) -> bool {
    match info {
        TypeModel::Ref(to) => types.contains(to),
        TypeModel::GcRef(to) => types.contains(to),
        TypeModel::Struct(fields) => forall|i: int|
            0 <= i < fields.len() ==> types.contains(#[trigger] fields[i]),
        _ => true,
    }
}

/// Whether no type names one that is not there.
pub open spec fn types_closed(types: TypesModel) -> bool {
    forall|i: int| 0 <= i < types.infos.len() ==> info_closed(types, #[trigger] types.infos[i])
}

/// Whether a place starts at a local of the function, with the type of that local.
pub open spec fn place_wf(func: FuncModel, place: PlaceModel) -> bool {
    func.has_local(place.local) && place.local_ty == func.local(place.local)
}

pub open spec fn operand_wf(func: FuncModel, operand: OperandModel) -> bool {
    operand matches OperandModel::Place(place) ==> place_wf(func, place)
}

pub open spec fn value_wf(func: FuncModel, value: ValueModel) -> bool {
    match value {
        ValueModel::Read(operand) => operand_wf(func, operand),
        ValueModel::Ref(operand) => operand_wf(func, operand),
        ValueModel::BinOp(_, lhs, rhs) => operand_wf(func, lhs) && operand_wf(func, rhs),
    }
}

pub open spec fn ins_wf(func: FuncModel, ins: InsModel) -> bool {
    match ins {
        InsModel::Assign { place, value } => place_wf(func, place) && value_wf(func, value),
        InsModel::AllocGc { place } => place_wf(func, place),
    }
}

/// Whether the end of a block names only locals and blocks of the function, and
/// only functions of the program, of which there are `funcs`.
pub open spec fn final_wf(funcs: nat, func: FuncModel, end: FinalModel) -> bool {
    match end {
        FinalModel::Br { next } => func.has_block(next),
        FinalModel::BrIf { cond, is_true, is_false } => {
            &&& func.has_local(cond)
            &&& func.has_block(is_true)
            &&& func.has_block(is_false)
        },
        FinalModel::Call { func: callee, args, store_ret, next } => {
            &&& 0 <= key_pos(callee.key) < funcs
            &&& forall|i: int| 0 <= i < args.len() ==> func.has_local(#[trigger] args[i])
            &&& store_ret matches Some(local) ==> func.has_local(local)
            &&& func.has_block(next)
        },
        FinalModel::Return { value } => value matches Some(local) ==> func.has_local(local),
    }
}

pub open spec fn block_wf(funcs: nat, func: FuncModel, block: BlockModel) -> bool {
    &&& forall|i: int|
        0 <= i < block.instructions.len() ==> ins_wf(func, #[trigger] block.instructions[i])
    &&& final_wf(funcs, func, block.ins_final)
}

/// Whether the locals of a function have types that are there.
pub open spec fn locals_wf(types: TypesModel, func: FuncModel) -> bool {
    forall|i: int| 0 <= i < func.locals.len() ==> types.contains(#[trigger] func.locals[i])
}

/// Whether every block names only what is there. A block that another one of the
/// same name hides never gets code.
pub open spec fn blocks_wf(funcs: nat, func: FuncModel) -> bool {
    forall|i: int|
        0 <= i < func.blocks.len() ==> (#[trigger] func.blocks[i]) == empty_block() || block_wf(
            funcs,
            func,
            func.blocks[i],
        )
}

/// Whether a function names only what is there. A function with blocks has one to
/// start with.
pub open spec fn func_wf(types: TypesModel, funcs: nat, func: FuncModel) -> bool {
    &&& locals_wf(types, func)
    &&& blocks_wf(funcs, func)
    &&& func.return_type matches Some(ty) ==> types.contains(ty)
    &&& forall|i: int| 0 <= i < func.args.len() ==> func.has_local(#[trigger] func.args[i])
    &&& func.blocks.len() > 0 ==> func.has_block(func.entrypoint)
}

/// Whether a program names only what is there.
pub open spec fn program_wf(program: ProgramModel) -> bool {
    &&& types_closed(program.types)
    &&& forall|i: int|
        0 <= i < program.functions.len() ==> func_wf(
            program.types,
            program.functions.len(),
            #[trigger] program.functions[i],
        )
    &&& program.has_func(program.entrypoint)
}

/// The name of the local or of the block that a line stands for.
pub open spec fn line_name(line: ParsedFunctionLine) -> Seq<char> {
    match line {
        ParsedFunctionLine::DecLocal { name, .. } => name@,
        ParsedFunctionLine::Block { name, .. } => name@,
    }
}

/// Whether no two blocks among the lines have the same name.
pub open spec fn block_names_apart(lines: Seq<ParsedFunctionLine>) -> bool {
    forall|i: int, j: int|
        0 <= i < j < lines.len() && (#[trigger] lines[i]) is Block && (#[trigger] lines[j]) is Block
            ==> line_name(lines[i]) != line_name(lines[j])
}

/// Whether no function is written with two blocks of the same name.
pub open spec fn all_block_names_apart(items: Seq<ParsedItem>) -> bool {
    forall|i: int|
        0 <= i < items.len() ==> (#[trigger] items[i] matches ParsedItem::Function { lines, .. }
            ==> block_names_apart(lines@))
}

/// Whether every block of the function has code that names only what is there.
pub open spec fn blocks_full(funcs: nat, func: FuncModel) -> bool {
    forall|i: int|
        0 <= i < func.blocks.len() ==> block_wf(funcs, func, #[trigger] func.blocks[i])
}

/// Whether the names of types stand for types.
spec fn type_names_wf(types: TypesModel, names: Names) -> bool {
    forall|name: Seq<char>| #[trigger]
        names.contains_key(name) ==> types.contains(TypeId { key: names[name] })
}

proof fn lemma_path_closed(types: TypesModel, names: Names, path: ParsedTypePath)
    requires
        types_closed(types),
        type_names_wf(types, names),
    ensures
        path_type(types, names, path) matches Ok((after, id)) ==> {
            &&& types_closed(after)
            &&& after.contains(id)
            &&& types.infos.len() <= after.infos.len()
        },
    decreases path,
{
    match path {
        ParsedTypePath::TypeName(_) => {},
        ParsedTypePath::Ref(to) => {
            assert(types_closed(types.declared()));
            lemma_path_closed(types.declared(), names, *to);
        },
        ParsedTypePath::GcRef(to) => {
            assert(types_closed(types.declared()));
            lemma_path_closed(types.declared(), names, *to);
        },
    }
}

proof fn lemma_paths_closed(types: TypesModel, names: Names, paths: Seq<ParsedTypePath>)
    requires
        types_closed(types),
        type_names_wf(types, names),
    ensures
        path_types(types, names, paths) matches Ok((after, ids)) ==> {
            &&& types_closed(after)
            &&& forall|i: int| 0 <= i < ids.len() ==> after.contains(#[trigger] ids[i])
            &&& types.infos.len() <= after.infos.len()
        },
    decreases paths.len(),
{
    if paths.len() > 0 {
        lemma_paths_closed(types, names, paths.drop_last());
        if let Ok((before, _)) = path_types(types, names, paths.drop_last()) {
            assert(type_names_wf(before, names));
            lemma_path_closed(before, names, paths.last());
        }
    }
}

/// Whether `after` has the locals of `before`, and no fewer blocks.
spec fn func_grown(before: FuncModel, after: FuncModel) -> bool {
    &&& before.locals.len() <= after.locals.len()
    &&& forall|i: int|
        0 <= i < before.locals.len() ==> before.locals[i] == #[trigger] after.locals[i]
    &&& before.blocks.len() <= after.blocks.len()
}

/// What a block names stays there when the function gets more locals and blocks.
proof fn lemma_block_wf_grown(funcs: nat, before: FuncModel, after: FuncModel, block: BlockModel)
    requires
        block_wf(funcs, before, block),
        func_grown(before, after),
    ensures
        block_wf(funcs, after, block),
{
    assert forall|k: int| 0 <= k < block.instructions.len() implies ins_wf(
        after,
        #[trigger] block.instructions[k],
    ) by {
        assert(ins_wf(before, block.instructions[k]));
    }
    if let FinalModel::Call { func: callee, args, store_ret, next } = block.ins_final {
        assert forall|k: int| 0 <= k < args.len() implies after.has_local(#[trigger] args[k]) by {
            assert(before.has_local(args[k]));
        }
    }
}

/// What a function names stays there when the function gets more locals and
/// blocks.
proof fn lemma_blocks_wf_grown(funcs: nat, before: FuncModel, after: FuncModel)
    requires
        blocks_wf(funcs, before),
        func_grown(before, after),
    ensures
        forall|i: int|
            0 <= i < before.blocks.len() ==> (#[trigger] before.blocks[i]) == empty_block()
                || block_wf(funcs, after, before.blocks[i]),
{
    assert forall|i: int| 0 <= i < before.blocks.len() implies (#[trigger] before.blocks[i])
        == empty_block() || block_wf(funcs, after, before.blocks[i]) by {
        if before.blocks[i] != empty_block() {
            lemma_block_wf_grown(funcs, before, after, before.blocks[i]);
        }
    }
}

/// What holds of a function while it is translated.
spec fn state_wf(funcs: nat, state: FuncState) -> bool {
    &&& types_closed(state.types)
    &&& locals_wf(state.types, state.func)
    &&& blocks_wf(funcs, state.func)
    &&& state.wf()
    &&& state.func.return_type matches Some(ty) ==> state.types.contains(ty)
    &&& !no_block(state.func.entrypoint) ==> state.func.has_block(state.func.entrypoint)
    &&& state.func.blocks.len() <= MAX_SLOTS
}

proof fn lemma_declare_line_wf(
    funcs: nat,
    type_names: Names,
    state: FuncState,
    line: ParsedFunctionLine,
)
    requires
        state_wf(funcs, state),
        type_names_wf(state.types, type_names),
    ensures
        declare_line(type_names, state, line) matches Ok(after) ==> {
            &&& state_wf(funcs, after)
            &&& type_names_wf(after.types, type_names)
            &&& state.types.infos.len() <= after.types.infos.len()
            &&& after.func.entrypoint == state.func.entrypoint
        },
{
    if let Ok(after) = declare_line(type_names, state, line) {
        lemma_blocks_wf_grown(funcs, state.func, after.func);
        match line {
            ParsedFunctionLine::DecLocal { name, ty } => {
                lemma_path_closed(state.types, type_names, ty);
                assert(after.wf());
            },
            ParsedFunctionLine::Block { name, .. } => {
                assert forall|i: int| 0 <= i < after.func.blocks.len() implies (
                #[trigger] after.func.blocks[i]) == empty_block() || block_wf(
                    funcs,
                    after.func,
                    after.func.blocks[i],
                ) by {
                    if i < state.func.blocks.len() {
                        assert(after.func.blocks[i] == state.func.blocks[i]);
                    }
                }
                assert(after.wf());
            },
        }
    }
}

proof fn lemma_declare_lines_wf(
    funcs: nat,
    type_names: Names,
    state: FuncState,
    lines: Seq<ParsedFunctionLine>,
)
    requires
        state_wf(funcs, state),
        type_names_wf(state.types, type_names),
    ensures
        declare_lines(type_names, state, lines) matches Ok(after) ==> {
            &&& state_wf(funcs, after)
            &&& type_names_wf(after.types, type_names)
            &&& state.types.infos.len() <= after.types.infos.len()
            &&& after.func.blocks.len() > state.func.blocks.len() ==> exists|i: int|
                0 <= i < lines.len() && (#[trigger] lines[i]) is Block
        },
    decreases lines.len(),
{
    if lines.len() > 0 {
        let front = lines.drop_last();
        lemma_declare_lines_wf(funcs, type_names, state, front);
        if let Ok(before) = declare_lines(type_names, state, front) {
            lemma_declare_line_wf(funcs, type_names, before, lines.last());
            if let Ok(after) = declare_line(type_names, before, lines.last()) {
                if after.func.blocks.len() > state.func.blocks.len() {
                    if before.func.blocks.len() > state.func.blocks.len() {
                        let i = choose|i: int| 0 <= i < front.len() && (#[trigger] front[i]) is Block;
                        assert(lines[i] is Block);
                    } else {
                        assert(lines[lines.len() - 1] is Block);
                    }
                }
            }
        }
    }
}

proof fn lemma_line_wf(state: FuncState, line: ParsedBlockLine)
    requires
        state.wf(),
    ensures
        line_of(state.names(), line) matches Ok(ins) ==> ins_wf(state.func, ins),
{
}

proof fn lemma_lines_wf(state: FuncState, lines: Seq<ParsedBlockLine>)
    requires
        state.wf(),
    ensures
        lines_of(state.names(), lines) matches Ok(inss) ==> forall|i: int|
            0 <= i < inss.len() ==> ins_wf(state.func, #[trigger] inss[i]),
    decreases lines.len(),
{
    if lines.len() > 0 {
        lemma_lines_wf(state, lines.drop_last());
        lemma_line_wf(state, lines.last());
    }
}

/// Whether the names of functions stand for functions.
spec fn func_names_wf(funcs: nat, names: Names) -> bool {
    forall|name: Seq<char>| #[trigger]
        names.contains_key(name) ==> 0 <= key_pos(names[name]) < funcs
}

proof fn lemma_final_wf(
    funcs: nat,
    func_names: Names,
    state: FuncState,
    word: Seq<char>,
    args: Seq<String>,
)
    requires
        state.wf(),
        func_names_wf(funcs, func_names),
    ensures
        final_of(state.names(), func_names, word, args) matches Ok(end) ==> final_wf(
            funcs,
            state.func,
            end,
        ),
{
}

proof fn lemma_define_line_wf(
    funcs: nat,
    func_names: Names,
    state: FuncState,
    line: ParsedFunctionLine,
)
    requires
        state_wf(funcs, state),
        func_names_wf(funcs, func_names),
    ensures
        define_line(func_names, state, line) matches Ok(after) ==> {
            &&& state_wf(funcs, after)
            &&& after.types == state.types
            &&& after.func.args == state.func.args
            &&& after.func.locals == state.func.locals
            &&& after.func.blocks.len() == state.func.blocks.len()
            &&& line is Block || !no_block(state.func.entrypoint) ==> !no_block(
                after.func.entrypoint,
            )
            &&& after.blocks == state.blocks
            &&& line is Block ==> state.blocks.contains_key(line_name(line)) && block_wf(
                funcs,
                after.func,
                after.func.blocks[key_pos(state.blocks[line_name(line)])],
            )
            &&& forall|i: int|
                0 <= i < state.func.blocks.len() && block_wf(
                    funcs,
                    state.func,
                    #[trigger] state.func.blocks[i],
                ) ==> block_wf(funcs, after.func, after.func.blocks[i])
        },
{
    if let ParsedFunctionLine::Block { name, lines, term_ins, term_args } = line {
        if let Ok(after) = define_line(func_names, state, line) {
            let id = BasicBlockId { key: state.blocks[name@] };
            let at = key_pos(id.key);
            assert(state.blocks.contains_key(name@));
            assert(state.func.has_block(id));
            lemma_lines_wf(state, lines@);
            lemma_final_wf(funcs, func_names, state, word_of(term_ins@), term_args@);
            lemma_blocks_wf_grown(funcs, state.func, after.func);
            let block = after.func.blocks[at];
            assert(block_wf(funcs, after.func, block)) by {
                let before = state.func.blocks[at];
                let inss = lines_of(state.names(), lines@)->Ok_0;
                assert forall|i: int| 0 <= i < block.instructions.len() implies ins_wf(
                    after.func,
                    #[trigger] block.instructions[i],
                ) by {
                    if i < before.instructions.len() {
                        assert(block.instructions[i] == before.instructions[i]);
                    } else {
                        assert(block.instructions[i] == inss[i - before.instructions.len()]);
                        assert(ins_wf(state.func, inss[i - before.instructions.len()]));
                    }
                }
                if let FinalModel::Call { func: callee, args, store_ret, next } = block.ins_final {
                    assert forall|k: int| 0 <= k < args.len() implies after.func.has_local(
                        #[trigger] args[k],
                    ) by {
                        assert(state.func.has_local(args[k]));
                    }
                }
            }
            assert forall|i: int| 0 <= i < after.func.blocks.len() implies (
            #[trigger] after.func.blocks[i]) == empty_block() || block_wf(
                funcs,
                after.func,
                after.func.blocks[i],
            ) by {
                if i != at {
                    assert(after.func.blocks[i] == state.func.blocks[i]);
                }
            }
            assert forall|i: int|
                0 <= i < state.func.blocks.len() && block_wf(
                    funcs,
                    state.func,
                    #[trigger] state.func.blocks[i],
                ) implies block_wf(funcs, after.func, after.func.blocks[i]) by {
                if i != at {
                    lemma_block_wf_grown(funcs, state.func, after.func, state.func.blocks[i]);
                }
            }
            assert(after.wf());
        }
    }
}

proof fn lemma_define_lines_wf(
    funcs: nat,
    func_names: Names,
    state: FuncState,
    lines: Seq<ParsedFunctionLine>,
)
    requires
        state_wf(funcs, state),
        func_names_wf(funcs, func_names),
    ensures
        define_lines(func_names, state, lines) matches Ok(after) ==> {
            &&& state_wf(funcs, after)
            &&& after.types == state.types
            &&& after.func.args == state.func.args
            &&& after.func.locals == state.func.locals
            &&& after.func.blocks.len() == state.func.blocks.len()
            &&& !no_block(state.func.entrypoint) || (exists|i: int|
                0 <= i < lines.len() && (#[trigger] lines[i]) is Block) ==> !no_block(
                after.func.entrypoint,
            )
        },
    decreases lines.len(),
{
    if lines.len() > 0 {
        let front = lines.drop_last();
        lemma_define_lines_wf(funcs, func_names, state, front);
        if let Ok(before) = define_lines(func_names, state, front) {
            lemma_define_line_wf(funcs, func_names, before, lines.last());
            if let Ok(after) = define_line(func_names, before, lines.last()) {
                if exists|i: int| 0 <= i < lines.len() && (#[trigger] lines[i]) is Block {
                    let i = choose|i: int| 0 <= i < lines.len() && (#[trigger] lines[i]) is Block;
                    if i < front.len() {
                        assert(front[i] is Block);
                    }
                }
            }
        }
    }
}

proof fn lemma_function_wf(
    funcs: nat,
    types: TypesModel,
    type_names: Names,
    func_names: Names,
    func: FuncModel,
    name: Seq<char>,
    arg_locals: Seq<String>,
    lines: Seq<ParsedFunctionLine>,
    ret_ty: Option<ParsedTypePath>,
)
    requires
        types_closed(types),
        type_names_wf(types, type_names),
        func_names_wf(funcs, func_names),
        func_wf(types, funcs, func),
        func.blocks.len() == 0 ==> no_block(func.entrypoint),
        func.blocks.len() <= MAX_SLOTS,
    ensures
        function_of(
            types,
            type_names,
            func_names,
            func,
            name,
            arg_locals,
            lines,
            ret_ty,
        ) matches Ok((after, made)) ==> {
            &&& types_closed(after)
            &&& types.infos.len() <= after.infos.len()
            &&& func_wf(after, funcs, made)
            &&& made.blocks.len() == 0 ==> no_block(made.entrypoint)
            &&& made.blocks.len() <= MAX_SLOTS
        },
{
    if let Some(path) = ret_ty {
        lemma_path_closed(types, type_names, path);
    }
    if let Ok((returned, return_type)) = return_of(types, type_names, ret_ty) {
        let begun = FuncState {
            types: returned,
            func: FuncModel { name, return_type, ..func },
            locals: Map::empty(),
            blocks: Map::empty(),
        };
        lemma_blocks_wf_grown(funcs, func, begun.func);
        assert(state_wf(funcs, begun));
        assert(type_names_wf(returned, type_names));
        lemma_declare_lines_wf(funcs, type_names, begun, lines);
        if let Ok(declared) = declare_lines(type_names, begun, lines) {
            lemma_entry_kept(type_names, begun, lines);
            if let Ok(args) = locals_named(declared.locals, arg_locals) {
                let argued = FuncState {
                    func: FuncModel { args, ..declared.func },
                    ..declared
                };
                lemma_blocks_wf_grown(funcs, declared.func, argued.func);
                assert(argued.wf());
                assert(state_wf(funcs, argued));
                assert forall|i: int| 0 <= i < args.len() implies argued.func.has_local(
                    #[trigger] args[i],
                ) by {
                    assert(declared.locals.contains_key(arg_locals[i]@));
                }
                lemma_define_lines_wf(funcs, func_names, argued, lines);
                if let Ok(defined) = define_lines(func_names, argued, lines) {
                    assert forall|i: int| 0 <= i < args.len() implies defined.func.has_local(
                        #[trigger] args[i],
                    ) by {
                        assert(argued.func.has_local(args[i]));
                    }
                    if defined.func.blocks.len() == 0 {
                        lemma_entry_without_blocks(func_names, argued, lines);
                    }
                }
            }
        }
    }
}

/// Making locals and blocks leaves the block to start with as it is.
proof fn lemma_entry_kept(type_names: Names, state: FuncState, lines: Seq<ParsedFunctionLine>)
    ensures
        declare_lines(type_names, state, lines) matches Ok(after) ==> after.func.entrypoint
            == state.func.entrypoint && after.func.blocks.len() >= state.func.blocks.len(),
    decreases lines.len(),
{
    if lines.len() > 0 {
        lemma_entry_kept(type_names, state, lines.drop_last());
    }
}

/// Without blocks there is none to start with.
proof fn lemma_entry_without_blocks(
    func_names: Names,
    state: FuncState,
    lines: Seq<ParsedFunctionLine>,
)
    requires
        state.wf(),
        state.func.blocks.len() == 0,
    ensures
        define_lines(func_names, state, lines) matches Ok(after) ==> after == state,
    decreases lines.len(),
{
    if lines.len() > 0 {
        lemma_entry_without_blocks(func_names, state, lines.drop_last());
    }
}

/// What holds of a program while it is translated.
spec fn program_state_wf(state: ProgramState) -> bool {
    &&& state.wf()
    &&& types_closed(state.types)
    &&& forall|i: int|
        0 <= i < state.functions.len() ==> func_wf(
            state.types,
            state.functions.len(),
            #[trigger] state.functions[i],
        ) && (state.functions[i].blocks.len() == 0 ==> no_block(state.functions[i].entrypoint))
            && state.functions[i].blocks.len() <= MAX_SLOTS
}

/// What holds of a program while its items are declared: no function has anything
/// yet.
spec fn declaring_wf(state: ProgramState) -> bool {
    &&& state.wf()
    &&& types_closed(state.types)
    &&& forall|i: int|
        0 <= i < state.functions.len() ==> (#[trigger] state.functions[i]) == empty_func()
}

proof fn lemma_declare_items_wf(state: ProgramState, items: Seq<ParsedItem>)
    requires
        declaring_wf(state),
    ensures
        declare_items(state, items) matches Ok(after) ==> declaring_wf(after),
    decreases items.len(),
{
    if items.len() > 0 {
        lemma_declare_items_wf(state, items.drop_last());
    }
}

/// A function that names only what is there does so when there are more types.
proof fn lemma_func_wf_grown(before: TypesModel, after: TypesModel, funcs: nat, func: FuncModel)
    requires
        func_wf(before, funcs, func),
        before.infos.len() <= after.infos.len(),
    ensures
        func_wf(after, funcs, func),
{
    assert forall|i: int| 0 <= i < func.locals.len() implies after.contains(
        #[trigger] func.locals[i],
    ) by {
        assert(before.contains(func.locals[i]));
    }
}

proof fn lemma_define_item_wf(state: ProgramState, item: ParsedItem)
    requires
        program_state_wf(state),
    ensures
        define_item(state, item) matches Ok(after) ==> {
            &&& program_state_wf(after)
            &&& after.functions.len() == state.functions.len()
            &&& after.func_names == state.func_names
        },
{
    let funcs = state.functions.len();
    if let Ok(after) = define_item(state, item) {
        match item {
            ParsedItem::Struct { name, fields } => {
                lemma_paths_closed(state.types, state.type_names, fields@);
                assert forall|i: int| 0 <= i < funcs implies func_wf(
                    after.types,
                    funcs,
                    #[trigger] after.functions[i],
                ) by {
                    lemma_func_wf_grown(state.types, after.types, funcs, state.functions[i]);
                }
            },
            ParsedItem::Function { name, arg_locals, lines, ret_ty } => {
                let at = key_pos(state.func_names[name@]);
                assert(func_wf(state.types, funcs, state.functions[at]));
                lemma_function_wf(
                    funcs,
                    state.types,
                    state.type_names,
                    state.func_names,
                    state.functions[at],
                    name@,
                    arg_locals@,
                    lines@,
                    ret_ty,
                );
                assert forall|i: int| 0 <= i < funcs implies func_wf(
                    after.types,
                    funcs,
                    #[trigger] after.functions[i],
                ) by {
                    if i != at {
                        assert(after.functions[i] == state.functions[i]);
                        lemma_func_wf_grown(state.types, after.types, funcs, state.functions[i]);
                    }
                }
            },
        }
        super::human_format::lemma_define_item(state, item);
    }
}

proof fn lemma_define_items_wf(state: ProgramState, items: Seq<ParsedItem>)
    requires
        program_state_wf(state),
    ensures
        define_items(state, items) matches Ok(after) ==> program_state_wf(after),
    decreases items.len(),
{
    if items.len() > 0 {
        lemma_define_items_wf(state, items.drop_last());
        if let Ok(before) = define_items(state, items.drop_last()) {
            lemma_define_item_wf(before, items.last());
        }
    }
}

/// A program that was translated is well formed: its types name only types that
/// are there, its functions name only locals, blocks and functions that are there,
/// each place has the type of its local, and each function with blocks starts with
/// one of them.
pub proof fn law_parsed_program_well_formed(items: Seq<ParsedItem>, entrypoint: Seq<char>)
    ensures
        program_of(items, entrypoint) matches Ok(program) ==> program_wf(program),
{
    let begun = empty_program();
    super::human_format::lemma_empty_program();
    assert(declaring_wf(begun));
    lemma_declare_items_wf(begun, items);
    if let Ok(declared) = declare_items(begun, items) {
        assert forall|i: int| 0 <= i < declared.functions.len() implies func_wf(
            declared.types,
            declared.functions.len(),
            #[trigger] declared.functions[i],
        ) && no_block(declared.functions[i].entrypoint) by {
            assert(declared.functions[i] == empty_func());
        }
        assert(program_state_wf(declared));
        lemma_define_items_wf(declared, items);
    }
}

/// Each block that is made for a line can be found by the name of the line.
proof fn lemma_declared_found(type_names: Names, state: FuncState, lines: Seq<ParsedFunctionLine>)
    requires
        block_names_apart(lines),
        state.func.blocks.len() <= MAX_SLOTS,
    ensures
        declare_lines(type_names, state, lines) matches Ok(after) ==> {
            &&& state.func.blocks.len() <= after.func.blocks.len() <= MAX_SLOTS
            &&& forall|i: int|
                0 <= i < state.func.blocks.len() ==> (#[trigger] after.func.blocks[i])
                    == state.func.blocks[i]
            &&& state.func.locals.len() <= after.func.locals.len()
            &&& forall|i: int|
                0 <= i < state.func.locals.len() ==> state.func.locals[i]
                    == #[trigger] after.func.locals[i]
            &&& forall|i: int|
                state.func.blocks.len() <= i < after.func.blocks.len() ==> #[trigger] has_line(
                    after.blocks,
                    lines,
                    i,
                )
        },
    decreases lines.len(),
{
    if lines.len() > 0 {
        let front = lines.drop_last();
        assert(block_names_apart(front)) by {
            assert forall|i: int, j: int|
                0 <= i < j < front.len() && (#[trigger] front[i]) is Block && (
                #[trigger] front[j]) is Block implies line_name(front[i]) != line_name(
                front[j],
            ) by {
                assert(lines[i] is Block && lines[j] is Block);
            }
        }
        lemma_declared_found(type_names, state, front);
        if let Ok(after) = declare_lines(type_names, state, lines) {
            let before = declare_lines(type_names, state, front)->Ok_0;
            assert forall|i: int|
                state.func.blocks.len() <= i < after.func.blocks.len() implies #[trigger] has_line(
                after.blocks,
                lines,
                i,
            ) by {
                if i < before.func.blocks.len() {
                    assert(has_line(before.blocks, front, i));
                    let j = choose|j: int|
                        0 <= j < front.len() && (#[trigger] front[j]) is Block
                            && before.blocks.contains_key(line_name(front[j])) && key_pos(
                            before.blocks[line_name(front[j])],
                        ) == i;
                    assert(lines[j] == front[j]);
                    if lines.last() is Block {
                        assert(lines[lines.len() - 1] is Block);
                        assert(line_name(lines[j]) != line_name(lines[lines.len() - 1]));
                    }
                } else {
                    assert(lines[lines.len() - 1] is Block);
                }
            }
        }
    }
}

/// Whether the block at that place is found by the name of one of the lines.
spec fn has_line(names: Names, lines: Seq<ParsedFunctionLine>, i: int) -> bool {
    exists|j: int|
        0 <= j < lines.len() && (#[trigger] lines[j]) is Block && names.contains_key(
            line_name(lines[j]),
        ) && key_pos(names[line_name(lines[j])]) == i
}

/// Every block that is found by the name of a line gets code.
proof fn lemma_defined_full(
    funcs: nat,
    func_names: Names,
    state: FuncState,
    lines: Seq<ParsedFunctionLine>,
    i: int,
)
    requires
        state_wf(funcs, state),
        func_names_wf(funcs, func_names),
        0 <= i < state.func.blocks.len(),
        block_wf(funcs, state.func, state.func.blocks[i]) || has_line(state.blocks, lines, i),
    ensures
        define_lines(func_names, state, lines) matches Ok(after) ==> after.blocks == state.blocks
            && block_wf(funcs, after.func, after.func.blocks[i]),
    decreases lines.len(),
{
    if lines.len() > 0 {
        let front = lines.drop_last();
        if let Ok(after) = define_lines(func_names, state, lines) {
            let before = define_lines(func_names, state, front)->Ok_0;
            lemma_define_lines_wf(funcs, func_names, state, front);
            lemma_define_lines_names(func_names, state, front);
            lemma_define_line_wf(funcs, func_names, before, lines.last());
            if block_wf(funcs, state.func, state.func.blocks[i]) || has_line(
                state.blocks,
                front,
                i,
            ) {
                lemma_defined_full(funcs, func_names, state, front, i);
                assert(block_wf(funcs, before.func, before.func.blocks[i]));
            } else {
                let j = choose|j: int|
                    0 <= j < lines.len() && (#[trigger] lines[j]) is Block
                        && state.blocks.contains_key(line_name(lines[j])) && key_pos(
                        state.blocks[line_name(lines[j])],
                    ) == i;
                if j < front.len() {
                    assert(front[j] == lines[j]);
                    assert(has_line(state.blocks, front, i));
                }
            }
        }
    }
}

/// Giving blocks their code leaves their names as they are.
proof fn lemma_define_lines_names(
    func_names: Names,
    state: FuncState,
    lines: Seq<ParsedFunctionLine>,
)
    ensures
        define_lines(func_names, state, lines) matches Ok(after) ==> after.blocks == state.blocks,
    decreases lines.len(),
{
    if lines.len() > 0 {
        lemma_define_lines_names(func_names, state, lines.drop_last());
    }
}

proof fn lemma_function_full(
    funcs: nat,
    types: TypesModel,
    type_names: Names,
    func_names: Names,
    func: FuncModel,
    name: Seq<char>,
    arg_locals: Seq<String>,
    lines: Seq<ParsedFunctionLine>,
    ret_ty: Option<ParsedTypePath>,
)
    requires
        types_closed(types),
        type_names_wf(types, type_names),
        func_names_wf(funcs, func_names),
        func_wf(types, funcs, func),
        func.blocks.len() == 0 ==> no_block(func.entrypoint),
        func.blocks.len() <= MAX_SLOTS,
        blocks_full(funcs, func),
        block_names_apart(lines),
    ensures
        function_of(
            types,
            type_names,
            func_names,
            func,
            name,
            arg_locals,
            lines,
            ret_ty,
        ) matches Ok((_, made)) ==> blocks_full(funcs, made),
{
    if let Some(path) = ret_ty {
        lemma_path_closed(types, type_names, path);
    }
    if let Ok((returned, return_type)) = return_of(types, type_names, ret_ty) {
        let begun = FuncState {
            types: returned,
            func: FuncModel { name, return_type, ..func },
            locals: Map::empty(),
            blocks: Map::empty(),
        };
        lemma_blocks_wf_grown(funcs, func, begun.func);
        assert(state_wf(funcs, begun));
        assert(type_names_wf(returned, type_names));
        lemma_declare_lines_wf(funcs, type_names, begun, lines);
        lemma_declared_found(type_names, begun, lines);
        if let Ok(declared) = declare_lines(type_names, begun, lines) {
            if let Ok(args) = locals_named(declared.locals, arg_locals) {
                let argued = FuncState {
                    func: FuncModel { args, ..declared.func },
                    ..declared
                };
                lemma_blocks_wf_grown(funcs, declared.func, argued.func);
                assert(argued.wf());
                assert(state_wf(funcs, argued));
                lemma_define_lines_wf(funcs, func_names, argued, lines);
                if let Ok(defined) = define_lines(func_names, argued, lines) {
                    assert forall|i: int| 0 <= i < defined.func.blocks.len() implies block_wf(
                        funcs,
                        defined.func,
                        #[trigger] defined.func.blocks[i],
                    ) by {
                        if i < func.blocks.len() {
                            assert(block_wf(funcs, func, func.blocks[i]));
                            assert(declared.func.blocks[i] == begun.func.blocks[i]);
                            assert(func_grown(func, argued.func)) by {
                                assert forall|k: int| 0 <= k < func.locals.len() implies func.locals[k]
                                    == #[trigger] argued.func.locals[k] by {
                                    assert(begun.func.locals[k] == declared.func.locals[k]);
                                }
                            }
                            lemma_block_wf_grown(funcs, func, argued.func, func.blocks[i]);
                        } else {
                            assert(has_line(declared.blocks, lines, i));
                        }
                        lemma_defined_full(funcs, func_names, argued, lines, i);
                    }
                }
            }
        }
    }
}

/// Whether every block of every function has code.
spec fn all_full(state: ProgramState) -> bool {
    forall|f: int|
        0 <= f < state.functions.len() ==> blocks_full(
            state.functions.len(),
            #[trigger] state.functions[f],
        )
}

proof fn lemma_define_items_full(state: ProgramState, items: Seq<ParsedItem>)
    requires
        program_state_wf(state),
        all_full(state),
        all_block_names_apart(items),
    ensures
        define_items(state, items) matches Ok(after) ==> all_full(after),
    decreases items.len(),
{
    if items.len() > 0 {
        let front = items.drop_last();
        assert(all_block_names_apart(front)) by {
            assert forall|i: int| 0 <= i < front.len() implies (#[trigger] front[i]
                matches ParsedItem::Function { lines, .. } ==> block_names_apart(lines@)) by {
                assert(front[i] == items[i]);
            }
        }
        lemma_define_items_wf(state, front);
        lemma_define_items_full(state, front);
        if let Ok(after) = define_items(state, items) {
            let before = define_items(state, front)->Ok_0;
            let funcs = before.functions.len();
            let item = items.last();
            assert(items[items.len() - 1] == item);
            lemma_define_item_wf(before, item);
            if let ParsedItem::Function { name, arg_locals, lines, ret_ty } = item {
                let at = key_pos(before.func_names[name@]);
                assert(func_wf(before.types, funcs, before.functions[at]));
                assert(blocks_full(funcs, before.functions[at]));
                lemma_function_full(
                    funcs,
                    before.types,
                    before.type_names,
                    before.func_names,
                    before.functions[at],
                    name@,
                    arg_locals@,
                    lines@,
                    ret_ty,
                );
                assert forall|f: int| 0 <= f < after.functions.len() implies blocks_full(
                    funcs,
                    #[trigger] after.functions[f],
                ) by {
                    if f != at {
                        assert(after.functions[f] == before.functions[f]);
                    }
                }
            }
        }
    }
}

/// Where no function is written with two blocks of the same name, every block of a
/// program that was translated has its code, which names only locals, blocks and
/// functions that are there.
pub proof fn law_parsed_blocks_have_code(items: Seq<ParsedItem>, entrypoint: Seq<char>, f: int)
    requires
        all_block_names_apart(items),
    ensures
        program_of(items, entrypoint) matches Ok(program) ==> (0 <= f < program.functions.len()
            ==> blocks_full(program.functions.len(), program.functions[f])),
{
    let begun = empty_program();
    super::human_format::lemma_empty_program();
    assert(declaring_wf(begun));
    lemma_declare_items_wf(begun, items);
    if let Ok(declared) = declare_items(begun, items) {
        assert forall|i: int| 0 <= i < declared.functions.len() implies func_wf(
            declared.types,
            declared.functions.len(),
            #[trigger] declared.functions[i],
        ) && no_block(declared.functions[i].entrypoint) && blocks_full(
            declared.functions.len(),
            declared.functions[i],
        ) by {
            assert(declared.functions[i] == empty_func());
        }
        assert(program_state_wf(declared));
        lemma_define_items_full(declared, items);
    }
}

} // verus!
