//! Programs hold what is written down, and nothing else.

use super::human_format::{
    bin_op_of, call_of, declare_item, declare_items, declare_line, declare_lines, define_item,
    define_items, define_line, define_lines, empty_block, empty_func, empty_program, final_of,
    function_of, law_first_block_starts, lemma_empty_program, line_of, lines_of, locals_named,
    no_block, operand_of, path_type, path_types, place_of, program_of, return_of, FuncNames,
    FuncState, Names, ParseError, ParsedBlockLine, ParsedFunctionLine, ParsedItem, ParsedOperand,
    ParsedPlace, ParsedProjection, ParsedTypePath, ParsedValue, ProgramState,
};
use super::{
    type_at, BasicBlockId, BinOp, FinalModel, FuncId, FuncModel, InsModel, LocalId, OperandModel,
    PlaceModel, Projection, TypeId, TypeModel, TypesModel, ValueModel,
};
use crate::slots::{key_at, key_pos, MAX_SLOTS};
use crate::text::word_of;
use vstd::prelude::*;

verus! {

/// The word that an operation is written with.
pub open spec fn op_word(op: BinOp) -> Seq<char> {
    match op {
        BinOp::Add => "add"@,
        BinOp::Sub => "sub"@,
        BinOp::Mul => "mul"@,
        BinOp::Div => "div"@,
        BinOp::Eq => "eq"@,
        BinOp::Lt => "lt"@,
        BinOp::Le => "le"@,
    }
}

/// Each operation has a word of its own, and no other word stands for it.
pub proof fn law_operations_have_words(op: BinOp, word: Seq<char>)
    ensures
        bin_op_of(word) == Some(op) <==> word == op_word(op),
{
    reveal_strlit("add");
    reveal_strlit("sub");
    reveal_strlit("mul");
    reveal_strlit("div");
    reveal_strlit("eq");
    reveal_strlit("lt");
    reveal_strlit("le");
    assert("add"@[0] == 'a');
    assert("sub"@[0] == 's');
    assert("mul"@[0] == 'm');
    assert("div"@[0] == 'd');
    assert("eq"@[0] == 'e');
    assert("lt"@[0] == 'l' && "lt"@[1] == 't');
    assert("le"@[0] == 'l' && "le"@[1] == 'e');
}

/// The name of the local that a line declares.
pub open spec fn local_line(line: ParsedFunctionLine) -> Option<Seq<char>> {
    match line {
        ParsedFunctionLine::DecLocal { name, .. } => Some(name@),
        _ => None,
    }
}

/// The name of the block that a line holds.
pub open spec fn block_line(line: ParsedFunctionLine) -> Option<Seq<char>> {
    match line {
        ParsedFunctionLine::Block { name, .. } => Some(name@),
        _ => None,
    }
}

/// How many of the first `n` lines declare locals.
pub open spec fn locals_before(lines: Seq<ParsedFunctionLine>, n: int) -> nat
    decreases n,
{
    if n <= 0 {
        0
    } else if local_line(lines[n - 1]) is Some {
        locals_before(lines, n - 1) + 1
    } else {
        locals_before(lines, n - 1)
    }
}

/// How many of the first `n` lines hold blocks.
pub open spec fn blocks_before(lines: Seq<ParsedFunctionLine>, n: int) -> nat
    decreases n,
{
    if n <= 0 {
        0
    } else if block_line(lines[n - 1]) is Some {
        blocks_before(lines, n - 1) + 1
    } else {
        blocks_before(lines, n - 1)
    }
}

/// Whether line `j` is the last one that declares a local of that name.
pub open spec fn last_local(lines: Seq<ParsedFunctionLine>, name: Seq<char>, j: int) -> bool {
    &&& 0 <= j < lines.len()
    &&& local_line(lines[j]) == Some(name)
    &&& forall|k: int| j < k < lines.len() ==> local_line(#[trigger] lines[k]) != Some(name)
}

/// Whether line `j` is the last one that holds a block of that name.
pub open spec fn last_block(lines: Seq<ParsedFunctionLine>, name: Seq<char>, j: int) -> bool {
    &&& 0 <= j < lines.len()
    &&& block_line(lines[j]) == Some(name)
    &&& forall|k: int| j < k < lines.len() ==> block_line(#[trigger] lines[k]) != Some(name)
}

/// Whether a name is the name of that local: locals are numbered as they are declared.
pub open spec fn local_is(lines: Seq<ParsedFunctionLine>, name: Seq<char>, id: LocalId) -> bool {
    exists|j: int| #[trigger]
        last_local(lines, name, j) && id.key == key_at(locals_before(lines, j) as int)
}

/// Whether a name is the name of that block: blocks are numbered as they are written.
pub open spec fn block_is(lines: Seq<ParsedFunctionLine>, name: Seq<char>, id: BasicBlockId) -> bool {
    exists|j: int| #[trigger]
        last_block(lines, name, j) && id.key == key_at(blocks_before(lines, j) as int)
}

/// Whether some line declares a local of that name.
pub open spec fn names_local(lines: Seq<ParsedFunctionLine>, name: Seq<char>) -> bool {
    exists|j: int| 0 <= j < lines.len() && local_line(#[trigger] lines[j]) == Some(name)
}

/// How a projection is written.
pub open spec fn written_proj(proj: Projection) -> Option<ParsedProjection> {
    match proj {
        Projection::Deref => Some(ParsedProjection::Deref),
        Projection::Field { field_idx } => Some(ParsedProjection::Field(field_idx)),
        Projection::Index { .. } => None,
    }
}

/// Whether a place is written so. Its type is the one that its local has.
pub open spec fn place_written(
    lines: Seq<ParsedFunctionLine>,
    locals: Seq<TypeId>,
    place: PlaceModel,
    text: ParsedPlace,
) -> bool {
    &&& local_is(lines, text.root@, place.local)
    &&& place.local_ty == locals[key_pos(place.local.key)]
    &&& place.projs.len() == text.projections@.len()
    &&& forall|i: int|
        0 <= i < place.projs.len() ==> written_proj(#[trigger] place.projs[i]) == Some(
            text.projections@[i],
        )
}

/// Whether an operand is written so. A constant is written as what it is.
pub open spec fn operand_written(
    lines: Seq<ParsedFunctionLine>,
    locals: Seq<TypeId>,
    operand: OperandModel,
    text: ParsedOperand,
) -> bool {
    match operand {
        OperandModel::Place(place) => text matches ParsedOperand::Place(at) && place_written(
            lines,
            locals,
            place,
            at,
        ),
        OperandModel::ConstI32(n) => text == ParsedOperand::ConstI32(n),
        OperandModel::ConstF32(bits) => text == ParsedOperand::ConstF32(bits),
        OperandModel::ConstBool(b) => text == ParsedOperand::ConstBool(b),
    }
}

/// Whether an instruction is written so.
pub open spec fn ins_written(
    lines: Seq<ParsedFunctionLine>,
    locals: Seq<TypeId>,
    ins: InsModel,
    text: ParsedBlockLine,
) -> bool {
    match ins {
        InsModel::AllocGc { place } => text.rvalue is Alloc && place_written(
            lines,
            locals,
            place,
            text.lvalue,
        ),
        InsModel::Assign { place, value } => {
            &&& place_written(lines, locals, place, text.lvalue)
            &&& match value {
                ValueModel::Read(op) => text.rvalue matches ParsedValue::Read(read)
                    && operand_written(lines, locals, op, read),
                ValueModel::Ref(op) => text.rvalue matches ParsedValue::Ref(to) && operand_written(
                    lines,
                    locals,
                    op,
                    to,
                ),
                ValueModel::BinOp(op, lhs, rhs) => text.rvalue matches ParsedValue::BinOp(
                    word,
                    left,
                    right,
                ) && word_of(word@) == op_word(op) && operand_written(lines, locals, lhs, left)
                    && operand_written(lines, locals, rhs, right),
            }
        },
    }
}

/// Whether what names stand for is what the lines declare.
pub open spec fn names_right(lines: Seq<ParsedFunctionLine>, names: FuncNames) -> bool {
    &&& forall|name: Seq<char>| #[trigger]
        names.locals.contains_key(name) ==> local_is(
            lines,
            name,
            LocalId { key: names.locals[name] },
        )
    &&& forall|name: Seq<char>| #[trigger]
        names.blocks.contains_key(name) ==> block_is(
            lines,
            name,
            BasicBlockId { key: names.blocks[name] },
        )
    &&& forall|j: int|
        #![trigger lines[j]]
        0 <= j < lines.len() ==> (local_line(lines[j]) matches Some(name)
            ==> names.locals.contains_key(name))
    &&& forall|j: int|
        #![trigger lines[j]]
        0 <= j < lines.len() ==> (block_line(lines[j]) matches Some(name)
            ==> names.blocks.contains_key(name))
}

/// A place is translated to what is written, if its local is known.
pub proof fn law_place_is_as_written(
    lines: Seq<ParsedFunctionLine>,
    names: FuncNames,
    text: ParsedPlace,
)
    requires
        names_right(lines, names),
    ensures
        place_of(names, text) is Ok <==> names_local(lines, text.root@),
        place_of(names, text) matches Ok(place) ==> place_written(
            lines,
            names.local_types,
            place,
            text,
        ),
{
    lemma_known_local(lines, names, text.root@);
}

/// An operand is translated to what is written: a constant to that constant, a place to
/// that place.
pub proof fn law_operand_is_as_written(
    lines: Seq<ParsedFunctionLine>,
    names: FuncNames,
    text: ParsedOperand,
)
    requires
        names_right(lines, names),
    ensures
        operand_of(names, text) is Ok <==> (text matches ParsedOperand::Place(place)
            ==> names_local(lines, place.root@)),
        operand_of(names, text) matches Ok(operand) ==> operand_written(
            lines,
            names.local_types,
            operand,
            text,
        ),
{
    if let ParsedOperand::Place(place) = text {
        law_place_is_as_written(lines, names, place);
    }
}

/// A line is translated to what is written.
pub proof fn law_line_is_as_written(
    lines: Seq<ParsedFunctionLine>,
    names: FuncNames,
    text: ParsedBlockLine,
)
    requires
        names_right(lines, names),
    ensures
        line_of(names, text) matches Ok(ins) ==> ins_written(lines, names.local_types, ins, text),
        line_of(names, text) is Ok <==> place_of(names, text.lvalue) is Ok && match text.rvalue {
            ParsedValue::Alloc => true,
            ParsedValue::Read(op) => operand_of(names, op) is Ok,
            ParsedValue::Ref(op) => operand_of(names, op) is Ok,
            ParsedValue::BinOp(word, lhs, rhs) => operand_of(names, lhs) is Ok && operand_of(
                names,
                rhs,
            ) is Ok && exists|op: BinOp| word_of(word@) == #[trigger] op_word(op),
        },
{
    law_place_is_as_written(lines, names, text.lvalue);
    match text.rvalue {
        ParsedValue::Alloc => {},
        ParsedValue::Read(op) => law_operand_is_as_written(lines, names, op),
        ParsedValue::Ref(op) => law_operand_is_as_written(lines, names, op),
        ParsedValue::BinOp(word, lhs, rhs) => {
            law_operand_is_as_written(lines, names, lhs);
            law_operand_is_as_written(lines, names, rhs);
            if let Some(op) = bin_op_of(word_of(word@)) {
                law_operations_have_words(op, word_of(word@));
            }
            assert forall|op: BinOp| word_of(word@) == #[trigger] op_word(op) implies bin_op_of(
                word_of(word@),
            ) == Some(op) by {
                law_operations_have_words(op, word_of(word@));
            }
        },
    }
}

/// Whether instructions are written so, one to a line.
pub open spec fn inss_written(
    lines: Seq<ParsedFunctionLine>,
    locals: Seq<TypeId>,
    inss: Seq<InsModel>,
    text: Seq<ParsedBlockLine>,
) -> bool {
    &&& inss.len() == text.len()
    &&& forall|i: int|
        0 <= i < inss.len() ==> ins_written(lines, locals, #[trigger] inss[i], text[i])
}

proof fn lemma_lines_written(
    lines: Seq<ParsedFunctionLine>,
    names: FuncNames,
    text: Seq<ParsedBlockLine>,
)
    requires
        names_right(lines, names),
    ensures
        lines_of(names, text) matches Ok(inss) ==> inss_written(
            lines,
            names.local_types,
            inss,
            text,
        ),
    decreases text.len(),
{
    if text.len() > 0 {
        lemma_lines_written(lines, names, text.drop_last());
        law_line_is_as_written(lines, names, text.last());
    }
}

/// Whether a function of a program has that name: functions are numbered as they are
/// written.
pub open spec fn func_is(items: Seq<ParsedItem>, name: Seq<char>, id: FuncId) -> bool {
    exists|j: int| #[trigger]
        last_func(items, name, j) && id.key == key_at(funcs_before(items, j) as int)
}

/// The name of the function that an item is.
pub open spec fn func_item(item: ParsedItem) -> Option<Seq<char>> {
    match item {
        ParsedItem::Function { name, .. } => Some(name@),
        _ => None,
    }
}

/// The name of the struct that an item is.
pub open spec fn struct_item(item: ParsedItem) -> Option<Seq<char>> {
    match item {
        ParsedItem::Struct { name, .. } => Some(name@),
        _ => None,
    }
}

/// How many of the first `n` items are functions.
pub open spec fn funcs_before(items: Seq<ParsedItem>, n: int) -> nat
    decreases n,
{
    if n <= 0 {
        0
    } else if func_item(items[n - 1]) is Some {
        funcs_before(items, n - 1) + 1
    } else {
        funcs_before(items, n - 1)
    }
}

/// How many of the first `n` items are structs.
pub open spec fn structs_before(items: Seq<ParsedItem>, n: int) -> nat
    decreases n,
{
    if n <= 0 {
        0
    } else if struct_item(items[n - 1]) is Some {
        structs_before(items, n - 1) + 1
    } else {
        structs_before(items, n - 1)
    }
}

/// Whether item `j` is the last function of that name.
pub open spec fn last_func(items: Seq<ParsedItem>, name: Seq<char>, j: int) -> bool {
    &&& 0 <= j < items.len()
    &&& func_item(items[j]) == Some(name)
    &&& forall|k: int| j < k < items.len() ==> func_item(#[trigger] items[k]) != Some(name)
}

/// Whether item `j` is the last struct of that name.
pub open spec fn last_struct(items: Seq<ParsedItem>, name: Seq<char>, j: int) -> bool {
    &&& 0 <= j < items.len()
    &&& struct_item(items[j]) == Some(name)
    &&& forall|k: int| j < k < items.len() ==> struct_item(#[trigger] items[k]) != Some(name)
}

/// Whether the names of functions stand for what the items declare.
pub open spec fn func_names_right(items: Seq<ParsedItem>, funcs: Names) -> bool {
    forall|name: Seq<char>| #[trigger]
        funcs.contains_key(name) ==> func_is(items, name, FuncId { key: funcs[name] })
}

/// Whether the end of a block is written so, by its word and its arguments.
pub open spec fn end_written(
    items: Seq<ParsedItem>,
    lines: Seq<ParsedFunctionLine>,
    end: FinalModel,
    word: Seq<char>,
    text: Seq<String>,
) -> bool {
    match end {
        FinalModel::Br { next } => {
            &&& word == "br"@
            &&& text.len() >= 1
            &&& block_is(lines, text[0]@, next)
        },
        FinalModel::BrIf { cond, is_true, is_false } => {
            &&& word == "brif"@
            &&& text.len() >= 3
            &&& local_is(lines, text[0]@, cond)
            &&& block_is(lines, text[1]@, is_true)
            &&& block_is(lines, text[2]@, is_false)
        },
        FinalModel::Call { func, args, store_ret, next } => {
            let at = if store_ret is Some {
                2int
            } else {
                1int
            };
            &&& word == "call"@
            &&& text.len() == at + 1 + args.len()
            &&& func_is(items, text[0]@, func)
            &&& store_ret is Some <==> names_local(lines, text[1]@)
            &&& store_ret matches Some(local) ==> local_is(lines, text[1]@, local)
            &&& block_is(lines, text[at]@, next)
            &&& forall|i: int|
                0 <= i < args.len() ==> local_is(lines, text[at + 1 + i]@, #[trigger] args[i])
        },
        FinalModel::Return { value } => {
            &&& word == "return"@
            &&& value is Some <==> text.len() > 0
            &&& value matches Some(local) ==> local_is(lines, text[0]@, local)
        },
    }
}

/// The names that stand for locals are those that lines declare.
proof fn lemma_known_local(lines: Seq<ParsedFunctionLine>, names: FuncNames, name: Seq<char>)
    requires
        names_right(lines, names),
    ensures
        names.locals.contains_key(name) <==> names_local(lines, name),
        names.locals.contains_key(name) ==> local_is(
            lines,
            name,
            LocalId { key: names.locals[name] },
        ),
{
    if names.locals.contains_key(name) {
        let id = LocalId { key: names.locals[name] };
        assert(local_is(lines, name, id));
        let j = choose|j: int| #[trigger]
            last_local(lines, name, j) && id.key == key_at(locals_before(lines, j) as int);
        assert(local_line(lines[j]) == Some(name));
    }
}

proof fn lemma_passed_written(
    lines: Seq<ParsedFunctionLine>,
    names: FuncNames,
    text: Seq<String>,
    at: int,
)
    requires
        names_right(lines, names),
        0 <= at <= text.len(),
    ensures
        locals_named(names.locals, text.skip(at)) matches Ok(args) ==> {
            &&& text.len() == at + args.len()
            &&& forall|i: int|
                0 <= i < args.len() ==> local_is(lines, text[at + i]@, #[trigger] args[i])
        },
{
    let rest = text.skip(at);
    if let Ok(args) = locals_named(names.locals, rest) {
        assert forall|i: int| 0 <= i < args.len() implies local_is(
            lines,
            text[at + i]@,
            #[trigger] args[i],
        ) by {
            assert(rest[i] == text[at + i]);
            assert(names.locals.contains_key(rest[i]@));
        }
    }
}

/// A call is translated to what is written.
proof fn lemma_call_written(
    items: Seq<ParsedItem>,
    lines: Seq<ParsedFunctionLine>,
    names: FuncNames,
    funcs: Names,
    text: Seq<String>,
)
    requires
        names_right(lines, names),
        func_names_right(items, funcs),
    ensures
        call_of(names, funcs, text) matches Ok(end) ==> end is Call && end_written(
            items,
            lines,
            end,
            "call"@,
            text,
        ),
{
    if let Ok(end) = call_of(names, funcs, text) {
        lemma_known_local(lines, names, text[1]@);
        let at = if end->Call_store_ret is Some {
            2int
        } else {
            1int
        };
        assert(names.blocks.contains_key(text[at]@));
        assert(funcs.contains_key(text[0]@));
        lemma_passed_written(lines, names, text, at + 1);
        let args = end->Call_args;
        assert forall|i: int| 0 <= i < args.len() implies local_is(
            lines,
            text[at + 1 + i]@,
            #[trigger] args[i],
        ) by {}
    }
}

/// The end of a block is translated to what is written.
#[verifier::spinoff_prover]
#[verifier::rlimit(40)]
pub proof fn law_end_is_as_written(
    items: Seq<ParsedItem>,
    lines: Seq<ParsedFunctionLine>,
    names: FuncNames,
    funcs: Names,
    word: Seq<char>,
    text: Seq<String>,
)
    requires
        names_right(lines, names),
        func_names_right(items, funcs),
    ensures
        final_of(names, funcs, word, text) matches Ok(end) ==> end_written(
            items,
            lines,
            end,
            word,
            text,
        ),
{
    if let Ok(end) = final_of(names, funcs, word, text) {
        match end {
            FinalModel::Br { next } => {
                assert(names.blocks.contains_key(text[0]@));
            },
            FinalModel::BrIf { cond, is_true, is_false } => {
                lemma_known_local(lines, names, text[0]@);
                assert(names.blocks.contains_key(text[1]@));
                assert(names.blocks.contains_key(text[2]@));
            },
            FinalModel::Call { .. } => {
                lemma_call_written(items, lines, names, funcs, text);
            },
            FinalModel::Return { value } => {
                if value is Some {
                    lemma_known_local(lines, names, text[0]@);
                }
            },
        }
    }
}

/// Whether some line holds a block of that name.
pub open spec fn names_block(lines: Seq<ParsedFunctionLine>, name: Seq<char>) -> bool {
    exists|j: int| 0 <= j < lines.len() && block_line(#[trigger] lines[j]) == Some(name)
}

/// Whether some item is a function of that name.
pub open spec fn names_func(items: Seq<ParsedItem>, name: Seq<char>) -> bool {
    exists|j: int| 0 <= j < items.len() && func_item(#[trigger] items[j]) == Some(name)
}

/// Whether the end of a block can be understood: it has one of four words, and its
/// arguments name what they should.
pub open spec fn end_known(
    items: Seq<ParsedItem>,
    lines: Seq<ParsedFunctionLine>,
    word: Seq<char>,
    text: Seq<String>,
) -> bool {
    ||| word == "br"@ && text.len() >= 1 && names_block(lines, text[0]@)
    ||| word == "brif"@ && text.len() >= 3 && names_local(lines, text[0]@) && names_block(
        lines,
        text[1]@,
    ) && names_block(lines, text[2]@)
    ||| word == "call"@ && text.len() >= 2 && names_func(items, text[0]@) && {
        let at = if names_local(lines, text[1]@) {
            2int
        } else {
            1int
        };
        &&& text.len() > at
        &&& names_block(lines, text[at]@)
        &&& forall|i: int| at < i < text.len() ==> names_local(lines, (#[trigger] text[i])@)
    }
    ||| word == "return"@ && (text.len() == 0 || names_local(lines, text[0]@))
}

/// The names that lines give to blocks stand for them.
proof fn lemma_known_blocks(lines: Seq<ParsedFunctionLine>, names: FuncNames)
    requires
        names_right(lines, names),
    ensures
        forall|name: Seq<char>| #[trigger]
            names_block(lines, name) ==> names.blocks.contains_key(name),
{
    assert forall|name: Seq<char>| #[trigger] names_block(
        lines,
        name,
    ) implies names.blocks.contains_key(name) by {
        let j = choose|j: int|
            0 <= j < lines.len() && block_line(#[trigger] lines[j]) == Some(name);
        assert(block_line(lines[j]) == Some(name));
    }
}

/// An end of a block that can be understood is translated.
pub proof fn law_known_end_is_translated(
    items: Seq<ParsedItem>,
    lines: Seq<ParsedFunctionLine>,
    names: FuncNames,
    funcs: Names,
    word: Seq<char>,
    text: Seq<String>,
)
    requires
        names_right(lines, names),
        forall|j: int|
            #![trigger items[j]]
            0 <= j < items.len() ==> (func_item(items[j]) matches Some(name) ==> funcs.contains_key(
                name,
            )),
        end_known(items, lines, word, text),
    ensures
        final_of(names, funcs, word, text) is Ok,
{
    reveal_strlit("br");
    reveal_strlit("brif");
    reveal_strlit("call");
    reveal_strlit("return");
    assert("brif"@[0] == 'b' && "brif"@.len() == 4);
    assert("call"@[0] == 'c' && "call"@.len() == 4);
    assert("br"@.len() == 2);
    assert("return"@.len() == 6);
    assert("brif"@ != "call"@);
    lemma_known_blocks(lines, names);
    if text.len() > 0 {
        lemma_known_local(lines, names, text[0]@);
    }
    if word == "call"@ {
        lemma_known_local(lines, names, text[1]@);
        let at = if names_local(lines, text[1]@) {
            2int
        } else {
            1int
        };
        let rest = text.skip(at + 1);
        assert forall|i: int| 0 <= i < rest.len() implies names.locals.contains_key(
            (#[trigger] rest[i])@,
        ) by {
            assert(rest[i] == text[at + 1 + i]);
            lemma_known_local(lines, names, rest[i]@);
        }
        assert(funcs.contains_key(text[0]@));
        assert(names.blocks.contains_key(text[at]@));
    }
}

/// The counts of the front of the lines are those of the lines.
proof fn lemma_before_front(lines: Seq<ParsedFunctionLine>, n: int)
    requires
        0 <= n < lines.len(),
    ensures
        locals_before(lines.drop_last(), n) == locals_before(lines, n),
        blocks_before(lines.drop_last(), n) == blocks_before(lines, n),
    decreases n,
{
    if n > 0 {
        lemma_before_front(lines, n - 1);
    }
}

/// Counts do not fall.
proof fn lemma_before_order(lines: Seq<ParsedFunctionLine>, a: int, b: int)
    requires
        0 <= a < b <= lines.len(),
    ensures
        locals_before(lines, a) <= locals_before(lines, b),
        blocks_before(lines, a) <= blocks_before(lines, b),
        local_line(lines[a]) is Some ==> locals_before(lines, a) < locals_before(lines, b),
        block_line(lines[a]) is Some ==> blocks_before(lines, a) < blocks_before(lines, b),
    decreases b - a,
{
    if a < b - 1 {
        lemma_before_order(lines, a, b - 1);
    }
}

/// A name of a local stands for it until another local gets the name.
proof fn lemma_local_is_longer(lines: Seq<ParsedFunctionLine>, name: Seq<char>, id: LocalId)
    requires
        lines.len() > 0,
        local_is(lines.drop_last(), name, id),
        local_line(lines.last()) != Some(name),
    ensures
        local_is(lines, name, id),
{
    let front = lines.drop_last();
    let j = choose|j: int| #[trigger]
        last_local(front, name, j) && id.key == key_at(locals_before(front, j) as int);
    lemma_before_front(lines, j);
    assert forall|k: int| j < k < lines.len() implies local_line(#[trigger] lines[k]) != Some(
        name,
    ) by {
        if k < front.len() {
            assert(front[k] == lines[k]);
        }
    }
    assert(front[j] == lines[j]);
    assert(last_local(lines, name, j));
}

/// A name of a block stands for it until another block gets the name.
proof fn lemma_block_is_longer(lines: Seq<ParsedFunctionLine>, name: Seq<char>, id: BasicBlockId)
    requires
        lines.len() > 0,
        block_is(lines.drop_last(), name, id),
        block_line(lines.last()) != Some(name),
    ensures
        block_is(lines, name, id),
{
    let front = lines.drop_last();
    let j = choose|j: int| #[trigger]
        last_block(front, name, j) && id.key == key_at(blocks_before(front, j) as int);
    lemma_before_front(lines, j);
    assert forall|k: int| j < k < lines.len() implies block_line(#[trigger] lines[k]) != Some(
        name,
    ) by {
        if k < front.len() {
            assert(front[k] == lines[k]);
        }
    }
    assert(front[j] == lines[j]);
    assert(last_block(lines, name, j));
}

/// One more line.
proof fn lemma_names_longer(lines: Seq<ParsedFunctionLine>, before: FuncNames, after: FuncNames)
    requires
        lines.len() > 0,
        names_right(lines.drop_last(), before),
        match local_line(lines.last()) {
            Some(name) => after.locals == before.locals.insert(
                name,
                key_at(locals_before(lines, lines.len() - 1) as int),
            ),
            None => after.locals == before.locals,
        },
        match block_line(lines.last()) {
            Some(name) => after.blocks == before.blocks.insert(
                name,
                key_at(blocks_before(lines, lines.len() - 1) as int),
            ),
            None => after.blocks == before.blocks,
        },
    ensures
        names_right(lines, after),
{
    let front = lines.drop_last();
    let n = lines.len() - 1;
    assert(lines[n] == lines.last());
    assert forall|name: Seq<char>| #[trigger] after.locals.contains_key(name) implies local_is(
        lines,
        name,
        LocalId { key: after.locals[name] },
    ) by {
        if local_line(lines[n]) == Some(name) {
            assert(last_local(lines, name, n));
        } else {
            assert(before.locals.contains_key(name));
            lemma_local_is_longer(lines, name, LocalId { key: before.locals[name] });
        }
    }
    assert forall|name: Seq<char>| #[trigger] after.blocks.contains_key(name) implies block_is(
        lines,
        name,
        BasicBlockId { key: after.blocks[name] },
    ) by {
        if block_line(lines[n]) == Some(name) {
            assert(last_block(lines, name, n));
        } else {
            assert(before.blocks.contains_key(name));
            lemma_block_is_longer(lines, name, BasicBlockId { key: before.blocks[name] });
        }
    }
    assert forall|j: int| #![trigger lines[j]] 0 <= j < lines.len() implies (local_line(
        lines[j],
    ) matches Some(name) ==> after.locals.contains_key(name)) by {
        if j < n {
            assert(front[j] == lines[j]);
        }
    }
    assert forall|j: int| #![trigger lines[j]] 0 <= j < lines.len() implies (block_line(
        lines[j],
    ) matches Some(name) ==> after.blocks.contains_key(name)) by {
        if j < n {
            assert(front[j] == lines[j]);
        }
    }
}

/// The locals and blocks that lines declare are known by the names in the lines.
proof fn lemma_declared_names(type_names: Names, begun: FuncState, lines: Seq<ParsedFunctionLine>)
    requires
        begun.func.locals.len() == 0,
        begun.func.blocks.len() == 0,
        begun.locals == Map::<Seq<char>, u64>::empty(),
        begun.blocks == Map::<Seq<char>, u64>::empty(),
    ensures
        declare_lines(type_names, begun, lines) matches Ok(after) ==> {
            &&& names_right(lines, after.names())
            &&& after.func.locals.len() == locals_before(lines, lines.len() as int) <= MAX_SLOTS
            &&& after.func.blocks.len() == blocks_before(lines, lines.len() as int) <= MAX_SLOTS
            &&& forall|i: int|
                0 <= i < after.func.blocks.len() ==> (#[trigger] after.func.blocks[i])
                    == empty_block()
            &&& after.func.name == begun.func.name
            &&& after.func.entrypoint == begun.func.entrypoint
            &&& after.func.return_type == begun.func.return_type
        },
    decreases lines.len(),
{
    if lines.len() > 0 {
        let front = lines.drop_last();
        lemma_declared_names(type_names, begun, front);
        if let Ok(after) = declare_lines(type_names, begun, lines) {
            let before = declare_lines(type_names, begun, front)->Ok_0;
            lemma_counts_longer(lines);
            lemma_names_longer(lines, before.names(), after.names());
        }
    }
}

proof fn lemma_counts_longer(lines: Seq<ParsedFunctionLine>)
    requires
        lines.len() > 0,
    ensures
        locals_before(lines, lines.len() - 1) == locals_before(
            lines.drop_last(),
            lines.len() - 1,
        ),
        blocks_before(lines, lines.len() - 1) == blocks_before(
            lines.drop_last(),
            lines.len() - 1,
        ),
        locals_before(lines, lines.len() as int) == locals_before(lines, lines.len() - 1) + (
        if local_line(lines.last()) is Some {
            1int
        } else {
            0int
        }),
        blocks_before(lines, lines.len() as int) == blocks_before(lines, lines.len() - 1) + (
        if block_line(lines.last()) is Some {
            1int
        } else {
            0int
        }),
{
    lemma_before_front(lines, lines.len() - 1);
}

/// Whether the block that line `j` holds has what the line says.
#[verifier::opaque]
pub open spec fn block_written(
    items: Seq<ParsedItem>,
    lines: Seq<ParsedFunctionLine>,
    func: FuncModel,
    j: int,
) -> bool {
    lines[j] matches ParsedFunctionLine::Block { lines: text, term_ins, term_args, .. } ==> {
        let block = func.blocks[blocks_before(lines, j) as int];
        &&& inss_written(lines, func.locals, block.instructions, text@)
        &&& end_written(items, lines, block.ins_final, word_of(term_ins@), term_args@)
    }
}

/// Whether no two blocks have the same name.
pub open spec fn blocks_apart(lines: Seq<ParsedFunctionLine>) -> bool {
    forall|i: int, j: int|
        0 <= i < j < lines.len() && block_line(#[trigger] lines[i]) is Some ==> block_line(
            lines[i],
        ) != block_line(#[trigger] lines[j])
}

/// The line of a block that has its name alone is the one that the name leads to.
proof fn lemma_block_of_line(
    lines: Seq<ParsedFunctionLine>,
    names: FuncNames,
    name: Seq<char>,
    j: int,
)
    requires
        blocks_apart(lines),
        names_right(lines, names),
        0 <= j < lines.len(),
        block_line(lines[j]) == Some(name),
        blocks_before(lines, lines.len() as int) <= MAX_SLOTS,
    ensures
        names.blocks.contains_key(name),
        key_pos(names.blocks[name]) == blocks_before(lines, j),
        blocks_before(lines, j) < blocks_before(lines, lines.len() as int),
{
    let id = BasicBlockId { key: names.blocks[name] };
    assert(names.blocks.contains_key(name));
    assert(block_is(lines, name, id));
    let at = choose|k: int| #[trigger]
        last_block(lines, name, k) && id.key == key_at(blocks_before(lines, k) as int);
    if at < j {
        assert(block_line(lines[at]) != block_line(lines[j]));
    } else if at > j {
        assert(block_line(lines[j]) != block_line(lines[at]));
    }
    lemma_before_order(lines, j, lines.len() as int);
}

/// What a block has does not depend on the other blocks.
proof fn lemma_block_written_same(
    items: Seq<ParsedItem>,
    lines: Seq<ParsedFunctionLine>,
    before: FuncModel,
    after: FuncModel,
    j: int,
)
    requires
        block_written(items, lines, before, j),
        block_line(lines[j]) is Some ==> after.locals == before.locals
            && after.blocks[blocks_before(lines, j) as int] == before.blocks[blocks_before(
            lines,
            j,
        ) as int],
    ensures
        block_written(items, lines, after, j),
{
    reveal(block_written);
}

/// Giving blocks their code leaves everything else as it is.
proof fn lemma_define_line_keeps(func_names: Names, state: FuncState, line: ParsedFunctionLine)
    ensures
        define_line(func_names, state, line) matches Ok(after) ==> {
            &&& after.func.name == state.func.name
            &&& after.func.locals == state.func.locals
            &&& after.func.args == state.func.args
            &&& after.func.return_type == state.func.return_type
            &&& after.locals == state.locals
            &&& after.blocks == state.blocks
            &&& after.types == state.types
            &&& block_line(line) is None ==> after == state
        },
{
}

/// A block that has nothing yet gets what its line says, and the others stay.
proof fn lemma_define_block(
    items: Seq<ParsedItem>,
    func_names: Names,
    state: FuncState,
    lines: Seq<ParsedFunctionLine>,
    n: int,
)
    requires
        blocks_apart(lines),
        0 <= n < lines.len(),
        block_line(lines[n]) is Some,
        names_right(lines, state.names()),
        func_names_right(items, func_names),
        state.func.blocks.len() == blocks_before(lines, lines.len() as int) <= MAX_SLOTS,
        state.func.blocks[blocks_before(lines, n) as int] == empty_block(),
    ensures
        define_line(func_names, state, lines[n]) matches Ok(after) ==> {
            &&& after.func.blocks.len() == state.func.blocks.len()
            &&& block_written(items, lines, after.func, n)
            &&& forall|i: int|
                0 <= i < state.func.blocks.len() && i != blocks_before(lines, n) ==> (
                #[trigger] after.func.blocks[i]) == state.func.blocks[i]
        },
{
    reveal(block_written);
    if let ParsedFunctionLine::Block { name, lines: text, term_ins, term_args } = lines[n] {
        lemma_block_of_line(lines, state.names(), name@, n);
        lemma_lines_written(lines, state.names(), text@);
        law_end_is_as_written(
            items,
            lines,
            state.names(),
            func_names,
            word_of(term_ins@),
            term_args@,
        );
        if let Ok(inss) = lines_of(state.names(), text@) {
            assert(empty_block().instructions + inss =~= inss);
        }
    }
}

/// Whether the block that line `j` holds has nothing yet.
#[verifier::opaque]
spec fn block_waits(lines: Seq<ParsedFunctionLine>, func: FuncModel, j: int) -> bool {
    block_line(lines[j]) is Some ==> func.blocks[blocks_before(lines, j) as int] == empty_block()
}

/// Whether the first `n` lines were seen: their blocks have what they say, and the others
/// have nothing yet.
spec fn seen(
    items: Seq<ParsedItem>,
    lines: Seq<ParsedFunctionLine>,
    func: FuncModel,
    n: int,
) -> bool {
    &&& func.blocks.len() == blocks_before(lines, lines.len() as int)
    &&& forall|j: int| 0 <= j < n ==> #[trigger] block_written(items, lines, func, j)
    &&& forall|j: int| n <= j < lines.len() ==> #[trigger] block_waits(lines, func, j)
}

/// One more line is seen.
proof fn lemma_seen_longer(
    items: Seq<ParsedItem>,
    lines: Seq<ParsedFunctionLine>,
    before: FuncModel,
    after: FuncModel,
    n: int,
)
    requires
        0 <= n < lines.len(),
        seen(items, lines, before, n),
        after.locals == before.locals,
        after.blocks.len() == before.blocks.len(),
        block_written(items, lines, after, n),
        forall|i: int|
            0 <= i < before.blocks.len() && !(block_line(lines[n]) is Some && i == blocks_before(
                lines,
                n,
            )) ==> (#[trigger] after.blocks[i]) == before.blocks[i],
    ensures
        seen(items, lines, after, n + 1),
{
    assert forall|j: int| 0 <= j < n + 1 implies #[trigger] block_written(
        items,
        lines,
        after,
        j,
    ) by {
        if j < n {
            assert(block_written(items, lines, before, j));
            lemma_before_order(lines, j, n);
            lemma_before_order(lines, j, lines.len() as int);
            lemma_block_written_same(items, lines, before, after, j);
        }
    }
    assert forall|j: int| n + 1 <= j < lines.len() implies #[trigger] block_waits(
        lines,
        after,
        j,
    ) by {
        assert(block_waits(lines, before, j));
        reveal(block_waits);
        lemma_before_order(lines, n, j);
        lemma_before_order(lines, j, lines.len() as int);
    }
}

/// A line is translated as it is written.
proof fn lemma_define_line_written(
    items: Seq<ParsedItem>,
    func_names: Names,
    state: FuncState,
    lines: Seq<ParsedFunctionLine>,
    n: int,
)
    requires
        blocks_apart(lines),
        0 <= n < lines.len(),
        names_right(lines, state.names()),
        func_names_right(items, func_names),
        blocks_before(lines, lines.len() as int) <= MAX_SLOTS,
        state.func.blocks.len() == blocks_before(lines, lines.len() as int),
        block_waits(lines, state.func, n),
    ensures
        define_line(func_names, state, lines[n]) matches Ok(after) ==> {
            &&& after.func.locals == state.func.locals
            &&& after.func.blocks.len() == state.func.blocks.len()
            &&& block_written(items, lines, after.func, n)
            &&& forall|i: int|
                0 <= i < state.func.blocks.len() && !(block_line(lines[n]) is Some && i
                    == blocks_before(lines, n)) ==> (#[trigger] after.func.blocks[i])
                    == state.func.blocks[i]
        },
{
    lemma_define_line_keeps(func_names, state, lines[n]);
    if block_line(lines[n]) is Some {
        reveal(block_waits);
        lemma_define_block(items, func_names, state, lines, n);
    } else {
        reveal(block_written);
    }
}

/// Blocks get what their lines say.
proof fn lemma_defined_blocks(
    items: Seq<ParsedItem>,
    func_names: Names,
    state: FuncState,
    lines: Seq<ParsedFunctionLine>,
    n: int,
)
    requires
        blocks_apart(lines),
        0 <= n <= lines.len(),
        names_right(lines, state.names()),
        func_names_right(items, func_names),
        blocks_before(lines, lines.len() as int) <= MAX_SLOTS,
        seen(items, lines, state.func, 0),
    ensures
        define_lines(func_names, state, lines.take(n)) matches Ok(after) ==> {
            &&& after.func.name == state.func.name
            &&& after.func.locals == state.func.locals
            &&& after.func.args == state.func.args
            &&& after.func.return_type == state.func.return_type
            &&& after.locals == state.locals
            &&& after.blocks == state.blocks
            &&& after.types == state.types
            &&& seen(items, lines, after.func, n)
        },
    decreases n,
{
    if n == 0 {
        assert(lines.take(0) =~= Seq::empty());
    } else {
        lemma_defined_blocks(items, func_names, state, lines, n - 1);
        assert(lines.take(n).drop_last() =~= lines.take(n - 1));
        assert(lines.take(n).last() == lines[n - 1]);
        if let Ok(before) = define_lines(func_names, state, lines.take(n - 1)) {
            assert(before.names() == state.names());
            lemma_define_line_keeps(func_names, before, lines[n - 1]);
            assert(block_waits(lines, before.func, n - 1));
            lemma_define_line_written(items, func_names, before, lines, n - 1);
            if let Ok(after) = define_line(func_names, before, lines[n - 1]) {
                lemma_seen_longer(items, lines, before.func, after.func, n - 1);
            }
        }
    }
}

/// At first no block has anything.
proof fn lemma_seen_none(items: Seq<ParsedItem>, lines: Seq<ParsedFunctionLine>, func: FuncModel)
    requires
        func.blocks.len() == blocks_before(lines, lines.len() as int),
        forall|i: int|
            0 <= i < func.blocks.len() ==> (#[trigger] func.blocks[i]) == empty_block(),
    ensures
        seen(items, lines, func, 0),
{
    assert forall|j: int| 0 <= j < lines.len() implies #[trigger] block_waits(lines, func, j) by {
        reveal(block_waits);
        lemma_before_order(lines, j, lines.len() as int);
    }
}

/// The primitive type of that name.
pub open spec fn prim_named(name: Seq<char>) -> Option<TypeModel> {
    if name == "i32"@ {
        Some(TypeModel::PrimI32)
    } else if name == "i64"@ {
        Some(TypeModel::PrimI64)
    } else if name == "f32"@ {
        Some(TypeModel::PrimF32)
    } else if name == "bool"@ {
        Some(TypeModel::PrimBool)
    } else {
        None
    }
}

/// Whether some item is a struct of that name.
pub open spec fn names_struct(items: Seq<ParsedItem>, name: Seq<char>) -> bool {
    exists|j: int| 0 <= j < items.len() && struct_item(#[trigger] items[j]) == Some(name)
}

/// Whether a name is the name of that type: structs are numbered as they are written,
/// behind the four primitive types.
pub open spec fn type_named(
    items: Seq<ParsedItem>,
    types: TypesModel,
    name: Seq<char>,
    id: TypeId,
) -> bool {
    ||| exists|j: int| #[trigger]
        last_struct(items, name, j) && id.key == key_at(4 + structs_before(items, j) as int)
    ||| !names_struct(items, name) && 0 <= key_pos(id.key) < 4 && types.contains(id) && prim_named(
        name,
    ) == Some(types.info(id))
}

/// Whether a type is what the path says. The references in it are types that were made
/// for it, behind the first `low` types.
pub open spec fn type_is(
    items: Seq<ParsedItem>,
    types: TypesModel,
    id: TypeId,
    path: ParsedTypePath,
    low: int,
) -> bool
    decreases path,
{
    match path {
        ParsedTypePath::TypeName(name) => type_named(items, types, name@, id),
        ParsedTypePath::Ref(to) => {
            &&& low <= key_pos(id.key) < types.infos.len()
            &&& types.info(id) matches TypeModel::Ref(inner) && type_is(
                items,
                types,
                inner,
                *to,
                low,
            )
        },
        ParsedTypePath::GcRef(to) => {
            &&& low <= key_pos(id.key) < types.infos.len()
            &&& types.info(id) matches TypeModel::GcRef(inner) && type_is(
                items,
                types,
                inner,
                *to,
                low,
            )
        },
    }
}

/// Whether the primitive types and those from `low` on are as they were.
pub open spec fn types_stay(before: TypesModel, after: TypesModel, low: int) -> bool {
    &&& before.infos.len() <= after.infos.len()
    &&& forall|i: int|
        0 <= i < before.infos.len() && (i < 4 || low <= i) ==> (#[trigger] after.infos[i])
            == before.infos[i]
}

proof fn lemma_type_stays(
    items: Seq<ParsedItem>,
    before: TypesModel,
    after: TypesModel,
    id: TypeId,
    path: ParsedTypePath,
    low: int,
    lower: int,
)
    requires
        type_is(items, before, id, path, low),
        types_stay(before, after, low),
        0 <= lower <= low,
    ensures
        type_is(items, after, id, path, lower),
    decreases path,
{
    match path {
        ParsedTypePath::TypeName(name) => {
            if !(exists|j: int| #[trigger]
                last_struct(items, name@, j) && id.key == key_at(
                    4 + structs_before(items, j) as int,
                )) {
                assert(after.infos[key_pos(id.key)] == before.infos[key_pos(id.key)]);
            }
            assert(type_named(items, after, name@, id));
        },
        ParsedTypePath::Ref(to) => {
            assert(after.infos[key_pos(id.key)] == before.infos[key_pos(id.key)]);
            lemma_type_stays(items, before, after, before.info(id)->Ref_0, *to, low, lower);
        },
        ParsedTypePath::GcRef(to) => {
            assert(after.infos[key_pos(id.key)] == before.infos[key_pos(id.key)]);
            lemma_type_stays(items, before, after, before.info(id)->GcRef_0, *to, low, lower);
        },
    }
}

/// Whether the names of types stand for what the items declare.
pub open spec fn type_names_right(items: Seq<ParsedItem>, types: TypesModel, names: Names) -> bool {
    forall|name: Seq<char>| #[trigger]
        names.contains_key(name) ==> type_named(items, types, name, TypeId { key: names[name] })
}

/// A type is translated to what is written, and leaves those before it as they were.
pub proof fn law_type_is_as_written(
    items: Seq<ParsedItem>,
    types: TypesModel,
    names: Names,
    path: ParsedTypePath,
)
    requires
        type_names_right(items, types, names),
        4 <= types.infos.len() <= MAX_SLOTS,
    ensures
        path_type(types, names, path) matches Ok((after, id)) ==> {
            &&& type_is(items, after, id, path, types.infos.len() as int)
            &&& types_stay(types, after, 0)
            &&& after.infos.len() <= MAX_SLOTS
        },
    decreases path, 0int,
{
    match path {
        ParsedTypePath::TypeName(_) => {},
        ParsedTypePath::Ref(to) => {
            lemma_reference_written(items, types, names, *to);
        },
        ParsedTypePath::GcRef(to) => {
            lemma_reference_written(items, types, names, *to);
        },
    }
}

proof fn lemma_reference_written(
    items: Seq<ParsedItem>,
    types: TypesModel,
    names: Names,
    to: ParsedTypePath,
)
    requires
        type_names_right(items, types, names),
        4 <= types.infos.len() <= MAX_SLOTS,
    ensures
        types.infos.len() < MAX_SLOTS ==> (path_type(types.declared(), names, to) matches Ok(
            (after, inner),
        ) ==> {
            let id = type_at(types.infos.len() as int);
            let ref_to = after.defined(id, TypeModel::Ref(inner));
            let gc_ref_to = after.defined(id, TypeModel::GcRef(inner));
            &&& types.infos.len() < after.infos.len() <= MAX_SLOTS
            &&& key_pos(id.key) == types.infos.len()
            &&& types_stay(types, ref_to, 0)
            &&& types_stay(types, gc_ref_to, 0)
            &&& type_is(items, ref_to, inner, to, types.infos.len() as int)
            &&& type_is(items, gc_ref_to, inner, to, types.infos.len() as int)
        }),
    decreases to, 1int,
{
    if types.infos.len() < MAX_SLOTS {
        let declared = types.declared();
        let n = types.infos.len() as int;
        let id = type_at(n);
        assert(types_stay(types, declared, 0));
        assert(type_names_right(items, declared, names)) by {
            assert forall|name: Seq<char>| #[trigger]
                names.contains_key(name) implies type_named(
                items,
                declared,
                name,
                TypeId { key: names[name] },
            ) by {
                assert(type_named(items, types, name, TypeId { key: names[name] }));
            }
        }
        law_type_is_as_written(items, declared, names, to);
        if let Ok((after, inner)) = path_type(declared, names, to) {
            let ref_to = after.defined(id, TypeModel::Ref(inner));
            let gc_ref_to = after.defined(id, TypeModel::GcRef(inner));
            assert forall|i: int| 0 <= i < n implies (#[trigger] after.infos[i])
                == types.infos[i] by {
                assert(declared.infos[i] == types.infos[i]);
            }
            assert(types_stay(after, ref_to, n + 1));
            assert(types_stay(after, gc_ref_to, n + 1));
            lemma_type_stays(items, after, ref_to, inner, to, n + 1, n);
            lemma_type_stays(items, after, gc_ref_to, inner, to, n + 1, n);
        }
    }
}

/// Whether types are what the paths say.
pub open spec fn types_are(
    items: Seq<ParsedItem>,
    types: TypesModel,
    ids: Seq<TypeId>,
    paths: Seq<ParsedTypePath>,
    low: int,
) -> bool {
    &&& ids.len() == paths.len()
    &&& forall|k: int|
        0 <= k < ids.len() ==> type_is(items, types, #[trigger] ids[k], paths[k], low)
}

proof fn lemma_names_stay(
    items: Seq<ParsedItem>,
    before: TypesModel,
    after: TypesModel,
    names: Names,
    low: int,
)
    requires
        type_names_right(items, before, names),
        types_stay(before, after, low),
    ensures
        type_names_right(items, after, names),
{
    assert forall|name: Seq<char>| #[trigger] names.contains_key(name) implies type_named(
        items,
        after,
        name,
        TypeId { key: names[name] },
    ) by {
        assert(type_named(items, before, name, TypeId { key: names[name] }));
    }
}

proof fn lemma_types_written(
    items: Seq<ParsedItem>,
    types: TypesModel,
    names: Names,
    paths: Seq<ParsedTypePath>,
)
    requires
        type_names_right(items, types, names),
        4 <= types.infos.len() <= MAX_SLOTS,
    ensures
        path_types(types, names, paths) matches Ok((after, ids)) ==> {
            &&& types_are(items, after, ids, paths, types.infos.len() as int)
            &&& types_stay(types, after, 0)
            &&& after.infos.len() <= MAX_SLOTS
        },
    decreases paths.len(),
{
    if paths.len() > 0 {
        let front = paths.drop_last();
        lemma_types_written(items, types, names, front);
        if let Ok((before, ids)) = path_types(types, names, front) {
            lemma_names_stay(items, types, before, names, 0);
            law_type_is_as_written(items, before, names, paths.last());
            if let Ok((after, id)) = path_type(before, names, paths.last()) {
                let low = types.infos.len() as int;
                lemma_type_stays(
                    items,
                    after,
                    after,
                    id,
                    paths.last(),
                    before.infos.len() as int,
                    low,
                );
                assert forall|k: int| 0 <= k < paths.len() implies type_is(
                    items,
                    after,
                    #[trigger] ids.push(id)[k],
                    paths[k],
                    low,
                ) by {
                    if k < front.len() {
                        assert(type_is(items, before, ids[k], front[k], low));
                        lemma_type_stays(items, before, after, ids[k], front[k], low, low);
                    }
                }
            }
        }
    }
}

/// Whether the local that line `j` declares has the type that the line says.
#[verifier::opaque]
pub open spec fn local_typed(
    items: Seq<ParsedItem>,
    lines: Seq<ParsedFunctionLine>,
    types: TypesModel,
    locals: Seq<TypeId>,
    j: int,
    low: int,
) -> bool {
    lines[j] matches ParsedFunctionLine::DecLocal { ty, .. } ==> type_is(
        items,
        types,
        locals[locals_before(lines, j) as int],
        ty,
        low,
    )
}

proof fn lemma_local_typed_stays(
    items: Seq<ParsedItem>,
    lines: Seq<ParsedFunctionLine>,
    before: TypesModel,
    after: TypesModel,
    locals: Seq<TypeId>,
    more: Seq<TypeId>,
    j: int,
    low: int,
)
    requires
        local_typed(items, lines, before, locals, j, low),
        types_stay(before, after, low),
        0 <= low,
        local_line(lines[j]) is Some ==> more[locals_before(lines, j) as int]
            == locals[locals_before(lines, j) as int],
    ensures
        local_typed(items, lines, after, more, j, low),
{
    reveal(local_typed);
    if let ParsedFunctionLine::DecLocal { ty, .. } = lines[j] {
        lemma_type_stays(
            items,
            before,
            after,
            locals[locals_before(lines, j) as int],
            ty,
            low,
            low,
        );
    }
}

/// One more line declares a local of the type that it says.
proof fn lemma_declare_line_typed(
    items: Seq<ParsedItem>,
    type_names: Names,
    state: FuncState,
    lines: Seq<ParsedFunctionLine>,
    n: int,
    low: int,
)
    requires
        0 <= n < lines.len(),
        type_names_right(items, state.types, type_names),
        4 <= low <= state.types.infos.len() <= MAX_SLOTS,
        state.func.locals.len() == locals_before(lines, n),
    ensures
        declare_line(type_names, state, lines[n]) matches Ok(after) ==> {
            &&& types_stay(state.types, after.types, 0)
            &&& after.types.infos.len() <= MAX_SLOTS
            &&& after.func.locals.len() == locals_before(lines, n + 1)
            &&& local_typed(items, lines, after.types, after.func.locals, n, low)
            &&& forall|i: int|
                0 <= i < state.func.locals.len() ==> (#[trigger] after.func.locals[i])
                    == state.func.locals[i]
        },
{
    reveal(local_typed);
    if let ParsedFunctionLine::DecLocal { ty, .. } = lines[n] {
        law_type_is_as_written(items, state.types, type_names, ty);
        if let Ok((types, id)) = path_type(state.types, type_names, ty) {
            lemma_type_stays(
                items,
                types,
                types,
                id,
                ty,
                state.types.infos.len() as int,
                low,
            );
        }
    }
}

proof fn lemma_declared_types(
    items: Seq<ParsedItem>,
    type_names: Names,
    begun: FuncState,
    lines: Seq<ParsedFunctionLine>,
    n: int,
    low: int,
)
    requires
        0 <= n <= lines.len(),
        type_names_right(items, begun.types, type_names),
        4 <= low <= begun.types.infos.len() <= MAX_SLOTS,
        begun.func.locals.len() == 0,
    ensures
        declare_lines(type_names, begun, lines.take(n)) matches Ok(after) ==> {
            &&& types_stay(begun.types, after.types, 0)
            &&& after.types.infos.len() <= MAX_SLOTS
            &&& after.func.locals.len() == locals_before(lines, n)
            &&& forall|j: int|
                0 <= j < n ==> #[trigger] local_typed(
                    items,
                    lines,
                    after.types,
                    after.func.locals,
                    j,
                    low,
                )
        },
    decreases n,
{
    if n == 0 {
        assert(lines.take(0) =~= Seq::empty());
    } else {
        lemma_declared_types(items, type_names, begun, lines, n - 1, low);
        assert(lines.take(n).drop_last() =~= lines.take(n - 1));
        assert(lines.take(n).last() == lines[n - 1]);
        if let Ok(before) = declare_lines(type_names, begun, lines.take(n - 1)) {
            lemma_names_stay(items, begun.types, before.types, type_names, 0);
            lemma_declare_line_typed(items, type_names, before, lines, n - 1, low);
            if let Ok(after) = declare_line(type_names, before, lines[n - 1]) {
                lemma_typed_longer(
                    items,
                    lines,
                    before.types,
                    after.types,
                    before.func.locals,
                    after.func.locals,
                    n,
                    low,
                );
                assert(types_stay(begun.types, after.types, 0)) by {
                    assert forall|i: int| 0 <= i < begun.types.infos.len() implies (
                    #[trigger] after.types.infos[i]) == begun.types.infos[i] by {
                        assert(before.types.infos[i] == begun.types.infos[i]);
                    }
                }
            }
        }
    }
}

proof fn lemma_typed_longer(
    items: Seq<ParsedItem>,
    lines: Seq<ParsedFunctionLine>,
    before: TypesModel,
    after: TypesModel,
    locals: Seq<TypeId>,
    more: Seq<TypeId>,
    n: int,
    low: int,
)
    requires
        0 < n <= lines.len(),
        4 <= low,
        types_stay(before, after, 0),
        locals.len() == locals_before(lines, n - 1),
        forall|i: int| 0 <= i < locals.len() ==> (#[trigger] more[i]) == locals[i],
        forall|j: int|
            0 <= j < n - 1 ==> #[trigger] local_typed(items, lines, before, locals, j, low),
        local_typed(items, lines, after, more, n - 1, low),
    ensures
        forall|j: int| 0 <= j < n ==> #[trigger] local_typed(items, lines, after, more, j, low),
{
    assert forall|j: int| 0 <= j < n implies #[trigger] local_typed(
        items,
        lines,
        after,
        more,
        j,
        low,
    ) by {
        if j < n - 1 {
            assert(local_typed(items, lines, before, locals, j, low));
            lemma_before_order(lines, j, n - 1);
            lemma_local_typed_stays(items, lines, before, after, locals, more, j, low);
        }
    }
}

/// Whether a function is what is written: it has the name, the result and the arguments,
/// a local of its type for each line that declares one, a block for each line that holds
/// one, and it starts with the first of them.
pub open spec fn func_written(
    items: Seq<ParsedItem>,
    types: TypesModel,
    func: FuncModel,
    name: Seq<char>,
    arg_locals: Seq<String>,
    lines: Seq<ParsedFunctionLine>,
    ret_ty: Option<ParsedTypePath>,
    low: int,
) -> bool {
    &&& func.name == name
    &&& match (func.return_type, ret_ty) {
        (Some(id), Some(path)) => type_is(items, types, id, path, low),
        (None, None) => true,
        _ => false,
    }
    &&& func.args.len() == arg_locals.len()
    &&& forall|i: int|
        0 <= i < func.args.len() ==> local_is(lines, arg_locals[i]@, #[trigger] func.args[i])
    &&& func.locals.len() == locals_before(lines, lines.len() as int)
    &&& func.blocks.len() == blocks_before(lines, lines.len() as int)
    &&& forall|j: int|
        0 <= j < lines.len() ==> #[trigger] local_typed(items, lines, types, func.locals, j, low)
    &&& forall|j: int| 0 <= j < lines.len() ==> #[trigger] block_written(items, lines, func, j)
    &&& func.blocks.len() > 0 ==> func.entrypoint.key == key_at(0)
}

/// The first line that holds a block.
proof fn lemma_first_block(lines: Seq<ParsedFunctionLine>, n: int) -> (i: int)
    requires
        0 <= n <= lines.len(),
        blocks_before(lines, n) > 0,
    ensures
        0 <= i < n,
        block_line(lines[i]) is Some,
        blocks_before(lines, i) == 0,
        forall|j: int| 0 <= j < i ==> block_line(#[trigger] lines[j]) is None,
    decreases n,
{
    if blocks_before(lines, n - 1) > 0 {
        lemma_first_block(lines, n - 1)
    } else {
        assert forall|j: int| 0 <= j < n - 1 implies block_line(#[trigger] lines[j]) is None by {
            lemma_before_order(lines, j, n - 1);
        }
        n - 1
    }
}

/// A function is translated to what is written.
pub proof fn law_function_is_as_written(
    items: Seq<ParsedItem>,
    types: TypesModel,
    type_names: Names,
    func_names: Names,
    name: Seq<char>,
    arg_locals: Seq<String>,
    lines: Seq<ParsedFunctionLine>,
    ret_ty: Option<ParsedTypePath>,
    low: int,
)
    requires
        type_names_right(items, types, type_names),
        func_names_right(items, func_names),
        4 <= low <= types.infos.len() <= MAX_SLOTS,
        blocks_apart(lines),
    ensures
        function_of(
            types,
            type_names,
            func_names,
            empty_func(),
            name,
            arg_locals,
            lines,
            ret_ty,
        ) matches Ok((after, func)) ==> {
            &&& func_written(items, after, func, name, arg_locals, lines, ret_ty, low)
            &&& types_stay(types, after, 0)
            &&& after.infos.len() <= MAX_SLOTS
        },
{
    if let Some(path) = ret_ty {
        law_type_is_as_written(items, types, type_names, path);
    }
    if let Ok((returned, return_type)) = return_of(types, type_names, ret_ty) {
        let begun = FuncState {
            types: returned,
            func: FuncModel { name, return_type, ..empty_func() },
            locals: Map::empty(),
            blocks: Map::empty(),
        };
        lemma_names_stay(items, types, returned, type_names, 0);
        if let Ok(declared) = declare_lines(type_names, begun, lines) {
            lemma_declared(items, type_names, begun, declared, lines, low);
            if let Ok(args) = locals_named(declared.locals, arg_locals) {
                let argued = FuncState {
                    func: FuncModel { args, ..declared.func },
                    ..declared
                };
                lemma_args_written(declared, arg_locals, lines);
                assert(seen_same(items, lines, argued.func)) by {
                    assert(seen(items, lines, declared.func, 0));
                }
                if let Ok(defined) = define_lines(func_names, argued, lines) {
                    lemma_defined(items, func_names, argued, defined, lines);
                    if let Some(path) = ret_ty {
                        lemma_type_stays(
                            items,
                            returned,
                            defined.types,
                            return_type->0,
                            path,
                            types.infos.len() as int,
                            low,
                        );
                    }
                    lemma_stay_on(types, returned, defined.types);
                }
            }
        }
    }
}

proof fn lemma_stay_on(before: TypesModel, between: TypesModel, after: TypesModel)
    requires
        types_stay(before, between, 0),
        types_stay(between, after, 0),
    ensures
        types_stay(before, after, 0),
{
    assert forall|i: int| 0 <= i < before.infos.len() implies (#[trigger] after.infos[i])
        == before.infos[i] by {
        assert(between.infos[i] == before.infos[i]);
    }
}

/// What holds when the locals and blocks are declared.
proof fn lemma_declared(
    items: Seq<ParsedItem>,
    type_names: Names,
    begun: FuncState,
    declared: FuncState,
    lines: Seq<ParsedFunctionLine>,
    low: int,
)
    requires
        declare_lines(type_names, begun, lines) == Ok::<FuncState, ParseError>(declared),
        type_names_right(items, begun.types, type_names),
        4 <= low <= begun.types.infos.len() <= MAX_SLOTS,
        begun.func.locals.len() == 0,
        begun.func.blocks.len() == 0,
        begun.locals == Map::<Seq<char>, u64>::empty(),
        begun.blocks == Map::<Seq<char>, u64>::empty(),
    ensures
        declared_right(items, begun, declared, lines, low),
{
    assert(lines.take(lines.len() as int) =~= lines);
    lemma_declared_names(type_names, begun, lines);
    lemma_declared_types(items, type_names, begun, lines, lines.len() as int, low);
    lemma_seen_none(items, lines, declared.func);
}

spec fn declared_right(
    items: Seq<ParsedItem>,
    begun: FuncState,
    declared: FuncState,
    lines: Seq<ParsedFunctionLine>,
    low: int,
) -> bool {
    &&& names_right(lines, declared.names())
    &&& declared.func.locals.len() == locals_before(lines, lines.len() as int) <= MAX_SLOTS
    &&& blocks_before(lines, lines.len() as int) <= MAX_SLOTS
    &&& declared.func.name == begun.func.name
    &&& declared.func.entrypoint == begun.func.entrypoint
    &&& declared.func.return_type == begun.func.return_type
    &&& types_stay(begun.types, declared.types, 0)
    &&& declared.types.infos.len() <= MAX_SLOTS
    &&& seen(items, lines, declared.func, 0)
    &&& forall|j: int|
        0 <= j < lines.len() ==> #[trigger] local_typed(
            items,
            lines,
            declared.types,
            declared.func.locals,
            j,
            low,
        )
}

proof fn lemma_args_written(
    declared: FuncState,
    arg_locals: Seq<String>,
    lines: Seq<ParsedFunctionLine>,
)
    requires
        names_right(lines, declared.names()),
    ensures
        locals_named(declared.locals, arg_locals) matches Ok(args) ==> {
            &&& args.len() == arg_locals.len()
            &&& forall|i: int|
                0 <= i < args.len() ==> local_is(lines, arg_locals[i]@, #[trigger] args[i])
        },
{
    if let Ok(args) = locals_named(declared.locals, arg_locals) {
        assert forall|i: int| 0 <= i < args.len() implies local_is(
            lines,
            arg_locals[i]@,
            #[trigger] args[i],
        ) by {
            assert(declared.names().locals.contains_key(arg_locals[i]@));
        }
    }
}

/// What holds when the blocks have their code.
proof fn lemma_defined(
    items: Seq<ParsedItem>,
    func_names: Names,
    argued: FuncState,
    defined: FuncState,
    lines: Seq<ParsedFunctionLine>,
)
    requires
        define_lines(func_names, argued, lines) == Ok::<FuncState, ParseError>(defined),
        blocks_apart(lines),
        names_right(lines, argued.names()),
        func_names_right(items, func_names),
        argued.func.locals.len() == locals_before(lines, lines.len() as int) <= MAX_SLOTS,
        blocks_before(lines, lines.len() as int) <= MAX_SLOTS,
        seen_same(items, lines, argued.func),
        no_block(argued.func.entrypoint),
    ensures
        defined.func.name == argued.func.name,
        defined.func.locals == argued.func.locals,
        defined.func.args == argued.func.args,
        defined.func.return_type == argued.func.return_type,
        defined.types == argued.types,
        defined.func.blocks.len() == blocks_before(lines, lines.len() as int),
        forall|j: int|
            0 <= j < lines.len() ==> #[trigger] block_written(items, lines, defined.func, j),
        defined.func.blocks.len() > 0 ==> defined.func.entrypoint.key == key_at(0),
{
    assert(lines.take(lines.len() as int) =~= lines);
    let declared = choose|declared: FuncModel| #[trigger]
        seen(items, lines, declared, 0) && declared.blocks == argued.func.blocks;
    assert forall|j: int| 0 <= j < lines.len() implies #[trigger] block_waits(
        lines,
        argued.func,
        j,
    ) by {
        assert(block_waits(lines, declared, j));
        reveal(block_waits);
    }
    lemma_defined_blocks(items, func_names, argued, lines, lines.len() as int);
    if defined.func.blocks.len() > 0 {
        lemma_starts_first(func_names, argued, lines);
    }
}

/// Whether no line was seen yet. The arguments do not matter to that.
spec fn seen_same(
    items: Seq<ParsedItem>,
    lines: Seq<ParsedFunctionLine>,
    func: FuncModel,
) -> bool {
    exists|declared: FuncModel| #[trigger]
        seen(items, lines, declared, 0) && declared.blocks == func.blocks
}

/// A function starts with its first block.
proof fn lemma_starts_first(func_names: Names, state: FuncState, lines: Seq<ParsedFunctionLine>)
    requires
        blocks_apart(lines),
        names_right(lines, state.names()),
        state.func.blocks.len() == blocks_before(lines, lines.len() as int) <= MAX_SLOTS,
        state.func.locals.len() == locals_before(lines, lines.len() as int) <= MAX_SLOTS,
        state.func.blocks.len() > 0,
        no_block(state.func.entrypoint),
    ensures
        define_lines(func_names, state, lines) matches Ok(after) ==> after.func.entrypoint.key
            == key_at(0),
{
    let i = lemma_first_block(lines, lines.len() as int);
    let name = block_line(lines[i])->0;
    lemma_block_of_line(lines, state.names(), name, i);
    assert(block_is(lines, name, BasicBlockId { key: state.blocks[name] }));
    let at = choose|k: int| #[trigger]
        last_block(lines, name, k) && state.blocks[name] == key_at(blocks_before(lines, k) as int);
    lemma_before_order(lines, at, lines.len() as int);
    assert(state.blocks[name] == key_at(0));
    lemma_state_wf(state, lines);
    assert forall|j: int| 0 <= j < i implies (#[trigger] lines[j]) is DecLocal by {
        assert(block_line(lines[j]) is None);
    }
    law_first_block_starts(func_names, state, lines, i);
}

/// Every name of a local or of a block stands for one.
proof fn lemma_state_wf(state: FuncState, lines: Seq<ParsedFunctionLine>)
    requires
        names_right(lines, state.names()),
        state.func.blocks.len() == blocks_before(lines, lines.len() as int) <= MAX_SLOTS,
        state.func.locals.len() == locals_before(lines, lines.len() as int) <= MAX_SLOTS,
    ensures
        state.wf(),
{
    assert forall|name: Seq<char>| #[trigger] state.locals.contains_key(
        name,
    ) implies state.func.has_local(LocalId { key: state.locals[name] }) by {
        assert(state.names().locals.contains_key(name));
        let id = LocalId { key: state.locals[name] };
        assert(local_is(lines, name, id));
        let j = choose|j: int| #[trigger]
            last_local(lines, name, j) && id.key == key_at(locals_before(lines, j) as int);
        lemma_before_order(lines, j, lines.len() as int);
    }
    assert forall|name: Seq<char>| #[trigger] state.blocks.contains_key(
        name,
    ) implies state.func.has_block(BasicBlockId { key: state.blocks[name] }) by {
        assert(state.names().blocks.contains_key(name));
        let id = BasicBlockId { key: state.blocks[name] };
        assert(block_is(lines, name, id));
        let j = choose|j: int| #[trigger]
            last_block(lines, name, j) && id.key == key_at(blocks_before(lines, j) as int);
        lemma_before_order(lines, j, lines.len() as int);
    }
}

/// The counts of the front of the items are those of the items.
proof fn lemma_items_front(items: Seq<ParsedItem>, n: int)
    requires
        0 <= n < items.len(),
    ensures
        funcs_before(items.drop_last(), n) == funcs_before(items, n),
        structs_before(items.drop_last(), n) == structs_before(items, n),
    decreases n,
{
    if n > 0 {
        lemma_items_front(items, n - 1);
    }
}

/// Counts do not fall.
proof fn lemma_items_order(items: Seq<ParsedItem>, a: int, b: int)
    requires
        0 <= a < b <= items.len(),
    ensures
        funcs_before(items, a) <= funcs_before(items, b),
        structs_before(items, a) <= structs_before(items, b),
        func_item(items[a]) is Some ==> funcs_before(items, a) < funcs_before(items, b),
        struct_item(items[a]) is Some ==> structs_before(items, a) < structs_before(items, b),
    decreases b - a,
{
    if a < b - 1 {
        lemma_items_order(items, a, b - 1);
    }
}

/// A name of a function stands for it until another function gets the name.
proof fn lemma_func_is_longer(items: Seq<ParsedItem>, name: Seq<char>, id: FuncId)
    requires
        items.len() > 0,
        func_is(items.drop_last(), name, id),
        func_item(items.last()) != Some(name),
    ensures
        func_is(items, name, id),
{
    let front = items.drop_last();
    let j = choose|j: int| #[trigger]
        last_func(front, name, j) && id.key == key_at(funcs_before(front, j) as int);
    lemma_items_front(items, j);
    assert forall|k: int| j < k < items.len() implies func_item(#[trigger] items[k]) != Some(
        name,
    ) by {
        if k < front.len() {
            assert(front[k] == items[k]);
        }
    }
    assert(front[j] == items[j]);
    assert(last_func(items, name, j));
}

/// A name of a type stands for it until a struct gets the name.
proof fn lemma_type_named_longer(
    items: Seq<ParsedItem>,
    types: TypesModel,
    name: Seq<char>,
    id: TypeId,
)
    requires
        items.len() > 0,
        type_named(items.drop_last(), types, name, id),
        struct_item(items.last()) != Some(name),
    ensures
        type_named(items, types, name, id),
{
    let front = items.drop_last();
    if exists|j: int| #[trigger]
        last_struct(front, name, j) && id.key == key_at(4 + structs_before(front, j) as int) {
        let j = choose|j: int| #[trigger]
            last_struct(front, name, j) && id.key == key_at(4 + structs_before(front, j) as int);
        lemma_items_front(items, j);
        assert forall|k: int| j < k < items.len() implies struct_item(#[trigger] items[k]) != Some(
            name,
        ) by {
            if k < front.len() {
                assert(front[k] == items[k]);
            }
        }
        assert(front[j] == items[j]);
        assert(last_struct(items, name, j));
    } else {
        assert(!names_struct(items, name)) by {
            if names_struct(items, name) {
                let j = choose|j: int|
                    0 <= j < items.len() && struct_item(#[trigger] items[j]) == Some(name);
                assert(j < front.len());
                assert(struct_item(front[j]) == Some(name));
            }
        }
    }
}

/// Whether the items were declared: each name stands for what has it, functions have
/// nothing yet, and the types are there.
pub open spec fn items_declared(items: Seq<ParsedItem>, state: ProgramState) -> bool {
    let n = items.len() as int;
    &&& func_names_right(items, state.func_names)
    &&& type_names_right(items, state.types, state.type_names)
    &&& state.functions.len() == funcs_before(items, n) <= MAX_SLOTS
    &&& state.types.infos.len() == 4 + structs_before(items, n) <= MAX_SLOTS
    &&& forall|i: int|
        0 <= i < state.functions.len() ==> (#[trigger] state.functions[i]) == empty_func()
    &&& forall|j: int|
        #![trigger items[j]]
        0 <= j < n ==> (func_item(items[j]) matches Some(name) ==> state.func_names.contains_key(
            name,
        ))
    &&& forall|j: int|
        #![trigger items[j]]
        0 <= j < n ==> (struct_item(items[j]) matches Some(name) ==> state.type_names.contains_key(
            name,
        ))
    &&& forall|name: Seq<char>| #[trigger]
        prim_named(name) is Some ==> state.type_names.contains_key(name)
}

/// One more item is declared.
proof fn lemma_declared_longer(items: Seq<ParsedItem>, before: ProgramState, after: ProgramState)
    requires
        items.len() > 0,
        items_declared(items.drop_last(), before),
        declare_item(before, items.last()) == Ok::<ProgramState, ParseError>(after),
    ensures
        items_declared(items, after),
{
    let front = items.drop_last();
    let n = items.len() - 1;
    lemma_items_front(items, n);
    assert(items[n] == items.last());
    assert(types_stay(before.types, after.types, 0));
    assert forall|name: Seq<char>| #[trigger] after.func_names.contains_key(name) implies func_is(
        items,
        name,
        FuncId { key: after.func_names[name] },
    ) by {
        if func_item(items[n]) == Some(name) {
            assert(last_func(items, name, n));
        } else {
            assert(before.func_names.contains_key(name));
            lemma_func_is_longer(items, name, FuncId { key: before.func_names[name] });
        }
    }
    lemma_names_stay(front, before.types, after.types, before.type_names, 0);
    assert forall|name: Seq<char>| #[trigger] after.type_names.contains_key(
        name,
    ) implies type_named(items, after.types, name, TypeId { key: after.type_names[name] }) by {
        if struct_item(items[n]) == Some(name) {
            assert(last_struct(items, name, n));
        } else {
            assert(before.type_names.contains_key(name));
            lemma_type_named_longer(
                items,
                after.types,
                name,
                TypeId { key: before.type_names[name] },
            );
        }
    }
    assert forall|j: int| #![trigger items[j]] 0 <= j < items.len() implies (func_item(
        items[j],
    ) matches Some(name) ==> after.func_names.contains_key(name)) by {
        if j < n {
            assert(front[j] == items[j]);
        }
    }
    assert forall|j: int| #![trigger items[j]] 0 <= j < items.len() implies (struct_item(
        items[j],
    ) matches Some(name) ==> after.type_names.contains_key(name)) by {
        if j < n {
            assert(front[j] == items[j]);
        }
    }
}

/// Before any item the primitive types are known by their names.
proof fn lemma_declared_none()
    ensures
        items_declared(Seq::empty(), empty_program()),
{
    let state = empty_program();
    let items = Seq::<ParsedItem>::empty();
    lemma_empty_program();
    reveal_strlit("i32");
    reveal_strlit("i64");
    reveal_strlit("f32");
    reveal_strlit("bool");
    assert("i32"@[1] == '3' && "i32"@[0] == 'i');
    assert("i64"@[1] == '6' && "i64"@[0] == 'i');
    assert("f32"@[0] == 'f');
    assert("bool"@[0] == 'b');
    assert forall|name: Seq<char>| #[trigger] state.type_names.contains_key(
        name,
    ) implies type_named(items, state.types, name, TypeId { key: state.type_names[name] }) by {
        assert(!names_struct(items, name));
    }
}

proof fn lemma_declared_items(items: Seq<ParsedItem>)
    ensures
        declare_items(empty_program(), items) matches Ok(state) ==> items_declared(items, state),
    decreases items.len(),
{
    if items.len() == 0 {
        assert(items =~= Seq::empty());
        lemma_declared_none();
    } else {
        lemma_declared_items(items.drop_last());
        if let Ok(before) = declare_items(empty_program(), items.drop_last()) {
            if let Ok(after) = declare_item(before, items.last()) {
                lemma_declared_longer(items, before, after);
            }
        }
    }
}

/// How many types there are before the first reference: the primitive types and the
/// structs.
pub open spec fn named_types(items: Seq<ParsedItem>) -> int {
    4 + structs_before(items, items.len() as int) as int
}

/// Whether a program has what item `j` says: a struct has the fields, a function is as it
/// is written.
#[verifier::opaque]
pub open spec fn item_written(
    items: Seq<ParsedItem>,
    types: TypesModel,
    functions: Seq<FuncModel>,
    j: int,
) -> bool {
    match items[j] {
        ParsedItem::Struct { name, fields } => {
            &&& 4 + structs_before(items, j) < types.infos.len()
            &&& types.infos[4 + structs_before(items, j) as int] matches TypeModel::Struct(ids)
                && types_are(items, types, ids, fields@, named_types(items))
        },
        ParsedItem::Function { name, arg_locals, lines, ret_ty } => func_written(
            items,
            types,
            functions[funcs_before(items, j) as int],
            name@,
            arg_locals@,
            lines@,
            ret_ty,
            named_types(items),
        ),
    }
}

/// Whether no two structs and no two functions have the same name, and no two blocks of a
/// function.
pub open spec fn items_apart(items: Seq<ParsedItem>) -> bool {
    &&& forall|i: int, j: int|
        0 <= i < j < items.len() && func_item(#[trigger] items[i]) is Some ==> func_item(items[i])
            != func_item(#[trigger] items[j])
    &&& forall|i: int, j: int|
        0 <= i < j < items.len() && struct_item(#[trigger] items[i]) is Some ==> struct_item(
            items[i],
        ) != struct_item(#[trigger] items[j])
    &&& forall|i: int|
        0 <= i < items.len() ==> (#[trigger] items[i] matches ParsedItem::Function { lines, .. }
            ==> blocks_apart(lines@))
}

/// Whether the function that item `j` is has nothing yet.
#[verifier::opaque]
spec fn func_waits(items: Seq<ParsedItem>, functions: Seq<FuncModel>, j: int) -> bool {
    func_item(items[j]) is Some ==> functions[funcs_before(items, j) as int] == empty_func()
}

/// Whether the first `n` items were translated, and the others have nothing yet.
spec fn items_seen(items: Seq<ParsedItem>, state: ProgramState, n: int) -> bool {
    &&& func_names_right(items, state.func_names)
    &&& type_names_right(items, state.types, state.type_names)
    &&& state.functions.len() == funcs_before(items, items.len() as int) <= MAX_SLOTS
    &&& named_types(items) <= state.types.infos.len() <= MAX_SLOTS
    &&& forall|j: int| 0 <= j < n ==> #[trigger] item_written(
        items,
        state.types,
        state.functions,
        j,
    )
    &&& forall|j: int| n <= j < items.len() ==> #[trigger] func_waits(items, state.functions, j)
}

/// What an item says stays true when others are translated.
proof fn lemma_item_stays(
    items: Seq<ParsedItem>,
    before: ProgramState,
    after: ProgramState,
    j: int,
)
    requires
        item_written(items, before.types, before.functions, j),
        types_stay(before.types, after.types, named_types(items)),
        struct_item(items[j]) is Some ==> after.types.infos[4 + structs_before(items, j) as int]
            == before.types.infos[4 + structs_before(items, j) as int],
        func_item(items[j]) is Some ==> after.functions[funcs_before(items, j) as int]
            == before.functions[funcs_before(items, j) as int],
    ensures
        item_written(items, after.types, after.functions, j),
{
    reveal(item_written);
    let low = named_types(items);
    match items[j] {
        ParsedItem::Struct { name, fields } => {
            let ids = before.types.infos[4 + structs_before(items, j) as int]->Struct_0;
            assert forall|k: int| 0 <= k < ids.len() implies type_is(
                items,
                after.types,
                #[trigger] ids[k],
                fields@[k],
                low,
            ) by {
                assert(type_is(items, before.types, ids[k], fields@[k], low));
                lemma_type_stays(items, before.types, after.types, ids[k], fields@[k], low, low);
            }
        },
        ParsedItem::Function { name, arg_locals, lines, ret_ty } => {
            let func = before.functions[funcs_before(items, j) as int];
            if let Some(path) = ret_ty {
                lemma_type_stays(
                    items,
                    before.types,
                    after.types,
                    func.return_type->0,
                    path,
                    low,
                    low,
                );
            }
            assert forall|k: int| 0 <= k < lines@.len() implies #[trigger] local_typed(
                items,
                lines@,
                after.types,
                func.locals,
                k,
                low,
            ) by {
                assert(local_typed(items, lines@, before.types, func.locals, k, low));
                lemma_local_typed_stays(
                    items,
                    lines@,
                    before.types,
                    after.types,
                    func.locals,
                    func.locals,
                    k,
                    low,
                );
            }
        },
    }
}

/// The function that a name leads to, where no other has the name.
proof fn lemma_func_of_item(items: Seq<ParsedItem>, names: Names, name: Seq<char>, j: int)
    requires
        items_apart(items),
        func_names_right(items, names),
        0 <= j < items.len(),
        func_item(items[j]) == Some(name),
        names.contains_key(name),
        funcs_before(items, items.len() as int) <= MAX_SLOTS,
    ensures
        key_pos(names[name]) == funcs_before(items, j),
        funcs_before(items, j) < funcs_before(items, items.len() as int),
{
    let id = FuncId { key: names[name] };
    assert(func_is(items, name, id));
    let at = choose|k: int| #[trigger]
        last_func(items, name, k) && id.key == key_at(funcs_before(items, k) as int);
    if at < j {
        assert(func_item(items[at]) != func_item(items[j]));
    } else if at > j {
        assert(func_item(items[j]) != func_item(items[at]));
    }
    lemma_items_order(items, j, items.len() as int);
}

/// The struct that a name leads to, where no other has the name.
proof fn lemma_struct_of_item(
    items: Seq<ParsedItem>,
    types: TypesModel,
    names: Names,
    name: Seq<char>,
    j: int,
)
    requires
        items_apart(items),
        type_names_right(items, types, names),
        0 <= j < items.len(),
        struct_item(items[j]) == Some(name),
        names.contains_key(name),
        named_types(items) <= MAX_SLOTS,
    ensures
        key_pos(names[name]) == 4 + structs_before(items, j),
        4 + structs_before(items, j) < named_types(items),
{
    let id = TypeId { key: names[name] };
    assert(type_named(items, types, name, id));
    assert(names_struct(items, name));
    let at = choose|k: int| #[trigger]
        last_struct(items, name, k) && id.key == key_at(4 + structs_before(items, k) as int);
    if at < j {
        assert(struct_item(items[at]) != struct_item(items[j]));
    } else if at > j {
        assert(struct_item(items[j]) != struct_item(items[at]));
    }
    lemma_items_order(items, j, items.len() as int);
}

/// What changes when an item is translated, and that it is then as it is written.
proof fn lemma_define_item_written(
    items: Seq<ParsedItem>,
    before: ProgramState,
    after: ProgramState,
    n: int,
)
    requires
        items_apart(items),
        0 <= n < items.len(),
        items_seen(items, before, n),
        define_item(before, items[n]) == Ok::<ProgramState, ParseError>(after),
    ensures
        after.func_names == before.func_names,
        after.type_names == before.type_names,
        after.functions.len() == before.functions.len(),
        after.types.infos.len() <= MAX_SLOTS,
        types_stay(before.types, after.types, named_types(items)),
        item_written(items, after.types, after.functions, n),
        forall|i: int|
            0 <= i < before.types.infos.len() && !(struct_item(items[n]) is Some && i == 4
                + structs_before(items, n)) ==> (#[trigger] after.types.infos[i])
                == before.types.infos[i],
        forall|i: int|
            0 <= i < before.functions.len() && !(func_item(items[n]) is Some && i == funcs_before(
                items,
                n,
            )) ==> (#[trigger] after.functions[i]) == before.functions[i],
{
    reveal(item_written);
    let low = named_types(items);
    match items[n] {
        ParsedItem::Struct { name, fields } => {
            lemma_struct_of_item(items, before.types, before.type_names, name@, n);
            lemma_types_written(items, before.types, before.type_names, fields@);
            let (types, ids) = path_types(before.types, before.type_names, fields@)->Ok_0;
            let at = 4 + structs_before(items, n) as int;
            assert(types_stay(types, after.types, low));
            assert forall|k: int| 0 <= k < ids.len() implies type_is(
                items,
                after.types,
                #[trigger] ids[k],
                fields@[k],
                low,
            ) by {
                assert(type_is(
                    items,
                    types,
                    ids[k],
                    fields@[k],
                    before.types.infos.len() as int,
                ));
                lemma_type_stays(
                    items,
                    types,
                    after.types,
                    ids[k],
                    fields@[k],
                    before.types.infos.len() as int,
                    low,
                );
            }
        },
        ParsedItem::Function { name, arg_locals, lines, ret_ty } => {
            lemma_func_of_item(items, before.func_names, name@, n);
            assert(func_waits(items, before.functions, n));
            reveal(func_waits);
            law_function_is_as_written(
                items,
                before.types,
                before.type_names,
                before.func_names,
                name@,
                arg_locals@,
                lines@,
                ret_ty,
                low,
            );
        },
    }
}

/// One more item is translated.
proof fn lemma_items_seen_longer(
    items: Seq<ParsedItem>,
    before: ProgramState,
    after: ProgramState,
    n: int,
)
    requires
        items_apart(items),
        0 <= n < items.len(),
        items_seen(items, before, n),
        define_item(before, items[n]) == Ok::<ProgramState, ParseError>(after),
    ensures
        items_seen(items, after, n + 1),
{
    lemma_define_item_written(items, before, after, n);
    lemma_names_stay(items, before.types, after.types, before.type_names, named_types(items));
    assert forall|j: int| 0 <= j < n + 1 implies #[trigger] item_written(
        items,
        after.types,
        after.functions,
        j,
    ) by {
        if j < n {
            assert(item_written(items, before.types, before.functions, j));
            lemma_items_order(items, j, n);
            lemma_items_order(items, j, items.len() as int);
            lemma_item_stays(items, before, after, j);
        }
    }
    assert forall|j: int| n + 1 <= j < items.len() implies #[trigger] func_waits(
        items,
        after.functions,
        j,
    ) by {
        assert(func_waits(items, before.functions, j));
        reveal(func_waits);
        lemma_items_order(items, n, j);
        lemma_items_order(items, j, items.len() as int);
    }
}

proof fn lemma_defined_items(items: Seq<ParsedItem>, declared: ProgramState, n: int)
    requires
        items_apart(items),
        0 <= n <= items.len(),
        items_seen(items, declared, 0),
    ensures
        define_items(declared, items.take(n)) matches Ok(after) ==> items_seen(items, after, n)
            && after.func_names == declared.func_names,
    decreases n,
{
    if n == 0 {
        assert(items.take(0) =~= Seq::empty());
    } else {
        lemma_defined_items(items, declared, n - 1);
        assert(items.take(n).drop_last() =~= items.take(n - 1));
        assert(items.take(n).last() == items[n - 1]);
        if let Ok(before) = define_items(declared, items.take(n - 1)) {
            if let Ok(after) = define_item(before, items[n - 1]) {
                lemma_define_item_written(items, before, after, n - 1);
                lemma_items_seen_longer(items, before, after, n - 1);
            }
        }
    }
}

/// A program is what is written. It starts with the function that it is to start with,
/// it has one function for each that is written, and each item says what the program has.
pub proof fn law_program_is_as_written(items: Seq<ParsedItem>, entrypoint: Seq<char>, j: int)
    requires
        items_apart(items),
        0 <= j < items.len(),
    ensures
        program_of(items, entrypoint) matches Ok(program) ==> {
            &&& func_is(items, entrypoint, program.entrypoint)
            &&& program.functions.len() == funcs_before(items, items.len() as int)
            &&& item_written(items, program.types, program.functions, j)
        },
{
    lemma_declared_items(items);
    if let Ok(declared) = declare_items(empty_program(), items) {
        assert forall|k: int| 0 <= k < items.len() implies #[trigger] func_waits(
            items,
            declared.functions,
            k,
        ) by {
            reveal(func_waits);
            lemma_items_order(items, k, items.len() as int);
        }
        assert(items_seen(items, declared, 0));
        lemma_defined_items(items, declared, items.len() as int);
        assert(items.take(items.len() as int) =~= items);
    }
}

/// Whether the primitive types come first, and their descriptions stand for them.
spec fn prims_first(types: TypesModel) -> bool {
    &&& types.infos.len() >= 4
    &&& types.infos[0] == TypeModel::PrimI32
    &&& types.infos[1] == TypeModel::PrimI64
    &&& types.infos[2] == TypeModel::PrimF32
    &&& types.infos[3] == TypeModel::PrimBool
    &&& types.ids.contains_key(TypeModel::PrimI32)
    &&& types.ids[TypeModel::PrimI32] == type_at(0)
    &&& types.ids.contains_key(TypeModel::PrimI64)
    &&& types.ids[TypeModel::PrimI64] == type_at(1)
    &&& types.ids.contains_key(TypeModel::PrimF32)
    &&& types.ids[TypeModel::PrimF32] == type_at(2)
    &&& types.ids.contains_key(TypeModel::PrimBool)
    &&& types.ids[TypeModel::PrimBool] == type_at(3)
}

proof fn lemma_path_keeps_prims(types: TypesModel, names: Names, path: ParsedTypePath)
    requires
        prims_first(types),
        types.infos.len() <= MAX_SLOTS,
    ensures
        path_type(types, names, path) matches Ok((after, _)) ==> prims_first(after)
            && types.infos.len() <= after.infos.len() <= MAX_SLOTS,
    decreases path,
{
    match path {
        ParsedTypePath::TypeName(_) => {},
        ParsedTypePath::Ref(to) => {
            if types.infos.len() < MAX_SLOTS {
                lemma_path_keeps_prims(types.declared(), names, *to);
            }
        },
        ParsedTypePath::GcRef(to) => {
            if types.infos.len() < MAX_SLOTS {
                lemma_path_keeps_prims(types.declared(), names, *to);
            }
        },
    }
}

proof fn lemma_paths_keep_prims(types: TypesModel, names: Names, paths: Seq<ParsedTypePath>)
    requires
        prims_first(types),
        types.infos.len() <= MAX_SLOTS,
    ensures
        path_types(types, names, paths) matches Ok((after, _)) ==> prims_first(after)
            && types.infos.len() <= after.infos.len() <= MAX_SLOTS,
    decreases paths.len(),
{
    if paths.len() > 0 {
        lemma_paths_keep_prims(types, names, paths.drop_last());
        if let Ok((before, _)) = path_types(types, names, paths.drop_last()) {
            lemma_path_keeps_prims(before, names, paths.last());
        }
    }
}

proof fn lemma_lines_keep_prims(
    type_names: Names,
    state: FuncState,
    lines: Seq<ParsedFunctionLine>,
)
    requires
        prims_first(state.types),
        state.types.infos.len() <= MAX_SLOTS,
    ensures
        declare_lines(type_names, state, lines) matches Ok(after) ==> prims_first(after.types)
            && state.types.infos.len() <= after.types.infos.len() <= MAX_SLOTS,
    decreases lines.len(),
{
    if lines.len() > 0 {
        lemma_lines_keep_prims(type_names, state, lines.drop_last());
        if let Ok(before) = declare_lines(type_names, state, lines.drop_last()) {
            if let ParsedFunctionLine::DecLocal { ty, .. } = lines.last() {
                lemma_path_keeps_prims(before.types, type_names, ty);
            }
        }
    }
}

proof fn lemma_code_keeps_types(
    func_names: Names,
    state: FuncState,
    lines: Seq<ParsedFunctionLine>,
)
    ensures
        define_lines(func_names, state, lines) matches Ok(after) ==> after.types == state.types,
    decreases lines.len(),
{
    if lines.len() > 0 {
        lemma_code_keeps_types(func_names, state, lines.drop_last());
        if let Ok(before) = define_lines(func_names, state, lines.drop_last()) {
            lemma_define_line_keeps(func_names, before, lines.last());
        }
    }
}

proof fn lemma_item_keeps_prims(state: ProgramState, item: ParsedItem)
    requires
        prims_first(state.types),
        state.types.infos.len() <= MAX_SLOTS,
        struct_item(item) matches Some(name) ==> (state.type_names.contains_key(name) ==> 4
            <= key_pos(state.type_names[name]) < state.types.infos.len()),
    ensures
        define_item(state, item) matches Ok(after) ==> {
            &&& prims_first(after.types)
            &&& state.types.infos.len() <= after.types.infos.len() <= MAX_SLOTS
            &&& after.type_names == state.type_names
        },
{
    match item {
        ParsedItem::Struct { name, fields } => {
            lemma_paths_keep_prims(state.types, state.type_names, fields@);
        },
        ParsedItem::Function { name, arg_locals, lines, ret_ty } => {
            if let Some(path) = ret_ty {
                lemma_path_keeps_prims(state.types, state.type_names, path);
            }
            if let Ok((returned, return_type)) = return_of(state.types, state.type_names, ret_ty) {
                let func = state.functions[key_pos(state.func_names[name@])];
                let begun = FuncState {
                    types: returned,
                    func: FuncModel { name: name@, return_type, ..func },
                    locals: Map::empty(),
                    blocks: Map::empty(),
                };
                lemma_lines_keep_prims(state.type_names, begun, lines@);
                if let Ok(declared) = declare_lines(state.type_names, begun, lines@) {
                    if let Ok(args) = locals_named(declared.locals, arg_locals@) {
                        let argued = FuncState {
                            func: FuncModel { args, ..declared.func },
                            ..declared
                        };
                        lemma_code_keeps_types(state.func_names, argued, lines@);
                    }
                }
            }
        },
    }
}

proof fn lemma_items_keep_prims(items: Seq<ParsedItem>, state: ProgramState, n: int)
    requires
        0 <= n <= items.len(),
        items_declared(items, state),
        prims_first(state.types),
    ensures
        define_items(state, items.take(n)) matches Ok(after) ==> {
            &&& prims_first(after.types)
            &&& state.types.infos.len() <= after.types.infos.len() <= MAX_SLOTS
            &&& after.type_names == state.type_names
        },
    decreases n,
{
    if n == 0 {
        assert(items.take(0) =~= Seq::empty());
    } else {
        lemma_items_keep_prims(items, state, n - 1);
        assert(items.take(n).drop_last() =~= items.take(n - 1));
        assert(items.take(n).last() == items[n - 1]);
        if let Ok(before) = define_items(state, items.take(n - 1)) {
            if let Some(name) = struct_item(items[n - 1]) {
                assert(state.type_names.contains_key(name));
                let id = TypeId { key: state.type_names[name] };
                assert(type_named(items, state.types, name, id));
                assert(names_struct(items, name));
                let j = choose|j: int| #[trigger]
                    last_struct(items, name, j) && id.key == key_at(
                        4 + structs_before(items, j) as int,
                    );
                lemma_items_order(items, j, items.len() as int);
            }
            lemma_item_keeps_prims(before, items[n - 1]);
        }
    }
}

proof fn lemma_declaring_keeps_prims(items: Seq<ParsedItem>)
    ensures
        declare_items(empty_program(), items) matches Ok(state) ==> prims_first(state.types),
    decreases items.len(),
{
    if items.len() == 0 {
        lemma_empty_program();
    } else {
        lemma_declaring_keeps_prims(items.drop_last());
    }
}

/// In every program that was translated the primitive types have their ids.
pub proof fn law_parsed_program_has_primitives(items: Seq<ParsedItem>, entrypoint: Seq<char>)
    ensures
        program_of(items, entrypoint) matches Ok(program) ==> program.types.prims_right(),
{
    lemma_declared_items(items);
    lemma_declaring_keeps_prims(items);
    if let Ok(declared) = declare_items(empty_program(), items) {
        lemma_items_keep_prims(items, declared, items.len() as int);
        assert(items.take(items.len() as int) =~= items);
    }
}

/// A block that is written in pieces gets the instructions of all of them: those that it
/// has stay, and those of the line come behind them. The last end counts. Other blocks
/// stay as they are.
pub proof fn law_block_in_pieces(
    items: Seq<ParsedItem>,
    lines: Seq<ParsedFunctionLine>,
    func_names: Names,
    state: FuncState,
    line: ParsedFunctionLine,
    other: int,
)
    requires
        names_right(lines, state.names()),
        func_names_right(items, func_names),
        state.wf(),
        line is Block,
        0 <= other < state.func.blocks.len(),
    ensures
        define_line(func_names, state, line) matches Ok(after) ==> {
            let at = key_pos(state.blocks[line->Block_name@]);
            let had = state.func.blocks[at].instructions;
            let has = after.func.blocks[at].instructions;
            &&& block_is(
                lines,
                line->Block_name@,
                BasicBlockId { key: state.blocks[line->Block_name@] },
            )
            &&& after.func.blocks.len() == state.func.blocks.len()
            &&& has.take(had.len() as int) == had
            &&& inss_written(
                lines,
                state.func.locals,
                has.skip(had.len() as int),
                line->Block_lines@,
            )
            &&& end_written(
                items,
                lines,
                after.func.blocks[at].ins_final,
                word_of(line->Block_term_ins@),
                line->Block_term_args@,
            )
            &&& other != at ==> after.func.blocks[other] == state.func.blocks[other]
        },
{
    if let Ok(after) = define_line(func_names, state, line) {
        let at = key_pos(state.blocks[line->Block_name@]);
        assert(state.names().blocks.contains_key(line->Block_name@));
        let had = state.func.blocks[at].instructions;
        let inss = lines_of(state.names(), line->Block_lines@)->Ok_0;
        lemma_lines_written(lines, state.names(), line->Block_lines@);
        law_end_is_as_written(
            items,
            lines,
            state.names(),
            func_names,
            word_of(line->Block_term_ins@),
            line->Block_term_args@,
        );
        let has = after.func.blocks[at].instructions;
        assert(has == had + inss);
        assert(has.take(had.len() as int) =~= had);
        assert(has.skip(had.len() as int) =~= inss);
    }
}

proof fn lemma_declaring_keeps(type_names: Names, state: FuncState, lines: Seq<ParsedFunctionLine>)
    ensures
        declare_lines(type_names, state, lines) matches Ok(after) ==> {
            &&& state.func.locals.len() <= after.func.locals.len()
            &&& state.func.blocks.len() <= after.func.blocks.len()
            &&& after.func.locals.take(state.func.locals.len() as int) =~= state.func.locals
            &&& after.func.blocks.take(state.func.blocks.len() as int) =~= state.func.blocks
            &&& after.func.entrypoint == state.func.entrypoint
        },
    decreases lines.len(),
{
    if lines.len() > 0 {
        lemma_declaring_keeps(type_names, state, lines.drop_last());
        if let Ok(after) = declare_lines(type_names, state, lines) {
            let before = declare_lines(type_names, state, lines.drop_last())->Ok_0;
            assert forall|i: int| 0 <= i < state.func.locals.len() implies (
            #[trigger] after.func.locals[i]) == state.func.locals[i] by {
                assert(before.func.locals.take(state.func.locals.len() as int)[i]
                    == before.func.locals[i]);
            }
            assert forall|i: int| 0 <= i < state.func.blocks.len() implies (
            #[trigger] after.func.blocks[i]) == state.func.blocks[i] by {
                assert(before.func.blocks.take(state.func.blocks.len() as int)[i]
                    == before.func.blocks[i]);
            }
        }
    }
}

proof fn lemma_defining_keeps(func_names: Names, state: FuncState, lines: Seq<ParsedFunctionLine>)
    requires
        forall|name: Seq<char>| #[trigger]
            state.blocks.contains_key(name) ==> 0 <= key_pos(state.blocks[name])
                < state.func.blocks.len(),
    ensures
        define_lines(func_names, state, lines) matches Ok(after) ==> {
            &&& after.func.locals == state.func.locals
            &&& after.func.blocks.len() == state.func.blocks.len()
            &&& after.blocks == state.blocks
            &&& !no_block(state.func.entrypoint) ==> after.func.entrypoint
                == state.func.entrypoint
            &&& forall|i: int|
                0 <= i < state.func.blocks.len() && (forall|name: Seq<char>| #[trigger]
                    state.blocks.contains_key(name) ==> key_pos(state.blocks[name]) != i) ==> (
                #[trigger] after.func.blocks[i]) == state.func.blocks[i]
        },
    decreases lines.len(),
{
    if lines.len() > 0 {
        lemma_defining_keeps(func_names, state, lines.drop_last());
        if let Ok(before) = define_lines(func_names, state, lines.drop_last()) {
            if let ParsedFunctionLine::Block { name, .. } = lines.last() {
                assert(before.blocks.contains_key(name@) ==> state.blocks.contains_key(name@));
            }
        }
    }
}

/// The blocks that were there before have no name.
proof fn lemma_new_names(type_names: Names, state: FuncState, lines: Seq<ParsedFunctionLine>)
    requires
        state.blocks == Map::<Seq<char>, u64>::empty(),
        state.func.blocks.len() <= MAX_SLOTS,
    ensures
        declare_lines(type_names, state, lines) matches Ok(after) ==> {
            &&& state.func.blocks.len() <= after.func.blocks.len() <= MAX_SLOTS
            &&& forall|name: Seq<char>| #[trigger]
                after.blocks.contains_key(name) ==> state.func.blocks.len() <= key_pos(
                    after.blocks[name],
                ) < after.func.blocks.len()
        },
    decreases lines.len(),
{
    if lines.len() > 0 {
        lemma_new_names(type_names, state, lines.drop_last());
    }
}

/// A function that is written again keeps the locals and blocks that it has, and the block
/// that it starts with. It gets the new name, result and arguments.
pub proof fn law_function_written_again(
    types: TypesModel,
    type_names: Names,
    func_names: Names,
    func: FuncModel,
    name: Seq<char>,
    arg_locals: Seq<String>,
    lines: Seq<ParsedFunctionLine>,
    ret_ty: Option<ParsedTypePath>,
)
    requires
        func.blocks.len() <= MAX_SLOTS,
    ensures
        function_of(
            types,
            type_names,
            func_names,
            func,
            name,
            arg_locals,
            lines,
            ret_ty,
        ) matches Ok((_, made)) ==> {
            &&& made.name == name
            &&& made.return_type is Some <==> ret_ty is Some
            &&& made.args.len() == arg_locals.len()
            &&& made.locals.len() >= func.locals.len()
            &&& made.locals.take(func.locals.len() as int) == func.locals
            &&& made.blocks.len() >= func.blocks.len()
            &&& made.blocks.take(func.blocks.len() as int) == func.blocks
            &&& !no_block(func.entrypoint) ==> made.entrypoint == func.entrypoint
        },
{
    if let Ok((returned, return_type)) = return_of(types, type_names, ret_ty) {
        let begun = FuncState {
            types: returned,
            func: FuncModel { name, return_type, ..func },
            locals: Map::empty(),
            blocks: Map::empty(),
        };
        lemma_declaring_keeps(type_names, begun, lines);
        lemma_new_names(type_names, begun, lines);
        lemma_declaring_keeps_head(type_names, begun, lines);
        if let Ok(declared) = declare_lines(type_names, begun, lines) {
            if let Ok(args) = locals_named(declared.locals, arg_locals) {
                let argued = FuncState {
                    func: FuncModel { args, ..declared.func },
                    ..declared
                };
                lemma_defining_keeps(func_names, argued, lines);
                lemma_defining_keeps_head(func_names, argued, lines);
                if let Ok(defined) = define_lines(func_names, argued, lines) {
                    assert forall|i: int| 0 <= i < func.blocks.len() implies (
                    #[trigger] defined.func.blocks[i]) == func.blocks[i] by {
                        assert(declared.func.blocks.take(func.blocks.len() as int)[i]
                            == declared.func.blocks[i]);
                    }
                    assert(defined.func.blocks.take(func.blocks.len() as int) =~= func.blocks);
                }
            }
        }
    }
}

proof fn lemma_declaring_keeps_head(
    type_names: Names,
    state: FuncState,
    lines: Seq<ParsedFunctionLine>,
)
    ensures
        declare_lines(type_names, state, lines) matches Ok(after) ==> after.func.name
            == state.func.name && after.func.return_type == state.func.return_type,
    decreases lines.len(),
{
    if lines.len() > 0 {
        lemma_declaring_keeps_head(type_names, state, lines.drop_last());
    }
}

proof fn lemma_defining_keeps_head(
    func_names: Names,
    state: FuncState,
    lines: Seq<ParsedFunctionLine>,
)
    ensures
        define_lines(func_names, state, lines) matches Ok(after) ==> after.func.name
            == state.func.name && after.func.return_type == state.func.return_type
            && after.func.args == state.func.args,
    decreases lines.len(),
{
    if lines.len() > 0 {
        lemma_defining_keeps_head(func_names, state, lines.drop_last());
        if let Ok(before) = define_lines(func_names, state, lines.drop_last()) {
            lemma_define_line_keeps(func_names, before, lines.last());
        }
    }
}

/// How many references there are in a type as it is written.
pub open spec fn refs_in(path: ParsedTypePath) -> nat
    decreases path,
{
    match path {
        ParsedTypePath::TypeName(_) => 0,
        ParsedTypePath::Ref(to) => refs_in(*to) + 1,
        ParsedTypePath::GcRef(to) => refs_in(*to) + 1,
    }
}

/// The name that a type as it is written ends with.
pub open spec fn name_in(path: ParsedTypePath) -> Seq<char>
    decreases path,
{
    match path {
        ParsedTypePath::TypeName(name) => name@,
        ParsedTypePath::Ref(to) => name_in(*to),
        ParsedTypePath::GcRef(to) => name_in(*to),
    }
}

/// A type is translated where its name stands for a type and there is room for its
/// references. Each reference takes one new type.
pub proof fn law_known_type_is_translated(types: TypesModel, names: Names, path: ParsedTypePath)
    ensures
        path_type(types, names, path) is Ok <==> names.contains_key(name_in(path)) && (refs_in(path)
            == 0 || types.infos.len() + refs_in(path) <= MAX_SLOTS),
        path_type(types, names, path) matches Ok((after, _)) ==> after.infos.len()
            == types.infos.len() + refs_in(path),
    decreases path,
{
    match path {
        ParsedTypePath::TypeName(_) => {},
        ParsedTypePath::Ref(to) => {
            law_known_type_is_translated(types.declared(), names, *to);
        },
        ParsedTypePath::GcRef(to) => {
            law_known_type_is_translated(types.declared(), names, *to);
        },
    }
}

/// Lines are translated where each of them is.
pub proof fn law_known_lines_are_translated(names: FuncNames, text: Seq<ParsedBlockLine>)
    ensures
        lines_of(names, text) is Ok <==> forall|i: int|
            0 <= i < text.len() ==> line_of(names, #[trigger] text[i]) is Ok,
    decreases text.len(),
{
    if text.len() > 0 {
        let front = text.drop_last();
        law_known_lines_are_translated(names, front);
        if lines_of(names, text) is Ok {
            assert forall|i: int| 0 <= i < text.len() implies line_of(
                names,
                #[trigger] text[i],
            ) is Ok by {
                if i < front.len() {
                    assert(line_of(names, front[i]) is Ok);
                }
            }
        }
        if forall|i: int| 0 <= i < text.len() ==> line_of(names, #[trigger] text[i]) is Ok {
            assert forall|i: int| 0 <= i < front.len() implies line_of(
                names,
                #[trigger] front[i],
            ) is Ok by {
                assert(line_of(names, text[i]) is Ok);
            }
            assert(line_of(names, text[text.len() - 1]) is Ok);
        }
    }
}

/// A block is translated where its lines and its end are, and a line that declares a local
/// is one as soon as its type is translated and there is room.
pub proof fn law_known_line_is_translated(
    type_names: Names,
    func_names: Names,
    state: FuncState,
    line: ParsedFunctionLine,
)
    ensures
        match line {
            ParsedFunctionLine::DecLocal { ty, .. } => {
                &&& define_line(func_names, state, line) is Ok
                &&& declare_line(type_names, state, line) is Ok <==> path_type(
                    state.types,
                    type_names,
                    ty,
                ) is Ok && state.func.locals.len() < MAX_SLOTS
            },
            ParsedFunctionLine::Block { name, lines, term_ins, term_args } => {
                &&& declare_line(type_names, state, line) is Ok <==> state.func.blocks.len()
                    < MAX_SLOTS
                &&& define_line(func_names, state, line) is Ok <==> state.blocks.contains_key(name@)
                    && lines_of(state.names(), lines@) is Ok && final_of(
                    state.names(),
                    func_names,
                    word_of(term_ins@),
                    term_args@,
                ) is Ok
            },
        },
{
}

} // verus!
