//! Programs as they are written down.

use super::{
    type_at, BasicBlock, BasicBlockId, BinOp, BlockModel, FinalModel, Func, FuncId, FuncModel, Ins,
    InsFinal, InsModel, LocalId, Operand, OperandModel, PlaceExpr, PlaceModel, Program,
    ProgramModel, Projection, StructInfo, TypeId, TypeInfo, TypeModel, Types, TypesModel, ValueExpr,
    ValueModel,
};
use crate::names::{same_text, NameMap};
use crate::slots::{key_at, key_pos, Arena, MAX_SLOTS, NULL_KEY};
use crate::text::{word, word_of};
use vstd::prelude::*;

verus! {

/// A type as it is written: a name, or a reference to a type.
#[derive(Debug)]
pub enum ParsedTypePath {
    TypeName(String),
    Ref(Box<ParsedTypePath>),
    GcRef(Box<ParsedTypePath>),
}

#[derive(Clone, Copy, PartialEq, Eq, Structural, Debug)]
pub enum ParsedProjection {
    Deref,
    Field(usize),
}

#[derive(Debug)]
pub struct ParsedPlace {
    pub root: String,
    pub projections: Vec<ParsedProjection>,
}

#[derive(Debug)]
pub enum ParsedOperand {
    Place(ParsedPlace),
    ConstI32(i32),
    /// A number, as its bits
    ConstF32(u32),
    ConstBool(bool),
}

#[derive(Debug)]
pub enum ParsedValue {
    Alloc,
    Read(ParsedOperand),
    Ref(ParsedOperand),
    /// Performs a binary operation on a primitive type
    BinOp(String, ParsedOperand, ParsedOperand),
}

#[derive(Debug)]
pub struct ParsedBlockLine {
    pub lvalue: ParsedPlace,
    pub rvalue: ParsedValue,
}

#[derive(Debug)]
pub enum ParsedFunctionLine {
    DecLocal { name: String, ty: ParsedTypePath },
    Block {
        name: String,
        lines: Vec<ParsedBlockLine>,
        term_ins: String,
        term_args: Vec<String>,
    },
}

#[derive(Debug)]
pub enum ParsedItem {
    Struct { name: String, fields: Vec<ParsedTypePath> },
    Function {
        name: String,
        arg_locals: Vec<String>,
        lines: Vec<ParsedFunctionLine>,
        ret_ty: Option<ParsedTypePath>,
    },
}

/// What is wrong with a program as it is written.
#[derive(Clone, Copy, PartialEq, Eq, Structural, Debug)]
pub enum ParseError {
    /// No type has that name.
    UnknownType,
    /// No local has that name.
    UnknownLocal,
    /// No block has that name.
    UnknownBlock,
    /// No function has that name.
    UnknownFunction,
    /// No operation has that name.
    BadOp,
    /// Blocks do not end with a word like that.
    BadTerminator,
    /// The end of a block lacks an argument.
    MissingArgument,
    /// There is no room for more.
    TooMany,
}

/// What names stand for.
pub type Names = Map<Seq<char>, u64>;

/// The operation of that name.
pub open spec fn bin_op_of(word: Seq<char>) -> Option<BinOp> {
    if word == "add"@ {
        Some(BinOp::Add)
    } else if word == "sub"@ {
        Some(BinOp::Sub)
    } else if word == "mul"@ {
        Some(BinOp::Mul)
    } else if word == "div"@ {
        Some(BinOp::Div)
    } else if word == "eq"@ {
        Some(BinOp::Eq)
    } else if word == "le"@ {
        Some(BinOp::Le)
    } else if word == "lt"@ {
        Some(BinOp::Lt)
    } else {
        None
    }
}

/// The operation of that name.
pub fn bin_op_named(word: &str) -> (op: Option<BinOp>)
    ensures
        op == bin_op_of(word@),
{
    if same_text(word, "add") {
        Some(BinOp::Add)
    } else if same_text(word, "sub") {
        Some(BinOp::Sub)
    } else if same_text(word, "mul") {
        Some(BinOp::Mul)
    } else if same_text(word, "div") {
        Some(BinOp::Div)
    } else if same_text(word, "eq") {
        Some(BinOp::Eq)
    } else if same_text(word, "le") {
        Some(BinOp::Le)
    } else if same_text(word, "lt") {
        Some(BinOp::Lt)
    } else {
        None
    }
}

/// The type that a path stands for, and the types with it. Each reference is a
/// new type, made before the type that it refers to.
pub open spec fn path_type(types: TypesModel, names: Names, path: ParsedTypePath) -> Result<
    (TypesModel, TypeId),
    ParseError,
>
    decreases path,
{
    let id = type_at(types.infos.len() as int);
    match path {
        ParsedTypePath::TypeName(name) => if names.contains_key(name@) {
            Ok((types, TypeId { key: names[name@] }))
        } else {
            Err(ParseError::UnknownType)
        },
        ParsedTypePath::Ref(to) => if types.infos.len() >= MAX_SLOTS {
            Err(ParseError::TooMany)
        } else {
            match path_type(types.declared(), names, *to) {
                Ok((after, inner)) => Ok((after.defined(id, TypeModel::Ref(inner)), id)),
                Err(error) => Err(error),
            }
        },
        ParsedTypePath::GcRef(to) => if types.infos.len() >= MAX_SLOTS {
            Err(ParseError::TooMany)
        } else {
            match path_type(types.declared(), names, *to) {
                Ok((after, inner)) => Ok((after.defined(id, TypeModel::GcRef(inner)), id)),
                Err(error) => Err(error),
            }
        },
    }
}

/// The types that paths stand for, in order.
pub open spec fn path_types(
    types: TypesModel,
    names: Names,
    paths: Seq<ParsedTypePath>,
) -> Result<(TypesModel, Seq<TypeId>), ParseError>
    decreases paths.len(),
{
    if paths.len() == 0 {
        Ok((types, Seq::empty()))
    } else {
        match path_types(types, names, paths.drop_last()) {
            Ok((before, ids)) => match path_type(before, names, paths.last()) {
                Ok((after, id)) => Ok((after, ids.push(id))),
                Err(error) => Err(error),
            },
            Err(error) => Err(error),
        }
    }
}

/// The types after others were translated: none was taken away, and descriptions
/// that had a type have one.
pub open spec fn types_after(before: TypesModel, after: TypesModel) -> bool {
    &&& before.infos.len() <= after.infos.len()
    &&& before.infos.len() <= MAX_SLOTS ==> after.infos.len() <= MAX_SLOTS
    &&& before.has_prims() ==> after.has_prims()
}

proof fn lemma_path_type(types: TypesModel, names: Names, path: ParsedTypePath)
    ensures
        path_type(types, names, path) matches Ok((after, _)) ==> types_after(types, after),
    decreases path,
{
    match path {
        ParsedTypePath::TypeName(_) => {},
        ParsedTypePath::Ref(to) => {
            lemma_path_type(types.declared(), names, *to);
        },
        ParsedTypePath::GcRef(to) => {
            lemma_path_type(types.declared(), names, *to);
        },
    }
}

/// Makes the type that a path stands for.
fn translate_type(types: &mut Types, names: &NameMap, path: &ParsedTypePath) -> (res: Result<
    TypeId,
    ParseError,
>)
    requires
        old(types).wf(),
    ensures
        final(types).wf(),
        match path_type(old(types)@, names@, *path) {
            Ok((after, id)) => res == Ok::<TypeId, ParseError>(id) && final(types)@ == after,
            Err(error) => res == Err::<TypeId, ParseError>(error),
        },
    decreases path,
{
    match path {
        ParsedTypePath::TypeName(name) => match names.get(name.as_str()) {
            Some(key) => Ok(TypeId { key }),
            None => Err(ParseError::UnknownType),
        },
        ParsedTypePath::Ref(to) => {
            if types.len() >= MAX_SLOTS {
                return Err(ParseError::TooMany);
            }
            proof {
                lemma_path_type(types@.declared(), names@, **to);
            }
            let ty = types.declare_type();
            let inner = match translate_type(types, names, to) {
                Ok(inner) => inner,
                Err(error) => {
                    return Err(error);
                },
            };
            types.define_type(ty, TypeInfo::Ref(inner));
            Ok(ty)
        },
        ParsedTypePath::GcRef(to) => {
            if types.len() >= MAX_SLOTS {
                return Err(ParseError::TooMany);
            }
            proof {
                lemma_path_type(types@.declared(), names@, **to);
            }
            let ty = types.declare_type();
            let inner = match translate_type(types, names, to) {
                Ok(inner) => inner,
                Err(error) => {
                    return Err(error);
                },
            };
            types.define_type(ty, TypeInfo::GcRef(inner));
            Ok(ty)
        },
    }
}

proof fn lemma_path_types(types: TypesModel, names: Names, paths: Seq<ParsedTypePath>, n: int)
    requires
        0 <= n <= paths.len(),
    ensures
        path_types(types, names, paths) matches Ok((after, ids)) ==> types_after(types, after)
            && ids.len() == paths.len(),
        path_types(types, names, paths.take(n)) matches Err(error) ==> path_types(
            types,
            names,
            paths,
        ) == Err::<(TypesModel, Seq<TypeId>), ParseError>(error),
    decreases paths.len(),
{
    if paths.len() > 0 {
        let front = paths.drop_last();
        lemma_path_types(types, names, front, front.len() as int);
        if let Ok((before, _)) = path_types(types, names, front) {
            lemma_path_type(before, names, paths.last());
        }
        if n < paths.len() {
            lemma_path_types(types, names, front, n);
            assert(front.take(n) =~= paths.take(n));
        } else {
            assert(paths.take(n) =~= paths);
        }
    } else {
        assert(paths.take(n) =~= paths);
    }
}

/// Makes the types that paths stand for.
fn translate_types(types: &mut Types, names: &NameMap, paths: &Vec<ParsedTypePath>) -> (res: Result<
    Vec<TypeId>,
    ParseError,
>)
    requires
        old(types).wf(),
    ensures
        final(types).wf(),
        match path_types(old(types)@, names@, paths@) {
            Ok((after, ids)) => {
                &&& res matches Ok(found) && found@ == ids
                &&& final(types)@ == after
            },
            Err(error) => res matches Err(found) && found == error,
        },
{
    let ghost before = types@;
    let mut ids: Vec<TypeId> = Vec::new();
    let mut i: usize = 0;
    assert(paths@.take(0) =~= Seq::empty());
    while i < paths.len()
        invariant
            types.wf(),
            before == old(types)@,
            i <= paths.len(),
            path_types(before, names@, paths@.take(i as int)) matches Ok((now, found)) && now
                == types@ && found == ids@,
        decreases paths.len() - i,
    {
        proof {
            lemma_path_types(before, names@, paths@, i + 1);
            assert(paths@.take(i + 1).drop_last() =~= paths@.take(i as int));
        }
        match translate_type(types, names, &paths[i]) {
            Ok(id) => {
                ids.push(id);
            },
            Err(error) => {
                return Err(error);
            },
        }
        i = i + 1;
    }
    assert(paths@.take(i as int) =~= paths@);
    Ok(ids)
}

/// The names of the locals and blocks of a function, and the types of the locals.
pub struct FuncNames {
    pub locals: Names,
    pub blocks: Names,
    pub local_types: Seq<TypeId>,
}

/// The local of that name.
pub open spec fn local_named(names: Names, name: Seq<char>) -> Result<LocalId, ParseError> {
    if names.contains_key(name) {
        Ok(LocalId { key: names[name] })
    } else {
        Err(ParseError::UnknownLocal)
    }
}

/// The block of that name.
pub open spec fn block_named(names: Names, name: Seq<char>) -> Result<BasicBlockId, ParseError> {
    if names.contains_key(name) {
        Ok(BasicBlockId { key: names[name] })
    } else {
        Err(ParseError::UnknownBlock)
    }
}

/// What a projection stands for.
pub open spec fn proj_of(proj: ParsedProjection) -> Projection {
    match proj {
        ParsedProjection::Deref => Projection::Deref,
        ParsedProjection::Field(field_idx) => Projection::Field { field_idx },
    }
}

/// The place that is written down.
pub open spec fn place_of(names: FuncNames, place: ParsedPlace) -> Result<PlaceModel, ParseError> {
    match local_named(names.locals, place.root@) {
        Ok(local) => Ok(
            PlaceModel {
                local_ty: names.local_types[key_pos(local.key)],
                local,
                projs: place.projections@.map_values(|proj: ParsedProjection| proj_of(proj)),
            },
        ),
        Err(error) => Err(error),
    }
}

/// The operand that is written down.
pub open spec fn operand_of(names: FuncNames, op: ParsedOperand) -> Result<
    OperandModel,
    ParseError,
> {
    match op {
        ParsedOperand::Place(place) => match place_of(names, place) {
            Ok(place) => Ok(OperandModel::Place(place)),
            Err(error) => Err(error),
        },
        ParsedOperand::ConstI32(x) => Ok(OperandModel::ConstI32(x)),
        ParsedOperand::ConstF32(x) => Ok(OperandModel::ConstF32(x)),
        ParsedOperand::ConstBool(x) => Ok(OperandModel::ConstBool(x)),
    }
}

/// The instruction that a line stands for.
pub open spec fn line_of(names: FuncNames, line: ParsedBlockLine) -> Result<InsModel, ParseError> {
    match place_of(names, line.lvalue) {
        Err(error) => Err(error),
        Ok(place) => match line.rvalue {
            ParsedValue::Alloc => Ok(InsModel::AllocGc { place }),
            ParsedValue::Read(op) => match operand_of(names, op) {
                Ok(op) => Ok(InsModel::Assign { place, value: ValueModel::Read(op) }),
                Err(error) => Err(error),
            },
            ParsedValue::Ref(op) => match operand_of(names, op) {
                Ok(op) => Ok(InsModel::Assign { place, value: ValueModel::Ref(op) }),
                Err(error) => Err(error),
            },
            ParsedValue::BinOp(name, lhs, rhs) => match (
                bin_op_of(word_of(name@)),
                operand_of(names, lhs),
                operand_of(names, rhs),
            ) {
                (None, _, _) => Err(ParseError::BadOp),
                (_, Err(error), _) => Err(error),
                (_, _, Err(error)) => Err(error),
                (Some(op), Ok(lhs), Ok(rhs)) => Ok(
                    InsModel::Assign { place, value: ValueModel::BinOp(op, lhs, rhs) },
                ),
            },
        },
    }
}

/// The instructions that lines stand for. The first line that is wrong counts.
pub open spec fn lines_of(names: FuncNames, lines: Seq<ParsedBlockLine>) -> Result<
    Seq<InsModel>,
    ParseError,
>
    decreases lines.len(),
{
    if lines.len() == 0 {
        Ok(Seq::empty())
    } else {
        match lines_of(names, lines.drop_last()) {
            Ok(front) => match line_of(names, lines.last()) {
                Ok(ins) => Ok(front.push(ins)),
                Err(error) => Err(error),
            },
            Err(error) => Err(error),
        }
    }
}

/// The locals of those names.
pub open spec fn locals_named(names: Names, args: Seq<String>) -> Result<
    Seq<LocalId>,
    ParseError,
> {
    if forall|i: int| 0 <= i < args.len() ==> names.contains_key((#[trigger] args[i])@) {
        Ok(Seq::new(args.len(), |i: int| LocalId { key: names[args[i]@] }))
    } else {
        Err(ParseError::UnknownLocal)
    }
}

/// A call: the function, the local that takes its result if the next argument is
/// the name of a local, the block to go on with, and what is passed.
pub open spec fn call_of(names: FuncNames, funcs: Names, args: Seq<String>) -> Result<
    FinalModel,
    ParseError,
> {
    if args.len() == 0 {
        Err(ParseError::MissingArgument)
    } else if !funcs.contains_key(args[0]@) {
        Err(ParseError::UnknownFunction)
    } else {
        let stores = args.len() > 1 && names.locals.contains_key(args[1]@);
        let store_ret = if stores {
            Some(LocalId { key: names.locals[args[1]@] })
        } else {
            None
        };
        let at: int = if stores {
            2
        } else {
            1
        };
        if args.len() <= at {
            Err(ParseError::MissingArgument)
        } else {
            match (
                block_named(names.blocks, args[at]@),
                locals_named(names.locals, args.skip(at + 1)),
            ) {
                (Err(error), _) => Err(error),
                (_, Err(error)) => Err(error),
                (Ok(next), Ok(passed)) => Ok(
                    FinalModel::Call {
                        func: FuncId { key: funcs[args[0]@] },
                        args: passed,
                        store_ret,
                        next,
                    },
                ),
            }
        }
    }
}

/// How a block ends, by the word that it ends with and its arguments.
pub open spec fn final_of(names: FuncNames, funcs: Names, word: Seq<char>, args: Seq<String>) -> Result<
    FinalModel,
    ParseError,
> {
    if word == "br"@ {
        if args.len() < 1 {
            Err(ParseError::MissingArgument)
        } else {
            match block_named(names.blocks, args[0]@) {
                Ok(next) => Ok(FinalModel::Br { next }),
                Err(error) => Err(error),
            }
        }
    } else if word == "brif"@ {
        if args.len() < 1 {
            Err(ParseError::MissingArgument)
        } else {
            match local_named(names.locals, args[0]@) {
                Err(error) => Err(error),
                Ok(cond) => if args.len() < 2 {
                    Err(ParseError::MissingArgument)
                } else {
                    match block_named(names.blocks, args[1]@) {
                        Err(error) => Err(error),
                        Ok(is_true) => if args.len() < 3 {
                            Err(ParseError::MissingArgument)
                        } else {
                            match block_named(names.blocks, args[2]@) {
                                Err(error) => Err(error),
                                Ok(is_false) => Ok(FinalModel::BrIf { cond, is_true, is_false }),
                            }
                        },
                    }
                },
            }
        }
    } else if word == "call"@ {
        call_of(names, funcs, args)
    } else if word == "return"@ {
        if args.len() == 0 {
            Ok(FinalModel::Return { value: None })
        } else {
            match local_named(names.locals, args[0]@) {
                Ok(local) => Ok(FinalModel::Return { value: Some(local) }),
                Err(error) => Err(error),
            }
        }
    } else {
        Err(ParseError::BadTerminator)
    }
}

/// The names and the types of the locals, while a function is translated.
struct Scope<'a> {
    locals: &'a NameMap,
    blocks: &'a NameMap,
    funcs: &'a NameMap,
    local_types: &'a Arena<TypeId>,
}

impl<'a> Scope<'a> {
    spec fn names(&self) -> FuncNames {
        FuncNames {
            locals: self.locals@,
            blocks: self.blocks@,
            local_types: self.local_types@,
        }
    }

    /// Every name of a local stands for one.
    spec fn wf(&self) -> bool {
        &&& self.local_types.wf()
        &&& forall|name: Seq<char>| #[trigger]
            self.locals@.contains_key(name) ==> self.local_types.contains(self.locals@[name])
    }

    fn local(&self, name: &str) -> (res: Result<LocalId, ParseError>)
        ensures
            res == local_named(self.locals@, name@),
    {
        match self.locals.get(name) {
            Some(key) => Ok(LocalId { key }),
            None => Err(ParseError::UnknownLocal),
        }
    }

    fn block(&self, name: &str) -> (res: Result<BasicBlockId, ParseError>)
        ensures
            res == block_named(self.blocks@, name@),
    {
        match self.blocks.get(name) {
            Some(key) => Ok(BasicBlockId { key }),
            None => Err(ParseError::UnknownBlock),
        }
    }

    fn translate_place_expr(&self, place: &ParsedPlace) -> (res: Result<PlaceExpr, ParseError>)
        requires
            self.wf(),
        ensures
            match place_of(self.names(), *place) {
                Ok(model) => res matches Ok(place) && place@ == model,
                Err(error) => res matches Err(found) && found == error,
            },
    {
        let local = match self.local(place.root.as_str()) {
            Ok(local) => local,
            Err(error) => {
                return Err(error);
            },
        };
        assert(self.locals@.contains_key(place.root@));
        let local_ty = match self.local_types.get(local.key) {
            Some(ty) => *ty,
            None => TypeId::null(),
        };
        let mut projs: Vec<Projection> = Vec::new();
        let mut i: usize = 0;
        while i < place.projections.len()
            invariant
                i <= place.projections.len(),
                projs@ =~= place.projections@.map_values(
                    |proj: ParsedProjection| proj_of(proj),
                ).take(i as int),
            decreases place.projections.len() - i,
        {
            let proj = match place.projections[i] {
                ParsedProjection::Deref => Projection::Deref,
                ParsedProjection::Field(field_idx) => Projection::Field { field_idx },
            };
            projs.push(proj);
            i = i + 1;
        }
        assert(projs@ =~= place.projections@.map_values(|proj: ParsedProjection| proj_of(proj)));
        Ok(PlaceExpr { local_ty, local, projs })
    }

    fn translate_op(&self, op: &ParsedOperand) -> (res: Result<Operand, ParseError>)
        requires
            self.wf(),
        ensures
            match operand_of(self.names(), *op) {
                Ok(model) => res matches Ok(op) && op@ == model,
                Err(error) => res matches Err(found) && found == error,
            },
    {
        match op {
            ParsedOperand::Place(place) => match self.translate_place_expr(place) {
                Ok(place) => Ok(Operand::Place(place)),
                Err(error) => Err(error),
            },
            ParsedOperand::ConstI32(x) => Ok(Operand::ConstI32(*x)),
            ParsedOperand::ConstF32(x) => Ok(Operand::ConstF32(*x)),
            ParsedOperand::ConstBool(x) => Ok(Operand::ConstBool(*x)),
        }
    }

    fn translate_line(&self, line: &ParsedBlockLine) -> (res: Result<Ins, ParseError>)
        requires
            self.wf(),
        ensures
            match line_of(self.names(), *line) {
                Ok(model) => res matches Ok(ins) && ins@ == model,
                Err(error) => res matches Err(found) && found == error,
            },
    {
        let place = match self.translate_place_expr(&line.lvalue) {
            Ok(place) => place,
            Err(error) => {
                return Err(error);
            },
        };
        let value = match &line.rvalue {
            ParsedValue::Alloc => {
                return Ok(Ins::AllocGc { place });
            },
            ParsedValue::Read(op) => match self.translate_op(op) {
                Ok(op) => ValueExpr::Read(op),
                Err(error) => {
                    return Err(error);
                },
            },
            ParsedValue::Ref(op) => match self.translate_op(op) {
                Ok(op) => ValueExpr::Ref(op),
                Err(error) => {
                    return Err(error);
                },
            },
            ParsedValue::BinOp(op_name, op0, op1) => {
                let op = match bin_op_named(word(op_name.as_str()).as_str()) {
                    Some(op) => op,
                    None => {
                        return Err(ParseError::BadOp);
                    },
                };
                let lhs = match self.translate_op(op0) {
                    Ok(lhs) => lhs,
                    Err(error) => {
                        return Err(error);
                    },
                };
                let rhs = match self.translate_op(op1) {
                    Ok(rhs) => rhs,
                    Err(error) => {
                        return Err(error);
                    },
                };
                ValueExpr::BinOp(op, lhs, rhs)
            },
        };
        Ok(Ins::Assign { place, value })
    }

    /// Adds the instructions that lines stand for.
    fn translate_lines(&self, lines: &Vec<ParsedBlockLine>, instructions: &mut Vec<Ins>) -> (res:
        Result<(), ParseError>)
        requires
            self.wf(),
        ensures
            match lines_of(self.names(), lines@) {
                Ok(models) => res is Ok && final(instructions)@.map_values(|ins: Ins| ins@) == old(
                    instructions,
                )@.map_values(|ins: Ins| ins@) + models,
                Err(error) => res matches Err(found) && found == error,
            },
    {
        let ghost before = instructions@.map_values(|ins: Ins| ins@);
        let mut i: usize = 0;
        assert(lines@.take(0) =~= Seq::empty());
        assert(before =~= before + Seq::empty());
        while i < lines.len()
            invariant
                self.wf(),
                before == old(instructions)@.map_values(|ins: Ins| ins@),
                i <= lines.len(),
                lines_of(self.names(), lines@.take(i as int)) matches Ok(models)
                    && instructions@.map_values(|ins: Ins| ins@) == before + models,
            decreases lines.len() - i,
        {
            proof {
                lemma_lines_of(self.names(), lines@, i + 1);
                assert(lines@.take(i + 1).drop_last() =~= lines@.take(i as int));
            }
            let ghost now = instructions@;
            match self.translate_line(&lines[i]) {
                Ok(ins) => {
                    instructions.push(ins);
                    assert(instructions@.map_values(|ins: Ins| ins@) =~= now.map_values(
                        |ins: Ins| ins@,
                    ).push(ins@));
                    assert(instructions@.map_values(|ins: Ins| ins@) =~= before + lines_of(
                        self.names(),
                        lines@.take(i + 1),
                    )->Ok_0);
                },
                Err(error) => {
                    return Err(error);
                },
            }
            i = i + 1;
        }
        assert(lines@.take(i as int) =~= lines@);
        Ok(())
    }

    /// The locals of the names from place `at` on.
    fn locals_from(&self, args: &Vec<String>, at: usize) -> (res: Result<Vec<LocalId>, ParseError>)
        requires
            at <= args@.len(),
        ensures
            match locals_named(self.locals@, args@.skip(at as int)) {
                Ok(locals) => res matches Ok(found) && found@ == locals,
                Err(error) => res matches Err(found) && found == error,
            },
    {
        let ghost rest = args@.skip(at as int);
        let mut locals: Vec<LocalId> = Vec::new();
        let mut i: usize = at;
        while i < args.len()
            invariant
                at <= i <= args.len(),
                rest == args@.skip(at as int),
                forall|j: int|
                    0 <= j < i - at ==> self.locals@.contains_key((#[trigger] rest[j])@),
                locals@ =~= Seq::new(
                    (i - at) as nat,
                    |j: int| LocalId { key: self.locals@[rest[j]@] },
                ),
            decreases args.len() - i,
        {
            assert(rest[i - at] == args@[i as int]);
            match self.local(args[i].as_str()) {
                Ok(local) => {
                    locals.push(local);
                },
                Err(error) => {
                    return Err(error);
                },
            }
            i = i + 1;
        }
        Ok(locals)
    }

    fn translate_call(&self, args: &Vec<String>) -> (res: Result<InsFinal, ParseError>)
        ensures
            match call_of(self.names(), self.funcs@, args@) {
                Ok(model) => res matches Ok(end) && end@ == model,
                Err(error) => res matches Err(found) && found == error,
            },
    {
        if args.len() == 0 {
            return Err(ParseError::MissingArgument);
        }
        let func = match self.funcs.get(args[0].as_str()) {
            Some(key) => FuncId { key },
            None => {
                return Err(ParseError::UnknownFunction);
            },
        };
        let store_ret = if args.len() > 1 {
            match self.locals.get(args[1].as_str()) {
                Some(key) => Some(LocalId { key }),
                None => None,
            }
        } else {
            None
        };
        let at: usize = if store_ret.is_some() {
            2
        } else {
            1
        };
        if args.len() <= at {
            return Err(ParseError::MissingArgument);
        }
        let next = match self.block(args[at].as_str()) {
            Ok(next) => next,
            Err(error) => {
                return Err(error);
            },
        };
        match self.locals_from(args, at + 1) {
            Ok(args) => Ok(InsFinal::Call { func, args, store_ret, next }),
            Err(error) => Err(error),
        }
    }

    fn translate_final(&self, term_ins: &str, args: &Vec<String>) -> (res: Result<
        InsFinal,
        ParseError,
    >)
        ensures
            match final_of(self.names(), self.funcs@, word_of(term_ins@), args@) {
                Ok(model) => res matches Ok(end) && end@ == model,
                Err(error) => res matches Err(found) && found == error,
            },
    {
        let word = word(term_ins);
        if same_text(word.as_str(), "br") {
            if args.len() < 1 {
                return Err(ParseError::MissingArgument);
            }
            match self.block(args[0].as_str()) {
                Ok(next) => Ok(InsFinal::Br { next }),
                Err(error) => Err(error),
            }
        } else if same_text(word.as_str(), "brif") {
            if args.len() < 1 {
                return Err(ParseError::MissingArgument);
            }
            let cond = match self.local(args[0].as_str()) {
                Ok(cond) => cond,
                Err(error) => {
                    return Err(error);
                },
            };
            if args.len() < 2 {
                return Err(ParseError::MissingArgument);
            }
            let is_true = match self.block(args[1].as_str()) {
                Ok(is_true) => is_true,
                Err(error) => {
                    return Err(error);
                },
            };
            if args.len() < 3 {
                return Err(ParseError::MissingArgument);
            }
            match self.block(args[2].as_str()) {
                Ok(is_false) => Ok(InsFinal::BrIf { cond, is_true, is_false }),
                Err(error) => Err(error),
            }
        } else if same_text(word.as_str(), "call") {
            self.translate_call(args)
        } else if same_text(word.as_str(), "return") {
            if args.len() == 0 {
                return Ok(InsFinal::Return { value: None });
            }
            match self.local(args[0].as_str()) {
                Ok(local) => Ok(InsFinal::Return { value: Some(local) }),
                Err(error) => Err(error),
            }
        } else {
            Err(ParseError::BadTerminator)
        }
    }
}

/// Where the front of the lines is wrong, the lines are wrong in the same way.
proof fn lemma_lines_of(names: FuncNames, lines: Seq<ParsedBlockLine>, n: int)
    requires
        0 <= n <= lines.len(),
    ensures
        lines_of(names, lines.take(n)) matches Err(error) ==> lines_of(names, lines) == Err::<
            Seq<InsModel>,
            ParseError,
        >(error),
    decreases lines.len(),
{
    if n == lines.len() {
        assert(lines.take(n) =~= lines);
    } else {
        assert(lines.drop_last().take(n) =~= lines.take(n));
        lemma_lines_of(names, lines.drop_last(), n);
    }
}

/// A function while it is translated: the types so far, what it holds, and the
/// names of its locals and blocks.
pub struct FuncState {
    pub types: TypesModel,
    pub func: FuncModel,
    pub locals: Names,
    pub blocks: Names,
}

impl FuncState {
    pub open spec fn names(self) -> FuncNames {
        FuncNames { locals: self.locals, blocks: self.blocks, local_types: self.func.locals }
    }

    /// Every name of a local or of a block stands for one.
    pub open spec fn wf(self) -> bool {
        &&& forall|name: Seq<char>| #[trigger]
            self.locals.contains_key(name) ==> self.func.has_local(
                LocalId { key: self.locals[name] },
            )
        &&& forall|name: Seq<char>| #[trigger]
            self.blocks.contains_key(name) ==> self.func.has_block(
                BasicBlockId { key: self.blocks[name] },
            )
    }
}

/// A block that was not translated yet.
pub open spec fn empty_block() -> BlockModel {
    BlockModel {
        instructions: Seq::empty(),
        ins_final: FinalModel::Br { next: BasicBlockId { key: NULL_KEY } },
    }
}

/// Makes the local or the block that a line stands for. The name stands for it
/// from then on.
pub open spec fn declare_line(type_names: Names, state: FuncState, line: ParsedFunctionLine) -> Result<
    FuncState,
    ParseError,
> {
    match line {
        ParsedFunctionLine::DecLocal { name, ty } => match path_type(state.types, type_names, ty) {
            Err(error) => Err(error),
            Ok((types, id)) => if state.func.locals.len() >= MAX_SLOTS {
                Err(ParseError::TooMany)
            } else {
                Ok(
                    FuncState {
                        types,
                        func: FuncModel { locals: state.func.locals.push(id), ..state.func },
                        locals: state.locals.insert(
                            name@,
                            key_at(state.func.locals.len() as int),
                        ),
                        ..state
                    },
                )
            },
        },
        ParsedFunctionLine::Block { name, .. } => if state.func.blocks.len() >= MAX_SLOTS {
            Err(ParseError::TooMany)
        } else {
            Ok(
                FuncState {
                    func: FuncModel {
                        blocks: state.func.blocks.push(empty_block()),
                        ..state.func
                    },
                    blocks: state.blocks.insert(name@, key_at(state.func.blocks.len() as int)),
                    ..state
                },
            )
        },
    }
}

pub open spec fn declare_lines(
    type_names: Names,
    state: FuncState,
    lines: Seq<ParsedFunctionLine>,
) -> Result<FuncState, ParseError>
    decreases lines.len(),
{
    if lines.len() == 0 {
        Ok(state)
    } else {
        match declare_lines(type_names, state, lines.drop_last()) {
            Ok(before) => declare_line(type_names, before, lines.last()),
            Err(error) => Err(error),
        }
    }
}

/// Whether an id stands for no block.
pub open spec fn no_block(id: BasicBlockId) -> bool {
    id.key % 0x1_0000_0000 == 0xffff_ffff
}

/// Gives the block that a line stands for its code. The first block of a function
/// is the one to start with. A block that has code already gets more of it.
pub open spec fn define_line(func_names: Names, state: FuncState, line: ParsedFunctionLine) -> Result<
    FuncState,
    ParseError,
> {
    match line {
        ParsedFunctionLine::DecLocal { .. } => Ok(state),
        ParsedFunctionLine::Block { name, lines, term_ins, term_args } => match block_named(
            state.blocks,
            name@,
        ) {
            Err(error) => Err(error),
            Ok(id) => match lines_of(state.names(), lines@) {
                Err(error) => Err(error),
                Ok(inss) => match final_of(
                    state.names(),
                    func_names,
                    word_of(term_ins@),
                    term_args@,
                ) {
                    Err(error) => Err(error),
                    Ok(ins_final) => Ok(
                        FuncState {
                            func: FuncModel {
                                entrypoint: if no_block(state.func.entrypoint) {
                                    id
                                } else {
                                    state.func.entrypoint
                                },
                                blocks: state.func.blocks.update(
                                    key_pos(id.key),
                                    BlockModel {
                                        instructions: state.func.block(id).instructions + inss,
                                        ins_final,
                                    },
                                ),
                                ..state.func
                            },
                            ..state
                        },
                    ),
                },
            },
        },
    }
}

pub open spec fn define_lines(
    func_names: Names,
    state: FuncState,
    lines: Seq<ParsedFunctionLine>,
) -> Result<FuncState, ParseError>
    decreases lines.len(),
{
    if lines.len() == 0 {
        Ok(state)
    } else {
        match define_lines(func_names, state, lines.drop_last()) {
            Ok(before) => define_line(func_names, before, lines.last()),
            Err(error) => Err(error),
        }
    }
}

/// The type that a function gives, if it gives one.
pub open spec fn return_of(types: TypesModel, type_names: Names, ret_ty: Option<ParsedTypePath>) -> Result<
    (TypesModel, Option<TypeId>),
    ParseError,
> {
    match ret_ty {
        None => Ok((types, None)),
        Some(path) => match path_type(types, type_names, path) {
            Ok((after, id)) => Ok((after, Some(id))),
            Err(error) => Err(error),
        },
    }
}

/// The function as it is written, put on top of what `func` holds.
pub open spec fn function_of(
    types: TypesModel,
    type_names: Names,
    func_names: Names,
    func: FuncModel,
    name: Seq<char>,
    arg_locals: Seq<String>,
    lines: Seq<ParsedFunctionLine>,
    ret_ty: Option<ParsedTypePath>,
) -> Result<(TypesModel, FuncModel), ParseError> {
    match return_of(types, type_names, ret_ty) {
        Err(error) => Err(error),
        Ok((types, return_type)) => {
            let begun = FuncState {
                types,
                func: FuncModel { name, return_type, ..func },
                locals: Map::empty(),
                blocks: Map::empty(),
            };
            match declare_lines(type_names, begun, lines) {
                Err(error) => Err(error),
                Ok(declared) => match locals_named(declared.locals, arg_locals) {
                    Err(error) => Err(error),
                    Ok(args) => match define_lines(
                        func_names,
                        FuncState { func: FuncModel { args, ..declared.func }, ..declared },
                        lines,
                    ) {
                        Err(error) => Err(error),
                        Ok(defined) => Ok((defined.types, defined.func)),
                    },
                },
            }
        },
    }
}

proof fn lemma_declare_lines(
    type_names: Names,
    state: FuncState,
    lines: Seq<ParsedFunctionLine>,
    n: int,
)
    requires
        0 <= n <= lines.len(),
        state.wf(),
    ensures
        declare_lines(type_names, state, lines) matches Ok(after) ==> after.wf() && types_after(
            state.types,
            after.types,
        ) && after.func.locals.len() >= state.func.locals.len() && after.func.blocks.len()
            >= state.func.blocks.len(),
        declare_lines(type_names, state, lines.take(n)) matches Err(error) ==> declare_lines(
            type_names,
            state,
            lines,
        ) == Err::<FuncState, ParseError>(error),
    decreases lines.len(),
{
    if lines.len() > 0 {
        let front = lines.drop_last();
        lemma_declare_lines(type_names, state, front, front.len() as int);
        if let Ok(before) = declare_lines(type_names, state, front) {
            if let ParsedFunctionLine::DecLocal { name, ty } = lines.last() {
                lemma_path_type(before.types, type_names, ty);
            }
        }
        if n < lines.len() {
            lemma_declare_lines(type_names, state, front, n);
            assert(front.take(n) =~= lines.take(n));
        } else {
            assert(lines.take(n) =~= lines);
        }
    } else {
        assert(lines.take(n) =~= lines);
    }
}

proof fn lemma_define_lines(
    func_names: Names,
    state: FuncState,
    lines: Seq<ParsedFunctionLine>,
    n: int,
)
    requires
        0 <= n <= lines.len(),
        state.wf(),
    ensures
        define_lines(func_names, state, lines) matches Ok(after) ==> after.wf() && after.types
            == state.types && after.locals == state.locals && after.blocks == state.blocks
            && after.func.locals == state.func.locals && after.func.blocks.len()
            == state.func.blocks.len(),
        define_lines(func_names, state, lines.take(n)) matches Err(error) ==> define_lines(
            func_names,
            state,
            lines,
        ) == Err::<FuncState, ParseError>(error),
    decreases lines.len(),
{
    if lines.len() > 0 {
        let front = lines.drop_last();
        lemma_define_lines(func_names, state, front, front.len() as int);
        if n < lines.len() {
            lemma_define_lines(func_names, state, front, n);
            assert(front.take(n) =~= lines.take(n));
        } else {
            assert(lines.take(n) =~= lines);
        }
    } else {
        assert(lines.take(n) =~= lines);
    }
}

/// Makes the locals and blocks of a function.
fn declare_function_lines(
    types: &mut Types,
    type_names: &NameMap,
    func: &mut Func,
    lines: &Vec<ParsedFunctionLine>,
) -> (res: Result<(NameMap, NameMap), ParseError>)
    requires
        old(types).wf(),
        old(func).wf(),
    ensures
        final(types).wf(),
        final(func).wf(),
        ({
            let begun = FuncState {
                types: old(types)@,
                func: old(func)@,
                locals: Map::empty(),
                blocks: Map::empty(),
            };
            match declare_lines(type_names@, begun, lines@) {
                Ok(state) => res matches Ok((locals, blocks)) && state == (FuncState {
                    types: final(types)@,
                    func: final(func)@,
                    locals: locals@,
                    blocks: blocks@,
                }),
                Err(error) => res matches Err(found) && found == error,
            }
        }),
{
    let ghost begun = FuncState {
        types: types@,
        func: func@,
        locals: Map::empty(),
        blocks: Map::empty(),
    };
    let mut locals = NameMap::new();
    let mut blocks = NameMap::new();
    let mut i: usize = 0;
    assert(lines@.take(0) =~= Seq::empty());
    while i < lines.len()
        invariant
            types.wf(),
            func.wf(),
            begun.wf(),
            begun == (FuncState {
                types: old(types)@,
                func: old(func)@,
                locals: Map::empty(),
                blocks: Map::empty(),
            }),
            i <= lines.len(),
            declare_lines(type_names@, begun, lines@.take(i as int)) == Ok::<FuncState, ParseError>(
                FuncState { types: types@, func: func@, locals: locals@, blocks: blocks@ },
            ),
        decreases lines.len() - i,
    {
        proof {
            lemma_declare_lines(type_names@, begun, lines@, i + 1);
            assert(lines@.take(i + 1).drop_last() =~= lines@.take(i as int));
        }
        match &lines[i] {
            ParsedFunctionLine::DecLocal { name, ty } => {
                let id = match translate_type(types, type_names, ty) {
                    Ok(id) => id,
                    Err(error) => {
                        return Err(error);
                    },
                };
                if func.locals.len() >= MAX_SLOTS {
                    return Err(ParseError::TooMany);
                }
                let key = func.locals.insert(id);
                locals.insert(name.as_str().to_owned(), key);
            },
            ParsedFunctionLine::Block { name, .. } => {
                if func.blocks.len() >= MAX_SLOTS {
                    return Err(ParseError::TooMany);
                }
                let ghost before = func@.blocks;
                let block = BasicBlock {
                    instructions: Vec::new(),
                    ins_final: InsFinal::Br { next: BasicBlockId::null() },
                };
                assert(block@ =~= empty_block());
                let key = func.blocks.insert(block);
                assert(func@.blocks =~= before.push(empty_block()));
                blocks.insert(name.as_str().to_owned(), key);
            },
        }
        i = i + 1;
    }
    assert(lines@.take(i as int) =~= lines@);
    Ok((locals, blocks))
}

/// Gives the blocks of a function their code.
fn define_function_lines(
    func_names: &NameMap,
    func: &mut Func,
    locals: &NameMap,
    blocks: &NameMap,
    lines: &Vec<ParsedFunctionLine>,
    Ghost(types): Ghost<TypesModel>,
) -> (res: Result<(), ParseError>)
    requires
        old(func).wf(),
        (FuncState { types, func: old(func)@, locals: locals@, blocks: blocks@ }).wf(),
    ensures
        final(func).wf(),
        ({
            let begun = FuncState {
                types,
                func: old(func)@,
                locals: locals@,
                blocks: blocks@,
            };
            match define_lines(func_names@, begun, lines@) {
                Ok(state) => res is Ok && state == (FuncState {
                    types,
                    func: final(func)@,
                    locals: locals@,
                    blocks: blocks@,
                }),
                Err(error) => res matches Err(found) && found == error,
            }
        }),
{
    let ghost begun = FuncState { types, func: func@, locals: locals@, blocks: blocks@ };
    let mut i: usize = 0;
    assert(lines@.take(0) =~= Seq::empty());
    while i < lines.len()
        invariant
            func.wf(),
            begun.wf(),
            begun == (FuncState {
                types,
                func: old(func)@,
                locals: locals@,
                blocks: blocks@,
            }),
            i <= lines.len(),
            define_lines(func_names@, begun, lines@.take(i as int)) == Ok::<FuncState, ParseError>(
                FuncState { types, func: func@, locals: locals@, blocks: blocks@ },
            ),
        decreases lines.len() - i,
    {
        proof {
            lemma_define_lines(func_names@, begun, lines@, i + 1);
            lemma_define_lines(func_names@, begun, lines@.take(i as int), i as int);
            assert(lines@.take(i as int).take(i as int) =~= lines@.take(i as int));
            assert(lines@.take(i + 1).drop_last() =~= lines@.take(i as int));
        }
        if let ParsedFunctionLine::Block { name, lines: block_lines, term_ins, term_args } =
            &lines[i] {
            let ghost state = FuncState { types, func: func@, locals: locals@, blocks: blocks@ };
            let bb_id = match blocks.get(name.as_str()) {
                Some(key) => BasicBlockId { key },
                None => {
                    return Err(ParseError::UnknownBlock);
                },
            };
            assert(state.func.has_block(bb_id));
            let unmade = BasicBlock {
                instructions: Vec::new(),
                ins_final: InsFinal::Br { next: BasicBlockId::null() },
            };
            let ghost before = func.blocks@;
            let mut bb = func.blocks.replace(bb_id.key, unmade);
            assert(state.func.block(bb_id) == bb@);
            let scope = Scope { locals, blocks, funcs: func_names, local_types: &func.locals };
            assert(scope.wf());
            match scope.translate_lines(block_lines, &mut bb.instructions) {
                Ok(_) => {},
                Err(error) => {
                    return Err(error);
                },
            }
            match scope.translate_final(term_ins.as_str(), term_args) {
                Ok(ins_final) => {
                    bb.ins_final = ins_final;
                },
                Err(error) => {
                    return Err(error);
                },
            }
            if func.entrypoint.is_null() {
                func.entrypoint = bb_id;
            }
            func.blocks.set(bb_id.key, bb);
            assert(func@.blocks =~= state.func.blocks.update(key_pos(bb_id.key), bb@));
        }
        i = i + 1;
    }
    assert(lines@.take(i as int) =~= lines@);
    Ok(())
}

/// Translates a function, on top of what it holds.
fn translate_function(
    types: &mut Types,
    type_names: &NameMap,
    func_names: &NameMap,
    func: &mut Func,
    name: &String,
    arg_locals: &Vec<String>,
    lines: &Vec<ParsedFunctionLine>,
    ret_ty: &Option<ParsedTypePath>,
) -> (res: Result<(), ParseError>)
    requires
        old(types).wf(),
        old(func).wf(),
    ensures
        final(types).wf(),
        final(func).wf(),
        match function_of(
            old(types)@,
            type_names@,
            func_names@,
            old(func)@,
            name@,
            arg_locals@,
            lines@,
            *ret_ty,
        ) {
            Ok((types_after, func_after)) => {
                &&& res is Ok
                &&& final(types)@ == types_after
                &&& final(func)@ == func_after
            },
            Err(error) => res matches Err(found) && found == error,
        },
{
    func.name = name.as_str().to_owned();
    func.return_type = match ret_ty {
        Some(path) => match translate_type(types, type_names, path) {
            Ok(id) => Some(id),
            Err(error) => {
                return Err(error);
            },
        },
        None => None,
    };
    let ghost begun = FuncState {
        types: types@,
        func: func@,
        locals: Map::empty(),
        blocks: Map::empty(),
    };
    proof {
        lemma_declare_lines(type_names@, begun, lines@, 0);
    }
    let (locals, blocks) = match declare_function_lines(types, type_names, func, lines) {
        Ok(names) => names,
        Err(error) => {
            return Err(error);
        },
    };
    let args = {
        let scope = Scope {
            locals: &locals,
            blocks: &blocks,
            funcs: func_names,
            local_types: &func.locals,
        };
        assert(arg_locals@.skip(0) =~= arg_locals@);
        match scope.locals_from(arg_locals, 0) {
            Ok(args) => args,
            Err(error) => {
                return Err(error);
            },
        }
    };
    func.args = args;
    define_function_lines(func_names, func, &locals, &blocks, lines, Ghost(types@))
}

/// A program while it is translated.
pub struct ProgramState {
    pub types: TypesModel,
    pub type_names: Names,
    pub functions: Seq<FuncModel>,
    pub func_names: Names,
}

impl ProgramState {
    /// Every name of a type or of a function stands for one, and the primitive
    /// types are known.
    pub open spec fn wf(self) -> bool {
        &&& self.types.has_prims()
        &&& forall|name: Seq<char>| #[trigger]
            self.type_names.contains_key(name) ==> self.types.contains(
                TypeId { key: self.type_names[name] },
            )
        &&& forall|name: Seq<char>| #[trigger]
            self.func_names.contains_key(name) ==> 0 <= key_pos(self.func_names[name])
                < self.functions.len()
    }
}

/// A function that was not translated yet.
pub open spec fn empty_func() -> FuncModel {
    FuncModel {
        name: Seq::empty(),
        entrypoint: BasicBlockId { key: NULL_KEY },
        blocks: Seq::empty(),
        locals: Seq::empty(),
        args: Seq::empty(),
        return_type: None,
    }
}

/// A program without items: it has the primitive types.
pub open spec fn empty_program() -> ProgramState {
    ProgramState {
        types: TypesModel::empty().interned(TypeModel::PrimI32).interned(
            TypeModel::PrimI64,
        ).interned(TypeModel::PrimF32).interned(TypeModel::PrimBool),
        type_names: Map::empty().insert("i32"@, key_at(0)).insert("i64"@, key_at(1)).insert(
            "f32"@,
            key_at(2),
        ).insert("bool"@, key_at(3)),
        functions: Seq::empty(),
        func_names: Map::empty(),
    }
}

/// Makes the type or the function that an item stands for. The name stands for it
/// from then on.
pub open spec fn declare_item(state: ProgramState, item: ParsedItem) -> Result<
    ProgramState,
    ParseError,
> {
    match item {
        ParsedItem::Struct { name, .. } => if state.types.infos.len() >= MAX_SLOTS {
            Err(ParseError::TooMany)
        } else {
            Ok(
                ProgramState {
                    types: state.types.declared(),
                    type_names: state.type_names.insert(
                        name@,
                        key_at(state.types.infos.len() as int),
                    ),
                    ..state
                },
            )
        },
        ParsedItem::Function { name, .. } => if state.functions.len() >= MAX_SLOTS {
            Err(ParseError::TooMany)
        } else {
            Ok(
                ProgramState {
                    functions: state.functions.push(empty_func()),
                    func_names: state.func_names.insert(
                        name@,
                        key_at(state.functions.len() as int),
                    ),
                    ..state
                },
            )
        },
    }
}

pub open spec fn declare_items(state: ProgramState, items: Seq<ParsedItem>) -> Result<
    ProgramState,
    ParseError,
>
    decreases items.len(),
{
    if items.len() == 0 {
        Ok(state)
    } else {
        match declare_items(state, items.drop_last()) {
            Ok(before) => declare_item(before, items.last()),
            Err(error) => Err(error),
        }
    }
}

/// Gives the type or the function that an item stands for what is written of it.
pub open spec fn define_item(state: ProgramState, item: ParsedItem) -> Result<
    ProgramState,
    ParseError,
> {
    match item {
        ParsedItem::Struct { name, fields } => if !state.type_names.contains_key(name@) {
            Err(ParseError::UnknownType)
        } else {
            match path_types(state.types, state.type_names, fields@) {
                Err(error) => Err(error),
                Ok((types, fields)) => Ok(
                    ProgramState {
                        types: types.defined(
                            TypeId { key: state.type_names[name@] },
                            TypeModel::Struct(fields),
                        ),
                        ..state
                    },
                ),
            }
        },
        ParsedItem::Function { name, arg_locals, lines, ret_ty } => if !state.func_names.contains_key(
            name@,
        ) {
            Err(ParseError::UnknownFunction)
        } else {
            let at = key_pos(state.func_names[name@]);
            match function_of(
                state.types,
                state.type_names,
                state.func_names,
                state.functions[at],
                name@,
                arg_locals@,
                lines@,
                ret_ty,
            ) {
                Err(error) => Err(error),
                Ok((types, func)) => Ok(
                    ProgramState { types, functions: state.functions.update(at, func), ..state },
                ),
            }
        },
    }
}

pub open spec fn define_items(state: ProgramState, items: Seq<ParsedItem>) -> Result<
    ProgramState,
    ParseError,
>
    decreases items.len(),
{
    if items.len() == 0 {
        Ok(state)
    } else {
        match define_items(state, items.drop_last()) {
            Ok(before) => define_item(before, items.last()),
            Err(error) => Err(error),
        }
    }
}

/// The program that items stand for. All of them are declared before any of them
/// is defined, so that each can be named before it is written.
pub open spec fn program_of(items: Seq<ParsedItem>, entrypoint: Seq<char>) -> Result<
    ProgramModel,
    ParseError,
> {
    match declare_items(empty_program(), items) {
        Err(error) => Err(error),
        Ok(declared) => match define_items(declared, items) {
            Err(error) => Err(error),
            Ok(defined) => if defined.func_names.contains_key(entrypoint) {
                Ok(
                    ProgramModel {
                        entrypoint: FuncId { key: defined.func_names[entrypoint] },
                        functions: defined.functions,
                        types: defined.types,
                    },
                )
            } else {
                Err(ParseError::UnknownFunction)
            },
        },
    }
}

proof fn lemma_function_of(
    types: TypesModel,
    type_names: Names,
    func_names: Names,
    func: FuncModel,
    name: Seq<char>,
    arg_locals: Seq<String>,
    lines: Seq<ParsedFunctionLine>,
    ret_ty: Option<ParsedTypePath>,
)
    ensures
        function_of(
            types,
            type_names,
            func_names,
            func,
            name,
            arg_locals,
            lines,
            ret_ty,
        ) matches Ok((after, _)) ==> types_after(types, after),
{
    if let Some(path) = ret_ty {
        lemma_path_type(types, type_names, path);
    }
    if let Ok((returned, return_type)) = return_of(types, type_names, ret_ty) {
        let begun = FuncState {
            types: returned,
            func: FuncModel { name, return_type, ..func },
            locals: Map::empty(),
            blocks: Map::empty(),
        };
        lemma_declare_lines(type_names, begun, lines, 0);
        if let Ok(declared) = declare_lines(type_names, begun, lines) {
            if let Ok(args) = locals_named(declared.locals, arg_locals) {
                let argued = FuncState {
                    func: FuncModel { args, ..declared.func },
                    ..declared
                };
                lemma_define_lines(func_names, argued, lines, 0);
            }
        }
    }
}

proof fn lemma_declare_items(state: ProgramState, items: Seq<ParsedItem>, n: int)
    requires
        0 <= n <= items.len(),
        state.wf(),
    ensures
        declare_items(state, items) matches Ok(after) ==> after.wf(),
        declare_items(state, items.take(n)) matches Err(error) ==> declare_items(state, items)
            == Err::<ProgramState, ParseError>(error),
    decreases items.len(),
{
    if items.len() > 0 {
        let front = items.drop_last();
        lemma_declare_items(state, front, front.len() as int);
        if n < items.len() {
            lemma_declare_items(state, front, n);
            assert(front.take(n) =~= items.take(n));
        } else {
            assert(items.take(n) =~= items);
        }
    } else {
        assert(items.take(n) =~= items);
    }
}

pub proof fn lemma_define_item(state: ProgramState, item: ParsedItem)
    requires
        state.wf(),
    ensures
        define_item(state, item) matches Ok(after) ==> after.wf(),
{
    match item {
        ParsedItem::Struct { name, fields } => {
            lemma_path_types(state.types, state.type_names, fields@, 0);
        },
        ParsedItem::Function { name, arg_locals, lines, ret_ty } => {
            lemma_function_of(
                state.types,
                state.type_names,
                state.func_names,
                state.functions[key_pos(state.func_names[name@])],
                name@,
                arg_locals@,
                lines@,
                ret_ty,
            );
        },
    }
}

proof fn lemma_define_items(state: ProgramState, items: Seq<ParsedItem>, n: int)
    requires
        0 <= n <= items.len(),
        state.wf(),
    ensures
        define_items(state, items) matches Ok(after) ==> after.wf(),
        define_items(state, items.take(n)) matches Err(error) ==> define_items(state, items)
            == Err::<ProgramState, ParseError>(error),
    decreases items.len(),
{
    if items.len() > 0 {
        let front = items.drop_last();
        lemma_define_items(state, front, front.len() as int);
        if let Ok(before) = define_items(state, front) {
            lemma_define_item(before, items.last());
        }
        if n < items.len() {
            lemma_define_items(state, front, n);
            assert(front.take(n) =~= items.take(n));
        } else {
            assert(items.take(n) =~= items);
        }
    } else {
        assert(items.take(n) =~= items);
    }
}

/// The names of the primitive types stand for them.
pub proof fn lemma_empty_program()
    ensures
        empty_program().wf(),
        empty_program().types.infos =~= seq![
            TypeModel::PrimI32,
            TypeModel::PrimI64,
            TypeModel::PrimF32,
            TypeModel::PrimBool,
        ],
{
}

/// The types, functions and names of a program while it is translated.
struct Draft {
    types: Types,
    type_names: NameMap,
    functions: Arena<Func>,
    func_names: NameMap,
}

impl Draft {
    spec fn state(&self) -> ProgramState {
        ProgramState {
            types: self.types@,
            type_names: self.type_names@,
            functions: self.functions@.map_values(|func: Func| func@),
            func_names: self.func_names@,
        }
    }

    spec fn wf(&self) -> bool {
        &&& self.types.wf()
        &&& self.functions.wf()
        &&& forall|i: int| 0 <= i < self.functions@.len() ==> (#[trigger] self.functions@[i]).wf()
        &&& self.state().wf()
    }

    fn new() -> (draft: Draft)
        ensures
            draft.wf(),
            draft.state() == empty_program(),
    {
        let mut types = Types::new();
        let mut type_names = NameMap::new();
        let i32_id = types.i32();
        let i64_id = types.i64();
        let float32_id = types.float32();
        let bool_id = types.bool();
        type_names.insert("i32".to_owned(), i32_id.key);
        type_names.insert("i64".to_owned(), i64_id.key);
        type_names.insert("f32".to_owned(), float32_id.key);
        type_names.insert("bool".to_owned(), bool_id.key);
        let draft = Draft {
            types,
            type_names,
            functions: Arena::new(),
            func_names: NameMap::new(),
        };
        assert(draft.state().functions =~= Seq::empty());
        assert(draft.state() == empty_program());
        draft
    }

    fn declare(&mut self, item: &ParsedItem) -> (res: Result<(), ParseError>)
        requires
            old(self).wf(),
        ensures
            match declare_item(old(self).state(), *item) {
                Ok(state) => res is Ok && final(self).wf() && final(self).state() == state,
                Err(error) => res matches Err(found) && found == error,
            },
    {
        let ghost before = self.state();
        match item {
            ParsedItem::Struct { name, .. } => {
                if self.types.len() >= MAX_SLOTS {
                    return Err(ParseError::TooMany);
                }
                let ty = self.types.declare_type();
                self.type_names.insert(name.as_str().to_owned(), ty.key);
            },
            ParsedItem::Function { name, .. } => {
                if self.functions.len() >= MAX_SLOTS {
                    return Err(ParseError::TooMany);
                }
                let func: Func = Default::default();
                assert(func@ =~= empty_func());
                let key = self.functions.insert(func);
                self.func_names.insert(name.as_str().to_owned(), key);
                assert(self.state().functions =~= before.functions.push(empty_func()));
            },
        }
        Ok(())
    }

    fn define(&mut self, item: &ParsedItem) -> (res: Result<(), ParseError>)
        requires
            old(self).wf(),
        ensures
            match define_item(old(self).state(), *item) {
                Ok(state) => res is Ok && final(self).wf() && final(self).state() == state,
                Err(error) => res matches Err(found) && found == error,
            },
    {
        let ghost before = self.state();
        proof {
            lemma_define_item(before, *item);
        }
        match item {
            ParsedItem::Struct { name, fields } => {
                proof {
                    lemma_path_types(before.types, before.type_names, fields@, 0);
                }
                let ty = match self.type_names.get(name.as_str()) {
                    Some(key) => TypeId { key },
                    None => {
                        return Err(ParseError::UnknownType);
                    },
                };
                assert(before.types.contains(ty));
                let fields = match translate_types(&mut self.types, &self.type_names, fields) {
                    Ok(fields) => fields,
                    Err(error) => {
                        return Err(error);
                    },
                };
                self.types.define_type(ty, TypeInfo::Struct(StructInfo { fields }));
            },
            ParsedItem::Function { name, arg_locals, lines, ret_ty } => {
                let key = match self.func_names.get(name.as_str()) {
                    Some(key) => key,
                    None => {
                        return Err(ParseError::UnknownFunction);
                    },
                };
                assert(before.func_names.contains_key(name@));
                let ghost funcs = self.functions@;
                let unmade: Func = Default::default();
                let mut func = self.functions.replace(key, unmade);
                assert(func@ == before.functions[key_pos(key)]);
                match translate_function(
                    &mut self.types,
                    &self.type_names,
                    &self.func_names,
                    &mut func,
                    name,
                    arg_locals,
                    lines,
                    ret_ty,
                ) {
                    Ok(_) => {},
                    Err(error) => {
                        return Err(error);
                    },
                }
                self.functions.set(key, func);
                assert(self.functions@ =~= funcs.update(key_pos(key), func));
                assert(self.state().functions =~= before.functions.update(key_pos(key), func@));
            },
        }
        Ok(())
    }
}

/// The program that parsed items stand for, which starts with the function of the
/// name `entrypoint`.
pub fn parse_mir_program(parsed_items: &Vec<ParsedItem>, entrypoint: &str) -> (res: Result<
    Program,
    ParseError,
>)
    ensures
        match program_of(parsed_items@, entrypoint@) {
            Ok(model) => res matches Ok(program) && program.wf() && program@ == model,
            Err(error) => res matches Err(found) && found == error,
        },
{
    let mut draft = Draft::new();
    let ghost begun = draft.state();

    // Declarations (types/functions)
    let mut i: usize = 0;
    assert(parsed_items@.take(0) =~= Seq::empty());
    while i < parsed_items.len()
        invariant
            draft.wf(),
            begun.wf(),
            i <= parsed_items.len(),
            declare_items(begun, parsed_items@.take(i as int)) == Ok::<ProgramState, ParseError>(
                draft.state(),
            ),
            begun == empty_program(),
        decreases parsed_items.len() - i,
    {
        proof {
            lemma_declare_items(begun, parsed_items@, i + 1);
            assert(parsed_items@.take(i + 1).drop_last() =~= parsed_items@.take(i as int));
        }
        match draft.declare(&parsed_items[i]) {
            Ok(_) => {},
            Err(error) => {
                return Err(error);
            },
        }
        i = i + 1;
    }
    assert(parsed_items@.take(i as int) =~= parsed_items@);
    let ghost declared = draft.state();

    // Definitions
    i = 0;
    assert(parsed_items@.take(0) =~= Seq::empty());
    while i < parsed_items.len()
        invariant
            draft.wf(),
            declared.wf(),
            i <= parsed_items.len(),
            declare_items(empty_program(), parsed_items@) == Ok::<ProgramState, ParseError>(
                declared,
            ),
            define_items(declared, parsed_items@.take(i as int)) == Ok::<ProgramState, ParseError>(
                draft.state(),
            ),
        decreases parsed_items.len() - i,
    {
        proof {
            lemma_define_items(declared, parsed_items@, i + 1);
            assert(parsed_items@.take(i + 1).drop_last() =~= parsed_items@.take(i as int));
        }
        match draft.define(&parsed_items[i]) {
            Ok(_) => {},
            Err(error) => {
                return Err(error);
            },
        }
        i = i + 1;
    }
    assert(parsed_items@.take(i as int) =~= parsed_items@);

    match draft.func_names.get(entrypoint) {
        Some(key) => Ok(
            Program {
                entrypoint: FuncId { key },
                functions: draft.functions,
                types: draft.types,
            },
        ),
        None => Err(ParseError::UnknownFunction),
    }
}

/// Translating a type leaves all types before it as they were, and keeps every
/// description true. The types that it makes come behind the others.
pub proof fn law_path_type_keeps_types(types: TypesModel, names: Names, path: ParsedTypePath)
    requires
        types.consistent(),
        types.infos.len() <= MAX_SLOTS,
    ensures
        path_type(types, names, path) matches Ok((after, _)) ==> {
            &&& after.consistent()
            &&& types.infos.len() <= after.infos.len() <= MAX_SLOTS
            &&& forall|i: int|
                0 <= i < types.infos.len() ==> (#[trigger] after.infos[i]) == types.infos[i]
            &&& forall|info: TypeModel| #[trigger]
                after.ids.contains_key(info) ==> types.ids.contains_key(info) && types.ids[info]
                    == after.ids[info] || key_pos(after.ids[info].key) >= types.infos.len()
        },
    decreases path, 0int,
{
    match path {
        ParsedTypePath::TypeName(_) => {},
        ParsedTypePath::Ref(to) => {
            if types.infos.len() < MAX_SLOTS {
                lemma_reference_keeps_types(types, names, *to);
            }
        },
        ParsedTypePath::GcRef(to) => {
            if types.infos.len() < MAX_SLOTS {
                lemma_reference_keeps_types(types, names, *to);
            }
        },
    }
}

/// The type that a reference gets first is not the type of anything when the type
/// that it refers to is there.
proof fn lemma_reference_keeps_types(types: TypesModel, names: Names, to: ParsedTypePath)
    requires
        types.consistent(),
        types.infos.len() < MAX_SLOTS,
    ensures
        path_type(types.declared(), names, to) matches Ok((after, _)) ==> {
            &&& after.consistent()
            &&& types.infos.len() < after.infos.len() <= MAX_SLOTS
            &&& forall|i: int|
                0 <= i < types.infos.len() ==> (#[trigger] after.infos[i]) == types.infos[i]
            &&& forall|info: TypeModel| #[trigger]
                after.ids.contains_key(info) ==> after.ids[info] != type_at(
                    types.infos.len() as int,
                )
            &&& forall|info: TypeModel| #[trigger]
                after.ids.contains_key(info) ==> types.ids.contains_key(info) && types.ids[info]
                    == after.ids[info] || key_pos(after.ids[info].key) >= types.infos.len()
        },
    decreases to, 1int,
{
    let declared = types.declared();
    assert(declared.consistent()) by {
        assert forall|info: TypeModel| #[trigger]
            declared.ids.contains_key(info) implies declared.contains(declared.ids[info])
            && declared.info(declared.ids[info]) == info by {
            assert(types.ids.contains_key(info));
        }
    }
    law_path_type_keeps_types(declared, names, to);
    if let Ok((after, _)) = path_type(declared, names, to) {
        assert forall|info: TypeModel| #[trigger]
            after.ids.contains_key(info) implies after.ids[info] != type_at(
            types.infos.len() as int,
        ) by {
            if types.ids.contains_key(info) {
                assert(types.contains(types.ids[info]));
            }
        }
        assert forall|i: int| 0 <= i < types.infos.len() implies (#[trigger] after.infos[i])
            == types.infos[i] by {
            assert(after.infos[i] == declared.infos[i]);
        }
    }
}

/// A function starts with the block that is written first.
pub proof fn law_first_block_starts(
    func_names: Names,
    state: FuncState,
    lines: Seq<ParsedFunctionLine>,
    i: int,
)
    requires
        state.wf(),
        state.func.blocks.len() <= MAX_SLOTS,
        no_block(state.func.entrypoint),
        0 <= i < lines.len(),
        lines[i] is Block,
        forall|j: int| 0 <= j < i ==> (#[trigger] lines[j]) is DecLocal,
    ensures
        define_lines(func_names, state, lines) matches Ok(after) ==> {
            &&& state.blocks.contains_key(lines[i]->Block_name@)
            &&& after.func.entrypoint.key == state.blocks[lines[i]->Block_name@]
        },
    decreases lines.len(),
{
    let front = lines.drop_last();
    lemma_define_lines(func_names, state, front, front.len() as int);
    if i < lines.len() - 1 {
        law_first_block_starts(func_names, state, front, i);
        assert(front[i] == lines[i]);
        if let Ok(before) = define_lines(func_names, state, front) {
            assert(state.func.has_block(before.func.entrypoint));
        }
    } else {
        lemma_locals_define_nothing(func_names, state, front);
    }
}

proof fn lemma_locals_define_nothing(
    func_names: Names,
    state: FuncState,
    lines: Seq<ParsedFunctionLine>,
)
    requires
        forall|j: int| 0 <= j < lines.len() ==> (#[trigger] lines[j]) is DecLocal,
    ensures
        define_lines(func_names, state, lines) == Ok::<FuncState, ParseError>(state),
    decreases lines.len(),
{
    if lines.len() > 0 {
        assert(lines[lines.len() - 1] is DecLocal);
        lemma_locals_define_nothing(func_names, state, lines.drop_last());
    }
}

} // verus!
