//! The machine-code builder as the lowering sees it: what a function under
//! construction holds, and the calls that add to it.

use cranelift::codegen::cursor::{Cursor, FuncCursor};
use cranelift::codegen::ir::condcodes::{FloatCC, IntCC};
use cranelift::codegen::ir::immediates::Ieee32;
use cranelift::codegen::ir::types::{Type, F32, I128, I16, I32, I64, I8};
use cranelift::codegen::ir::{
    AbiParam, Block, FuncRef, Function, InstBuilder, MemFlags, Signature, StackSlot, StackSlotData,
    StackSlotKey, StackSlotKind, UserExternalName, UserFuncName, Value,
};
use cranelift::codegen::isa::CallConv;
use cranelift::codegen::Context;
use cranelift_jit::JITModule;
use cranelift_module::{FuncId, Linkage, Module, ModuleError};
use vstd::prelude::*;

verus! {

/// The machine types that values are given.
#[derive(Clone, Copy, PartialEq, Eq, Structural, Debug)]
pub enum ClifType {
    I8,
    I16,
    I32,
    I64,
    I128,
    F32,
}

/// The conditions that two values are compared by. Integers are compared as
/// signed ones.
#[derive(Clone, Copy, PartialEq, Eq, Structural, Debug)]
pub enum ClifCond {
    Equal,
    Less,
    LessOrEqual,
}

/// The calling conventions that functions are given.
#[derive(Clone, Copy, PartialEq, Eq, Structural, Debug)]
pub enum ClifCallConv {
    SystemV,
}

/// Where the functions and the data objects of a module are defined, and where
/// they are seen.
#[derive(Clone, Copy, PartialEq, Eq, Structural, Debug)]
pub enum ClifLinkage {
    Import,
    Local,
    Preemptible,
    Hidden,
    Export,
}

/// The linkage of what was declared under one and then under the other.
pub open spec fn linkage_merged(a: ClifLinkage, b: ClifLinkage) -> ClifLinkage {
    match (a, b) {
        (ClifLinkage::Import, _) => b,
        (ClifLinkage::Export, _) => a,
        (_, ClifLinkage::Export) => b,
        (ClifLinkage::Preemptible, _) => a,
        (_, ClifLinkage::Preemptible) => b,
        (ClifLinkage::Local, ClifLinkage::Hidden) => b,
        _ => a,
    }
}

/// The calling convention, the parameters and the results of a function.
#[verifier::ext_equal]
pub struct ClifSig {
    pub conv: ClifCallConv,
    pub params: Seq<ClifType>,
    pub returns: Seq<ClifType>,
}

/// A function that a module knows. Functions without a name have `None`.
#[verifier::ext_equal]
pub struct ClifDecl {
    pub name: Option<Seq<char>>,
    pub linkage: ClifLinkage,
    pub sig: ClifSig,
}

/// A data object that a module knows. Data objects without a name have `None`.
#[verifier::ext_equal]
pub struct ClifData {
    pub name: Option<Seq<char>>,
    pub linkage: ClifLinkage,
    pub writable: bool,
}

/// A function of the module that a function can call.
#[verifier::ext_equal]
pub struct ClifRef {
    pub func: u32,
    pub sig: ClifSig,
}

/// A piece of the stack frame.
#[verifier::ext_equal]
pub struct ClifSlot {
    pub size: u32,
    pub align_shift: u8,
    pub key: u64,
}

/// One instruction. `res` is the number of the value that it makes.
#[verifier::ext_equal]
pub enum ClifIns {
    StackAddr { res: u32, ty: ClifType, slot: u32, offset: i32 },
    StackLoad { res: u32, ty: ClifType, slot: u32, offset: i32 },
    StackStore { value: u32, slot: u32, offset: i32 },
    Load { res: u32, ty: ClifType, addr: u32, offset: i32 },
    Store { value: u32, addr: u32, offset: i32 },
    Iconst { res: u32, ty: ClifType, imm: i64 },
    F32const { res: u32, bits: u32 },
    IaddImm { res: u32, x: u32, imm: i64 },
    Icmp { res: u32, cond: ClifCond, x: u32, y: u32 },
    Fcmp { res: u32, cond: ClifCond, x: u32, y: u32 },
    Iadd { res: u32, x: u32, y: u32 },
    Isub { res: u32, x: u32, y: u32 },
    Imul { res: u32, x: u32, y: u32 },
    Sdiv { res: u32, x: u32, y: u32 },
    Fadd { res: u32, x: u32, y: u32 },
    Fsub { res: u32, x: u32, y: u32 },
    Fmul { res: u32, x: u32, y: u32 },
    Fdiv { res: u32, x: u32, y: u32 },
    FramePointer { res: u32, ty: ClifType },
    Call { func: u32, args: Seq<u32>, results: Seq<u32> },
    Jump { to: u32 },
    Brif { flag: u32, is_true: u32, is_false: u32 },
    Return { values: Seq<u32> },
}

/// A block: the values that stand for its parameters, their types, and its
/// instructions.
#[verifier::ext_equal]
pub struct ClifBlock {
    pub params: Seq<u32>,
    pub types: Seq<ClifType>,
    pub code: Seq<ClifIns>,
}

impl ClifBlock {
    /// A block with neither parameters nor instructions.
    pub open spec fn empty() -> ClifBlock {
        ClifBlock { params: Seq::empty(), types: Seq::empty(), code: Seq::empty() }
    }
}

/// What a function under construction holds. Functions, slots, blocks and
/// values are known by their numbers, each counted from zero in the order in
/// which they were made.
#[verifier::ext_equal]
pub struct ClifBody {
    /// The namespace and the index that name the function.
    pub name: (u32, u32),
    pub sig: ClifSig,
    pub refs: Seq<ClifRef>,
    pub slots: Seq<ClifSlot>,
    pub blocks: Seq<ClifBlock>,
    /// The blocks that have their place in the code, in order.
    pub layout: Seq<u32>,
    /// How many instructions were made.
    pub insts: nat,
    /// How many values were made.
    pub values: nat,
}

/// The instructions of one function, and its blocks that take parameters, have
/// numbers below this.
pub const MAX_INSTS: u32 = 0xff_ffff;

/// The numbers of values, blocks, slots and functions are below this.
pub const MAX_ENTITIES: u32 = 0xffff_ffff;

/// The most parameters that a block can have.
pub const MAX_PARAMS: u32 = 0x1_0000;

impl ClifBody {
    /// A function without any code.
    pub open spec fn fresh(name: (u32, u32), sig: ClifSig) -> ClifBody {
        ClifBody {
            name,
            sig,
            refs: Seq::empty(),
            slots: Seq::empty(),
            blocks: Seq::empty(),
            layout: Seq::empty(),
            insts: 0,
            values: 0,
        }
    }

    /// Whether `block` can get one more instruction, which makes up to `results` values.
    pub open spec fn takes(self, block: u32, results: nat) -> bool {
        &&& block < self.blocks.len()
        &&& self.layout.contains(block)
        &&& self.insts < MAX_INSTS
        &&& self.values + results <= MAX_ENTITIES
    }

    /// The number of the next value.
    pub open spec fn next(self) -> u32 {
        self.values as u32
    }

    /// With one more instruction in `block`, which makes `results` values.
    pub open spec fn with_ins(self, block: u32, ins: ClifIns, results: nat) -> ClifBody {
        ClifBody {
            blocks: self.blocks.update(
                block as int,
                ClifBlock {
                    code: self.blocks[block as int].code.push(ins),
                    ..self.blocks[block as int]
                },
            ),
            insts: self.insts + 1,
            values: self.values + results,
            ..self
        }
    }

    /// With one more block, which has neither parameters nor instructions.
    pub open spec fn with_block(self) -> ClifBody {
        ClifBody { blocks: self.blocks.push(ClifBlock::empty()), ..self }
    }

    /// With `block` behind the others in the code.
    pub open spec fn with_layout(self, block: u32) -> ClifBody {
        ClifBody { layout: self.layout.push(block), ..self }
    }

    /// With one more parameter of `block`.
    pub open spec fn with_param(self, block: u32, ty: ClifType) -> ClifBody {
        ClifBody {
            blocks: self.blocks.update(
                block as int,
                ClifBlock {
                    params: self.blocks[block as int].params.push(self.next()),
                    types: self.blocks[block as int].types.push(ty),
                    ..self.blocks[block as int]
                },
            ),
            values: self.values + 1,
            ..self
        }
    }

    /// With one more slot.
    pub open spec fn with_slot(self, slot: ClifSlot) -> ClifBody {
        ClifBody { slots: self.slots.push(slot), ..self }
    }

    /// With one more function that can be called.
    pub open spec fn with_ref(self, callee: ClifRef) -> ClifBody {
        ClifBody { refs: self.refs.push(callee), ..self }
    }
}

#[verifier::external_type_specification]
#[verifier::external_body]
pub struct ExSignature(Signature);

#[verifier::external_type_specification]
#[verifier::external_body]
pub struct ExFunction(Function);

#[verifier::external_type_specification]
#[verifier::external_body]
pub struct ExJITModule(JITModule);

#[verifier::external_type_specification]
#[verifier::external_body]
pub struct ExModuleError(ModuleError);

/// What a signature holds: its calling convention and the types of its
/// parameters and results.
pub uninterp spec fn sig_of(sig: Signature) -> ClifSig;

/// What a function holds: its name and signature, `dfg.ext_funcs`,
/// `sized_stack_slots`, the parameters and instructions of the blocks in `dfg`,
/// `layout`, and how many instructions and values `dfg` has.
pub uninterp spec fn body_of(func: Function) -> ClifBody;

/// The functions that a module has declared, by their numbers.
pub uninterp spec fn decls_of(module: JITModule) -> Seq<ClifDecl>;

/// The data objects that a module has declared, by their numbers.
pub uninterp spec fn data_of(module: JITModule) -> Seq<ClifData>;

/// The functions that a module has code for, by their numbers, each as it was
/// when it was handed over.
pub uninterp spec fn defs_of(module: JITModule) -> Map<u32, ClifBody>;

/// The frames of the functions that a module has code for, by their numbers, each
/// as it was reported when the code was made.
pub uninterp spec fn frames_of(module: JITModule) -> Map<u32, ClifFrame>;

/// Whether a module was made with the checks on functions that it is handed.
pub uninterp spec fn checks_code(module: JITModule) -> bool;

/// Whether a module has neither a function nor a data object of that name.
pub open spec fn name_free(decls: Seq<ClifDecl>, data: Seq<ClifData>, name: Seq<char>) -> bool {
    &&& forall|i: int| 0 <= i < decls.len() ==> (#[trigger] decls[i]).name != Some(name)
    &&& forall|i: int| 0 <= i < data.len() ==> (#[trigger] data[i]).name != Some(name)
}

/// What a constant of the type keeps of an integer: the bits that fit.
pub open spec fn low_bits(ty: ClifType, imm: i64) -> i64 {
    match ty {
        ClifType::I8 => (imm % 0x100) as i64,
        ClifType::I16 => (imm % 0x1_0000) as i64,
        ClifType::I32 | ClifType::F32 => (imm % 0x1_0000_0000) as i64,
        ClifType::I64 | ClifType::I128 => imm,
    }
}

/// The integer type of a number of bytes.
pub open spec fn int_type(bytes: u16) -> Option<ClifType> {
    if bytes == 1 {
        Some(ClifType::I8)
    } else if bytes == 2 {
        Some(ClifType::I16)
    } else if bytes == 4 {
        Some(ClifType::I32)
    } else if bytes == 8 {
        Some(ClifType::I64)
    } else if bytes == 16 {
        Some(ClifType::I128)
    } else {
        None
    }
}

/// `Type::int_with_byte_size`: there is an integer type of 1, 2, 4, 8 and 16
/// bytes, and of no other number of bytes.
#[verifier::external_body]
pub(crate) fn int_with_byte_size(bytes: u16) -> (ty: Option<ClifType>)
    ensures
        ty == int_type(bytes),
{
    Type::int_with_byte_size(bytes).map(|ty| match ty {
        I8 => ClifType::I8,
        I16 => ClifType::I16,
        I32 => ClifType::I32,
        I64 => ClifType::I64,
        _ => ClifType::I128,
    })
}

/// `Signature::new`: a signature of the given convention without parameters and
/// results.
#[verifier::external_body]
pub(crate) fn sig_new(conv: ClifCallConv) -> (sig: Signature)
    ensures
        sig_of(sig) == (ClifSig { conv, params: Seq::empty(), returns: Seq::empty() }),
{
    Signature::new(match conv {
        ClifCallConv::SystemV => CallConv::SystemV,
    })
}

/// `AbiParam::new`, pushed to the parameters: the signature takes one more value
/// of the type.
#[verifier::external_body]
pub(crate) fn sig_push_param(sig: &mut Signature, ty: ClifType)
    ensures
        sig_of(*final(sig)) == (ClifSig {
            params: sig_of(*old(sig)).params.push(ty),
            ..sig_of(*old(sig))
        }),
{
    sig.params.push(AbiParam::new(match ty {
        ClifType::I8 => I8,
        ClifType::I16 => I16,
        ClifType::I32 => I32,
        ClifType::I64 => I64,
        ClifType::I128 => I128,
        ClifType::F32 => F32,
    }));
}

/// `AbiParam::new`, pushed to the results: the signature gives one more value of
/// the type.
#[verifier::external_body]
pub(crate) fn sig_push_return(sig: &mut Signature, ty: ClifType)
    ensures
        sig_of(*final(sig)) == (ClifSig {
            returns: sig_of(*old(sig)).returns.push(ty),
            ..sig_of(*old(sig))
        }),
{
    sig.returns.push(AbiParam::new(match ty {
        ClifType::I8 => I8,
        ClifType::I16 => I16,
        ClifType::I32 => I32,
        ClifType::I64 => I64,
        ClifType::I128 => I128,
        ClifType::F32 => F32,
    }));
}

/// `Flags::enable_verifier` of the target that a module was made for: whether
/// functions are checked before code is made for them.
#[verifier::external_body]
pub(crate) fn module_checks_code(module: &JITModule) -> (checks: bool)
    ensures
        checks == checks_code(*module),
{
    module.isa().flags().enable_verifier()
}

/// `ModuleDeclarations::get_functions`, counted: how many functions a module has
/// declared.
#[verifier::external_body]
pub(crate) fn module_func_count(module: &JITModule) -> (n: usize)
    ensures
        n == decls_of(*module).len(),
{
    module.declarations().get_functions().count()
}

/// `ModuleDeclarations::get_data_objects`, counted: how many data objects a module
/// has declared.
#[verifier::external_body]
pub(crate) fn module_data_count(module: &JITModule) -> (n: usize)
    ensures
        n == data_of(*module).len(),
{
    module.declarations().get_data_objects().count()
}

/// `Module::declare_function` of a `JITModule`. A name that is free gets the next
/// number. A name that the module has for a function gives the number of that
/// function, whose linkage becomes the one merged from both, or the error where
/// the signature is another one. A name of a data object gives the error.
/// Whatever comes, the names and signatures that were declared stay. Signatures
/// are compared in more than their types: that two of the same types are the same
/// is not stated.
#[verifier::external_body]
pub(crate) fn module_declare_function(
    module: &mut JITModule,
    name: &str,
    linkage: ClifLinkage,
    sig: &Signature,
) -> (func: Result<u32, ModuleError>)
    requires
        decls_of(*old(module)).len() < MAX_ENTITIES,
    ensures
        data_of(*final(module)) == data_of(*old(module)),
        defs_of(*final(module)) == defs_of(*old(module)),
        frames_of(*final(module)) == frames_of(*old(module)),
        checks_code(*final(module)) == checks_code(*old(module)),
        name_free(decls_of(*old(module)), data_of(*old(module)), name@) ==> func is Ok,
        match func {
            Ok(id) => if name_free(decls_of(*old(module)), data_of(*old(module)), name@) {
                &&& id == decls_of(*old(module)).len()
                &&& decls_of(*final(module)) == decls_of(*old(module)).push(
                    ClifDecl { name: Some(name@), linkage, sig: sig_of(*sig) },
                )
            } else {
                let before = decls_of(*old(module))[id as int];
                &&& id < decls_of(*old(module)).len()
                &&& before.name == Some(name@)
                &&& before.sig == sig_of(*sig)
                &&& decls_of(*final(module)) == decls_of(*old(module)).update(
                    id as int,
                    ClifDecl { linkage: linkage_merged(before.linkage, linkage), ..before },
                )
            },
            Err(_) => {
                &&& decls_of(*final(module)).len() == decls_of(*old(module)).len()
                &&& forall|i: int|
                    #![trigger decls_of(*final(module))[i]]
                    0 <= i < decls_of(*old(module)).len() ==> decls_of(*final(module))[i].name
                        == decls_of(*old(module))[i].name && decls_of(*final(module))[i].sig
                        == decls_of(*old(module))[i].sig
            },
        },
{
    let linkage = match linkage {
        ClifLinkage::Import => Linkage::Import,
        ClifLinkage::Local => Linkage::Local,
        ClifLinkage::Preemptible => Linkage::Preemptible,
        ClifLinkage::Hidden => Linkage::Hidden,
        ClifLinkage::Export => Linkage::Export,
    };
    module.declare_function(name, linkage, sig).map(|id| id.as_u32())
}

/// `Module::declare_data` of a `JITModule`, of an object that is not local to a
/// thread. A name that is free gets the next number. A name that the module has
/// for a data object gives the number of that object, which takes on the merged
/// linkage and is writable if it was or is to be. A name of a function gives the
/// error, and nothing changes.
#[verifier::external_body]
pub(crate) fn module_declare_data(
    module: &mut JITModule,
    name: &str,
    linkage: ClifLinkage,
    writable: bool,
) -> (data: Result<u32, ModuleError>)
    requires
        data_of(*old(module)).len() < MAX_ENTITIES,
    ensures
        decls_of(*final(module)) == decls_of(*old(module)),
        defs_of(*final(module)) == defs_of(*old(module)),
        frames_of(*final(module)) == frames_of(*old(module)),
        checks_code(*final(module)) == checks_code(*old(module)),
        name_free(decls_of(*old(module)), data_of(*old(module)), name@) ==> data is Ok,
        match data {
            Ok(id) => if name_free(decls_of(*old(module)), data_of(*old(module)), name@) {
                &&& id == data_of(*old(module)).len()
                &&& data_of(*final(module)) == data_of(*old(module)).push(
                    ClifData { name: Some(name@), linkage, writable },
                )
            } else {
                let before = data_of(*old(module))[id as int];
                &&& id < data_of(*old(module)).len()
                &&& before.name == Some(name@)
                &&& data_of(*final(module)) == data_of(*old(module)).update(
                    id as int,
                    ClifData {
                        name: before.name,
                        linkage: linkage_merged(before.linkage, linkage),
                        writable: before.writable || writable,
                    },
                )
            },
            Err(_) => data_of(*final(module)) == data_of(*old(module)),
        },
{
    let linkage = match linkage {
        ClifLinkage::Import => Linkage::Import,
        ClifLinkage::Local => Linkage::Local,
        ClifLinkage::Preemptible => Linkage::Preemptible,
        ClifLinkage::Hidden => Linkage::Hidden,
        ClifLinkage::Export => Linkage::Export,
    };
    module.declare_data(name, linkage, writable, false).map(|id| id.as_u32())
}

/// How a frame lies in memory: how far its bottom is below the frame pointer,
/// and how far each slot is above the bottom.
#[derive(Debug)]
pub struct FrameLayout {
    pub frame_to_fp: u32,
    pub slots: Vec<u32>,
}

/// What a frame layout holds.
#[verifier::ext_equal]
pub struct ClifFrame {
    pub frame_to_fp: u32,
    pub slots: Seq<u32>,
}

impl View for FrameLayout {
    type V = ClifFrame;

    open spec fn view(&self) -> ClifFrame {
        ClifFrame { frame_to_fp: self.frame_to_fp, slots: self.slots@ }
    }
}

/// The most room that the slots of a frame may take. The code generator holds the
/// size of a frame in a signed number of 32 bits. Of that it can need 32 MiB for
/// values that it keeps in the frame, of which there are fewer than 2 to the 21st,
/// of up to 16 bytes each, and less than 1 MiB for what is passed to functions and
/// for registers.
pub const MAX_FRAME: u32 = 0x7def_ffff;

/// The room that slots take, with the gaps that their alignments can leave.
pub open spec fn frame_room(slots: Seq<ClifSlot>) -> int
    decreases slots.len(),
{
    if slots.len() == 0 {
        0
    } else {
        frame_room(slots.drop_last()) + slots.last().size + 8
    }
}

/// Whether the code generator can be handed the signature: there is no value of 16
/// bytes in it, no more parameters than a block can have, and at most one result.
pub open spec fn sig_fits(sig: ClifSig) -> bool {
    &&& sig.params.len() <= MAX_PARAMS
    &&& sig.returns.len() <= 1
    &&& forall|i: int| 0 <= i < sig.params.len() ==> (#[trigger] sig.params[i]) != ClifType::I128
    &&& forall|i: int| 0 <= i < sig.returns.len() ==> (#[trigger] sig.returns[i]) != ClifType::I128
}

/// Whether the code generator can be handed a function: it has a block, its
/// signature and those of the functions that it can call fit, and so do its slots.
pub open spec fn can_define(body: ClifBody) -> bool {
    &&& body.layout.len() > 0
    &&& sig_fits(body.sig)
    &&& forall|i: int| 0 <= i < body.refs.len() ==> sig_fits((#[trigger] body.refs[i]).sig)
    &&& forall|i: int| 0 <= i < body.slots.len() ==> (#[trigger] body.slots[i]).align_shift <= 3
    &&& frame_room(body.slots) <= MAX_FRAME
}

/// Whether each of the slots lies in the frame, below the frame pointer.
pub open spec fn frame_holds(frame: ClifFrame, slots: Seq<ClifSlot>) -> bool {
    &&& frame.slots.len() == slots.len()
    &&& forall|i: int|
        0 <= i < slots.len() ==> (#[trigger] frame.slots[i]) + slots[i].size <= frame.frame_to_fp
}

/// `Module::define_function` of a `JITModule` that checks functions: makes the code
/// of a function that was declared. A function that is imported, or that has its
/// code already, gives the error, and so does one that the checks or the code
/// generator reject; which those are is not stated. With the code comes the layout
/// of its frame (`MachBuffer::frame_layout`), in which each slot has its room. The
/// offsets in it depend on the machine and are not stated.
#[verifier::external_body]
pub(crate) fn module_define_function(module: &mut JITModule, id: u32, func: Function) -> (frame:
    Result<Option<FrameLayout>, ModuleError>)
    requires
        id < decls_of(*old(module)).len(),
        checks_code(*old(module)),
        can_define(body_of(func)),
    ensures
        decls_of(*final(module)) == decls_of(*old(module)),
        data_of(*final(module)) == data_of(*old(module)),
        checks_code(*final(module)) == checks_code(*old(module)),
        decls_of(*old(module))[id as int].linkage is Import ==> frame is Err,
        defs_of(*old(module)).contains_key(id) ==> frame is Err,
        frame matches Ok(made) ==> made is Some && frame_holds(made->0@, body_of(func).slots),
        defs_of(*final(module)) == match frame {
            Ok(_) => defs_of(*old(module)).insert(id, body_of(func)),
            Err(_) => defs_of(*old(module)),
        },
        frames_of(*final(module)) == match frame {
            Ok(Some(made)) => frames_of(*old(module)).insert(id, made@),
            _ => frames_of(*old(module)),
        },
{
    let mut ctx = Context::for_function(func);
    module.define_function(FuncId::from_u32(id), &mut ctx)?;
    let layout = ctx.compiled_code().and_then(|code| code.buffer.frame_layout());
    Ok(layout.map(|layout| FrameLayout {
        frame_to_fp: layout.frame_to_fp_offset,
        slots: layout.stackslots.values().map(|slot| slot.offset).collect(),
    }))
}

/// `Module::declare_func_in_func` of a `JITModule`: the function gets one more
/// function that it can call, under the number and with the signature that the
/// module has for it. The module stays as it is.
#[verifier::external_body]
pub(crate) fn module_declare_func_in_func(
    module: &mut JITModule,
    id: u32,
    func: &mut Function,
) -> (callee: u32)
    requires
        id < decls_of(*old(module)).len(),
        body_of(*old(func)).refs.len() < MAX_ENTITIES,
    ensures
        callee == body_of(*old(func)).refs.len(),
        body_of(*final(func)) == body_of(*old(func)).with_ref(
            ClifRef { func: id, sig: decls_of(*old(module))[id as int].sig },
        ),
        decls_of(*final(module)) == decls_of(*old(module)),
        data_of(*final(module)) == data_of(*old(module)),
        defs_of(*final(module)) == defs_of(*old(module)),
        frames_of(*final(module)) == frames_of(*old(module)),
        checks_code(*final(module)) == checks_code(*old(module)),
{
    module.declare_func_in_func(FuncId::from_u32(id), func).as_u32()
}

/// `Function::with_name_signature`: a function of that name and signature
/// without any code.
#[verifier::external_body]
pub(crate) fn func_new(namespace: u32, index: u32, sig: Signature) -> (func: Function)
    ensures
        body_of(func) == ClifBody::fresh((namespace, index), sig_of(sig)),
{
    Function::with_name_signature(UserFuncName::User(UserExternalName { namespace, index }), sig)
}

/// `Function::create_sized_stack_slot` of an explicit slot: one more slot.
#[verifier::external_body]
pub(crate) fn func_create_slot(func: &mut Function, size: u32, align_shift: u8, key: u64) -> (slot:
    u32)
    requires
        body_of(*old(func)).slots.len() < MAX_ENTITIES,
    ensures
        slot == body_of(*old(func)).slots.len(),
        body_of(*final(func)) == body_of(*old(func)).with_slot(
            ClifSlot { size, align_shift, key },
        ),
{
    let kind = StackSlotKind::ExplicitSlot;
    let data = StackSlotData::new_with_key(kind, size, align_shift, StackSlotKey::new(key));
    func.create_sized_stack_slot(data).as_u32()
}

/// `DataFlowGraph::num_insts`: how many instructions were made.
#[verifier::external_body]
pub(crate) fn func_num_insts(func: &Function) -> (n: usize)
    ensures
        n == body_of(*func).insts,
{
    func.dfg.num_insts()
}

/// `DataFlowGraph::make_block`: one more block, which has no place in the code
/// yet.
#[verifier::external_body]
pub(crate) fn func_make_block(func: &mut Function) -> (block: u32)
    requires
        body_of(*old(func)).blocks.len() < MAX_ENTITIES,
    ensures
        block == body_of(*old(func)).blocks.len(),
        body_of(*final(func)) == body_of(*old(func)).with_block(),
{
    func.dfg.make_block().as_u32()
}

/// `Layout::append_block`: the block gets its place behind the others.
#[verifier::external_body]
pub(crate) fn func_append_block(func: &mut Function, block: u32)
    requires
        block < body_of(*old(func)).blocks.len(),
        !body_of(*old(func)).layout.contains(block),
    ensures
        body_of(*final(func)) == body_of(*old(func)).with_layout(block),
{
    func.layout.append_block(Block::from_u32(block));
}

/// `DataFlowGraph::append_block_param`: the block gets one more parameter, which
/// is a new value.
#[verifier::external_body]
pub(crate) fn func_append_param(func: &mut Function, block: u32, ty: ClifType) -> (value: u32)
    requires
        block < body_of(*old(func)).blocks.len(),
        block < MAX_INSTS,
        body_of(*old(func)).blocks[block as int].params.len() < MAX_PARAMS,
        body_of(*old(func)).values < MAX_ENTITIES,
    ensures
        value == body_of(*old(func)).values,
        body_of(*final(func)) == body_of(*old(func)).with_param(block, ty),
{
    let ty = match ty {
        ClifType::I8 => I8,
        ClifType::I16 => I16,
        ClifType::I32 => I32,
        ClifType::I64 => I64,
        ClifType::I128 => I128,
        ClifType::F32 => F32,
    };
    func.dfg.append_block_param(Block::from_u32(block), ty).as_u32()
}

/// `InstBuilder::stack_addr`: the address of a slot.
#[verifier::external_body]
pub(crate) fn ins_stack_addr(
    func: &mut Function,
    block: u32,
    ty: ClifType,
    slot: u32,
    offset: i32,
) -> (res: u32)
    requires
        body_of(*old(func)).takes(block, 1),
        slot < body_of(*old(func)).slots.len(),
    ensures
        res == body_of(*old(func)).values,
        body_of(*final(func)) == body_of(*old(func)).with_ins(
            block,
            ClifIns::StackAddr { res, ty, slot, offset },
            1,
        ),
{
    let ty = match ty {
        ClifType::I8 => I8,
        ClifType::I16 => I16,
        ClifType::I32 => I32,
        ClifType::I64 => I64,
        ClifType::I128 => I128,
        ClifType::F32 => F32,
    };
    let mut cursor = FuncCursor::new(func).at_bottom(Block::from_u32(block));
    cursor.ins().stack_addr(ty, StackSlot::from_u32(slot), offset).as_u32()
}

/// `InstBuilder::stack_load`: the value that a slot holds.
#[verifier::external_body]
pub(crate) fn ins_stack_load(
    func: &mut Function,
    block: u32,
    ty: ClifType,
    slot: u32,
    offset: i32,
) -> (res: u32)
    requires
        body_of(*old(func)).takes(block, 1),
        slot < body_of(*old(func)).slots.len(),
    ensures
        res == body_of(*old(func)).values,
        body_of(*final(func)) == body_of(*old(func)).with_ins(
            block,
            ClifIns::StackLoad { res, ty, slot, offset },
            1,
        ),
{
    let ty = match ty {
        ClifType::I8 => I8,
        ClifType::I16 => I16,
        ClifType::I32 => I32,
        ClifType::I64 => I64,
        ClifType::I128 => I128,
        ClifType::F32 => F32,
    };
    let mut cursor = FuncCursor::new(func).at_bottom(Block::from_u32(block));
    cursor.ins().stack_load(ty, StackSlot::from_u32(slot), offset).as_u32()
}

/// `InstBuilder::stack_store`: puts a value into a slot.
#[verifier::external_body]
pub(crate) fn ins_stack_store(func: &mut Function, block: u32, value: u32, slot: u32, offset: i32)
    requires
        body_of(*old(func)).takes(block, 0),
        value < body_of(*old(func)).values,
        slot < body_of(*old(func)).slots.len(),
    ensures
        body_of(*final(func)) == body_of(*old(func)).with_ins(
            block,
            ClifIns::StackStore { value, slot, offset },
            0,
        ),
{
    let mut cursor = FuncCursor::new(func).at_bottom(Block::from_u32(block));
    cursor.ins().stack_store(Value::from_u32(value), StackSlot::from_u32(slot), offset);
}

/// `InstBuilder::load` without flags: the value at an address.
#[verifier::external_body]
pub(crate) fn ins_load(
    func: &mut Function,
    block: u32,
    ty: ClifType,
    addr: u32,
    offset: i32,
) -> (res: u32)
    requires
        body_of(*old(func)).takes(block, 1),
        addr < body_of(*old(func)).values,
    ensures
        res == body_of(*old(func)).values,
        body_of(*final(func)) == body_of(*old(func)).with_ins(
            block,
            ClifIns::Load { res, ty, addr, offset },
            1,
        ),
{
    let ty = match ty {
        ClifType::I8 => I8,
        ClifType::I16 => I16,
        ClifType::I32 => I32,
        ClifType::I64 => I64,
        ClifType::I128 => I128,
        ClifType::F32 => F32,
    };
    let mut cursor = FuncCursor::new(func).at_bottom(Block::from_u32(block));
    cursor.ins().load(ty, MemFlags::new(), Value::from_u32(addr), offset).as_u32()
}

/// `InstBuilder::store` without flags: puts a value at an address.
#[verifier::external_body]
pub(crate) fn ins_store(func: &mut Function, block: u32, value: u32, addr: u32, offset: i32)
    requires
        body_of(*old(func)).takes(block, 0),
        value < body_of(*old(func)).values,
        addr < body_of(*old(func)).values,
    ensures
        body_of(*final(func)) == body_of(*old(func)).with_ins(
            block,
            ClifIns::Store { value, addr, offset },
            0,
        ),
{
    let mut cursor = FuncCursor::new(func).at_bottom(Block::from_u32(block));
    let (x, p) = (Value::from_u32(value), Value::from_u32(addr));
    cursor.ins().store(MemFlags::new(), x, p, offset);
}

/// `InstBuilder::iconst`: an integer, of which the type keeps its low bits
/// (`InstructionData::mask_immediates`).
#[verifier::external_body]
pub(crate) fn ins_iconst(func: &mut Function, block: u32, ty: ClifType, imm: i64) -> (res: u32)
    requires
        body_of(*old(func)).takes(block, 1),
    ensures
        res == body_of(*old(func)).values,
        body_of(*final(func)) == body_of(*old(func)).with_ins(
            block,
            ClifIns::Iconst { res, ty, imm: low_bits(ty, imm) },
            1,
        ),
{
    let ty = match ty {
        ClifType::I8 => I8,
        ClifType::I16 => I16,
        ClifType::I32 => I32,
        ClifType::I64 => I64,
        ClifType::I128 => I128,
        ClifType::F32 => F32,
    };
    let mut cursor = FuncCursor::new(func).at_bottom(Block::from_u32(block));
    cursor.ins().iconst(ty, imm).as_u32()
}

/// `InstBuilder::f32const`: the number of those bits.
#[verifier::external_body]
pub(crate) fn ins_f32const(func: &mut Function, block: u32, bits: u32) -> (res: u32)
    requires
        body_of(*old(func)).takes(block, 1),
    ensures
        res == body_of(*old(func)).values,
        body_of(*final(func)) == body_of(*old(func)).with_ins(
            block,
            ClifIns::F32const { res, bits },
            1,
        ),
{
    let mut cursor = FuncCursor::new(func).at_bottom(Block::from_u32(block));
    cursor.ins().f32const(Ieee32::with_bits(bits)).as_u32()
}

/// `InstBuilder::iadd_imm`: a value and an integer, added.
#[verifier::external_body]
pub(crate) fn ins_iadd_imm(func: &mut Function, block: u32, x: u32, imm: i64) -> (res: u32)
    requires
        body_of(*old(func)).takes(block, 1),
        x < body_of(*old(func)).values,
    ensures
        res == body_of(*old(func)).values,
        body_of(*final(func)) == body_of(*old(func)).with_ins(
            block,
            ClifIns::IaddImm { res, x, imm },
            1,
        ),
{
    let mut cursor = FuncCursor::new(func).at_bottom(Block::from_u32(block));
    cursor.ins().iadd_imm(Value::from_u32(x), imm).as_u32()
}

/// `InstBuilder::icmp`: whether two integers compare so.
#[verifier::external_body]
pub(crate) fn ins_icmp(
    func: &mut Function,
    block: u32,
    cond: ClifCond,
    x: u32,
    y: u32,
) -> (res: u32)
    requires
        body_of(*old(func)).takes(block, 1),
        x < body_of(*old(func)).values,
        y < body_of(*old(func)).values,
    ensures
        res == body_of(*old(func)).values,
        body_of(*final(func)) == body_of(*old(func)).with_ins(
            block,
            ClifIns::Icmp { res, cond, x, y },
            1,
        ),
{
    let cond_code = match cond {
        ClifCond::Equal => IntCC::Equal,
        ClifCond::Less => IntCC::SignedLessThan,
        ClifCond::LessOrEqual => IntCC::SignedLessThanOrEqual,
    };
    let mut cursor = FuncCursor::new(func).at_bottom(Block::from_u32(block));
    cursor.ins().icmp(cond_code, Value::from_u32(x), Value::from_u32(y)).as_u32()
}

/// `InstBuilder::fcmp`: whether two numbers compare so.
#[verifier::external_body]
pub(crate) fn ins_fcmp(
    func: &mut Function,
    block: u32,
    cond: ClifCond,
    x: u32,
    y: u32,
) -> (res: u32)
    requires
        body_of(*old(func)).takes(block, 1),
        x < body_of(*old(func)).values,
        y < body_of(*old(func)).values,
    ensures
        res == body_of(*old(func)).values,
        body_of(*final(func)) == body_of(*old(func)).with_ins(
            block,
            ClifIns::Fcmp { res, cond, x, y },
            1,
        ),
{
    let cond_code = match cond {
        ClifCond::Equal => FloatCC::Equal,
        ClifCond::Less => FloatCC::LessThan,
        ClifCond::LessOrEqual => FloatCC::LessThanOrEqual,
    };
    let mut cursor = FuncCursor::new(func).at_bottom(Block::from_u32(block));
    cursor.ins().fcmp(cond_code, Value::from_u32(x), Value::from_u32(y)).as_u32()
}

/// `InstBuilder::iadd`: the sum of two integers.
#[verifier::external_body]
pub(crate) fn ins_iadd(func: &mut Function, block: u32, x: u32, y: u32) -> (res: u32)
    requires
        body_of(*old(func)).takes(block, 1),
        x < body_of(*old(func)).values,
        y < body_of(*old(func)).values,
    ensures
        res == body_of(*old(func)).values,
        body_of(*final(func)) == body_of(*old(func)).with_ins(
            block,
            ClifIns::Iadd { res, x, y },
            1,
        ),
{
    let mut cursor = FuncCursor::new(func).at_bottom(Block::from_u32(block));
    cursor.ins().iadd(Value::from_u32(x), Value::from_u32(y)).as_u32()
}

/// `InstBuilder::isub`: the difference of two integers.
#[verifier::external_body]
pub(crate) fn ins_isub(func: &mut Function, block: u32, x: u32, y: u32) -> (res: u32)
    requires
        body_of(*old(func)).takes(block, 1),
        x < body_of(*old(func)).values,
        y < body_of(*old(func)).values,
    ensures
        res == body_of(*old(func)).values,
        body_of(*final(func)) == body_of(*old(func)).with_ins(
            block,
            ClifIns::Isub { res, x, y },
            1,
        ),
{
    let mut cursor = FuncCursor::new(func).at_bottom(Block::from_u32(block));
    cursor.ins().isub(Value::from_u32(x), Value::from_u32(y)).as_u32()
}

/// `InstBuilder::imul`: the product of two integers.
#[verifier::external_body]
pub(crate) fn ins_imul(func: &mut Function, block: u32, x: u32, y: u32) -> (res: u32)
    requires
        body_of(*old(func)).takes(block, 1),
        x < body_of(*old(func)).values,
        y < body_of(*old(func)).values,
    ensures
        res == body_of(*old(func)).values,
        body_of(*final(func)) == body_of(*old(func)).with_ins(
            block,
            ClifIns::Imul { res, x, y },
            1,
        ),
{
    let mut cursor = FuncCursor::new(func).at_bottom(Block::from_u32(block));
    cursor.ins().imul(Value::from_u32(x), Value::from_u32(y)).as_u32()
}

/// `InstBuilder::sdiv`: the quotient of two signed integers.
#[verifier::external_body]
pub(crate) fn ins_sdiv(func: &mut Function, block: u32, x: u32, y: u32) -> (res: u32)
    requires
        body_of(*old(func)).takes(block, 1),
        x < body_of(*old(func)).values,
        y < body_of(*old(func)).values,
    ensures
        res == body_of(*old(func)).values,
        body_of(*final(func)) == body_of(*old(func)).with_ins(
            block,
            ClifIns::Sdiv { res, x, y },
            1,
        ),
{
    let mut cursor = FuncCursor::new(func).at_bottom(Block::from_u32(block));
    cursor.ins().sdiv(Value::from_u32(x), Value::from_u32(y)).as_u32()
}

/// `InstBuilder::fadd`: the sum of two numbers.
#[verifier::external_body]
pub(crate) fn ins_fadd(func: &mut Function, block: u32, x: u32, y: u32) -> (res: u32)
    requires
        body_of(*old(func)).takes(block, 1),
        x < body_of(*old(func)).values,
        y < body_of(*old(func)).values,
    ensures
        res == body_of(*old(func)).values,
        body_of(*final(func)) == body_of(*old(func)).with_ins(
            block,
            ClifIns::Fadd { res, x, y },
            1,
        ),
{
    let mut cursor = FuncCursor::new(func).at_bottom(Block::from_u32(block));
    cursor.ins().fadd(Value::from_u32(x), Value::from_u32(y)).as_u32()
}

/// `InstBuilder::fsub`: the difference of two numbers.
#[verifier::external_body]
pub(crate) fn ins_fsub(func: &mut Function, block: u32, x: u32, y: u32) -> (res: u32)
    requires
        body_of(*old(func)).takes(block, 1),
        x < body_of(*old(func)).values,
        y < body_of(*old(func)).values,
    ensures
        res == body_of(*old(func)).values,
        body_of(*final(func)) == body_of(*old(func)).with_ins(
            block,
            ClifIns::Fsub { res, x, y },
            1,
        ),
{
    let mut cursor = FuncCursor::new(func).at_bottom(Block::from_u32(block));
    cursor.ins().fsub(Value::from_u32(x), Value::from_u32(y)).as_u32()
}

/// `InstBuilder::fmul`: the product of two numbers.
#[verifier::external_body]
pub(crate) fn ins_fmul(func: &mut Function, block: u32, x: u32, y: u32) -> (res: u32)
    requires
        body_of(*old(func)).takes(block, 1),
        x < body_of(*old(func)).values,
        y < body_of(*old(func)).values,
    ensures
        res == body_of(*old(func)).values,
        body_of(*final(func)) == body_of(*old(func)).with_ins(
            block,
            ClifIns::Fmul { res, x, y },
            1,
        ),
{
    let mut cursor = FuncCursor::new(func).at_bottom(Block::from_u32(block));
    cursor.ins().fmul(Value::from_u32(x), Value::from_u32(y)).as_u32()
}

/// `InstBuilder::fdiv`: the quotient of two numbers.
#[verifier::external_body]
pub(crate) fn ins_fdiv(func: &mut Function, block: u32, x: u32, y: u32) -> (res: u32)
    requires
        body_of(*old(func)).takes(block, 1),
        x < body_of(*old(func)).values,
        y < body_of(*old(func)).values,
    ensures
        res == body_of(*old(func)).values,
        body_of(*final(func)) == body_of(*old(func)).with_ins(
            block,
            ClifIns::Fdiv { res, x, y },
            1,
        ),
{
    let mut cursor = FuncCursor::new(func).at_bottom(Block::from_u32(block));
    cursor.ins().fdiv(Value::from_u32(x), Value::from_u32(y)).as_u32()
}

/// `InstBuilder::get_frame_pointer`: where the frame of the running function is.
#[verifier::external_body]
pub(crate) fn ins_get_frame_pointer(func: &mut Function, block: u32, ty: ClifType) -> (res: u32)
    requires
        body_of(*old(func)).takes(block, 1),
    ensures
        res == body_of(*old(func)).values,
        body_of(*final(func)) == body_of(*old(func)).with_ins(
            block,
            ClifIns::FramePointer { res, ty },
            1,
        ),
{
    let ty = match ty {
        ClifType::I8 => I8,
        ClifType::I16 => I16,
        ClifType::I32 => I32,
        ClifType::I64 => I64,
        ClifType::I128 => I128,
        ClifType::F32 => F32,
    };
    let mut cursor = FuncCursor::new(func).at_bottom(Block::from_u32(block));
    cursor.ins().get_frame_pointer(ty).as_u32()
}

/// `InstBuilder::jump` without arguments: goes on with a block.
#[verifier::external_body]
pub(crate) fn ins_jump(func: &mut Function, block: u32, to: u32)
    requires
        body_of(*old(func)).takes(block, 0),
        to < body_of(*old(func)).blocks.len(),
    ensures
        body_of(*final(func)) == body_of(*old(func)).with_ins(
            block,
            ClifIns::Jump { to },
            0,
        ),
{
    let mut cursor = FuncCursor::new(func).at_bottom(Block::from_u32(block));
    cursor.ins().jump(Block::from_u32(to), &[]);
}

/// `InstBuilder::brif` without arguments: goes on with the one block where the
/// value is not zero, with the other where it is.
#[verifier::external_body]
pub(crate) fn ins_brif(func: &mut Function, block: u32, flag: u32, is_true: u32, is_false: u32)
    requires
        body_of(*old(func)).takes(block, 0),
        flag < body_of(*old(func)).values,
        is_true < body_of(*old(func)).blocks.len(),
        is_false < body_of(*old(func)).blocks.len(),
    ensures
        body_of(*final(func)) == body_of(*old(func)).with_ins(
            block,
            ClifIns::Brif { flag, is_true, is_false },
            0,
        ),
{
    let mut cursor = FuncCursor::new(func).at_bottom(Block::from_u32(block));
    let (yes, no) = (Block::from_u32(is_true), Block::from_u32(is_false));
    cursor.ins().brif(Value::from_u32(flag), yes, &[], no, &[]);
}

/// The numbers of `count` values, of which `first` is the first.
pub open spec fn value_run(first: nat, count: nat) -> Seq<u32> {
    Seq::new(count, |i: int| (first + i) as u32)
}

/// `InstBuilder::call`, and `DataFlowGraph::inst_results` of the instruction: a
/// call makes one value for each result in the signature of the function called.
#[verifier::external_body]
pub(crate) fn ins_call(func: &mut Function, block: u32, callee: u32, args: &Vec<u32>) -> (results:
    Vec<u32>)
    requires
        callee < body_of(*old(func)).refs.len(),
        body_of(*old(func)).refs[callee as int].sig.returns.len() <= MAX_PARAMS,
        body_of(*old(func)).takes(
            block,
            body_of(*old(func)).refs[callee as int].sig.returns.len(),
        ),
        forall|i: int| 0 <= i < args@.len() ==> args@[i] < body_of(*old(func)).values,
    ensures
        results@ == value_run(
            body_of(*old(func)).values,
            body_of(*old(func)).refs[callee as int].sig.returns.len(),
        ),
        body_of(*final(func)) == body_of(*old(func)).with_ins(
            block,
            ClifIns::Call { func: callee, args: args@, results: results@ },
            body_of(*old(func)).refs[callee as int].sig.returns.len(),
        ),
{
    let mut cursor = FuncCursor::new(func).at_bottom(Block::from_u32(block));
    let args: Vec<Value> = args.iter().map(|x| Value::from_u32(*x)).collect();
    let ins = cursor.ins().call(FuncRef::from_u32(callee), &args);
    cursor.func.dfg.inst_results(ins).iter().map(|x| x.as_u32()).collect()
}

/// `InstBuilder::return_`: leaves the function with those values.
#[verifier::external_body]
pub(crate) fn ins_return(func: &mut Function, block: u32, values: &Vec<u32>)
    requires
        body_of(*old(func)).takes(block, 0),
        forall|i: int| 0 <= i < values@.len() ==> values@[i] < body_of(*old(func)).values,
    ensures
        body_of(*final(func)) == body_of(*old(func)).with_ins(
            block,
            ClifIns::Return { values: values@ },
            0,
        ),
{
    let mut cursor = FuncCursor::new(func).at_bottom(Block::from_u32(block));
    let values: Vec<Value> = values.iter().map(|x| Value::from_u32(*x)).collect();
    cursor.ins().return_(&values);
}

} // verus!
