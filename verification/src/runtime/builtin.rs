//! The functions of the runtime that compiled programs call.

use super::{RtFuncId, RtTypeData, RtTypeId, Runtime};
use crate::clif::{
    sig_new, sig_of, sig_push_param, sig_push_return, ClifCallConv, ClifSig, ClifType,
};
use crate::slots::{ffi_key, key_at, key_from_ffi, key_pos, MAX_SLOTS};
use cranelift::codegen::ir::Signature;
use vstd::prelude::*;

verus! {

/// The data object that stands for the runtime.
pub const RT_PTR_SYM: &'static str = "builtin::runtime_ptr";

/// A function of the runtime: its name, and what it takes and gives.
pub struct BuiltinFn {
    pub name: &'static str,
    pub params: Vec<ClifType>,
    pub ret: Option<ClifType>,
}

/// The signature of a function that takes and gives those types.
pub open spec fn builtin_sig(params: Seq<ClifType>, ret: Option<ClifType>) -> ClifSig {
    ClifSig {
        conv: ClifCallConv::SystemV,
        params,
        returns: match ret {
            Some(ty) => seq![ty],
            None => Seq::empty(),
        },
    }
}

impl BuiltinFn {
    pub fn sig(&self) -> (sig: Signature)
        ensures
            sig_of(sig) == builtin_sig(self.params@, self.ret),
    {
        let mut sig = sig_new(ClifCallConv::SystemV);
        let mut i: usize = 0;
        while i < self.params.len()
            invariant
                i <= self.params.len(),
                sig_of(sig).conv == ClifCallConv::SystemV,
                sig_of(sig).params =~= self.params@.take(i as int),
                sig_of(sig).returns.len() == 0,
            decreases self.params.len() - i,
        {
            sig_push_param(&mut sig, self.params[i]);
            i = i + 1;
        }
        if let Some(ret) = self.ret {
            sig_push_return(&mut sig, ret);
        }
        sig
    }
}

/// Told when a function starts: takes the function and its frame pointer.
pub fn fn_push_stack_frame() -> (builtin: BuiltinFn)
    ensures
        builtin.name@ == "builtin::push_stack_frame"@,
        builtin.params@ == seq![ClifType::I64, ClifType::I64],
        builtin.ret is None,
{
    let mut params: Vec<ClifType> = Vec::new();
    params.push(ClifType::I64);
    params.push(ClifType::I64);
    BuiltinFn { name: "builtin::push_stack_frame", params, ret: None }
}

/// Told when a function returns.
pub fn fn_pop_stack_frame() -> (builtin: BuiltinFn)
    ensures
        builtin.name@ == "builtin::pop_stack_frame"@,
        builtin.params@ == Seq::<ClifType>::empty(),
        builtin.ret is None,
{
    BuiltinFn { name: "builtin::pop_stack_frame", params: Vec::new(), ret: None }
}

/// Allocates a value: takes its type and gives its address.
pub fn fn_alloc_gc() -> (builtin: BuiltinFn)
    ensures
        builtin.name@ == "builtin::alloc_gc"@,
        builtin.params@ == seq![ClifType::I64],
        builtin.ret == Some(ClifType::I64),
{
    let mut params: Vec<ClifType> = Vec::new();
    params.push(ClifType::I64);
    BuiltinFn { name: "builtin::alloc_gc", params, ret: Some(ClifType::I64) }
}

/// The function that a number in compiled code stands for.
pub open spec fn ffi_func(func_id: i64) -> RtFuncId {
    RtFuncId { key: ffi_key(func_id as u64) }
}

/// The type that a number in compiled code stands for.
pub open spec fn ffi_type(ty: i64) -> RtTypeId {
    RtTypeId { key: ffi_key(ty as u64) }
}

/// A function starts. Gives the slots of its frame that are to be set to null, or
/// `None` where the runtime does not know the function or its frame does not lie
/// in memory.
pub fn push_stack_frame(rt: &mut Runtime, func_id: i64, frame_ptr: i64) -> (slots: Option<
    Vec<usize>,
>)
    requires
        old(rt).wf(),
    ensures
        final(rt).wf(),
        slots is Some <==> old(rt)@.can_push(ffi_func(func_id), frame_ptr as usize),
        final(rt)@ == (if slots is Some {
            old(rt)@.pushed(ffi_func(func_id), frame_ptr as usize)
        } else {
            old(rt)@
        }),
        slots matches Some(slots) ==> slots@ == final(rt)@.stack.last(),
{
    let func = RtFuncId { key: key_from_ffi(func_id as u64) };
    rt.push_stack_frame(func, frame_ptr as usize)
}

/// A function returns.
pub fn pop_stack_frame(rt: &mut Runtime)
    requires
        old(rt).wf(),
    ensures
        final(rt).wf(),
        final(rt)@ == old(rt)@.popped(),
{
    rt.pop_stack_frame();
}

/// What is to be allocated for a value of that type. `None` where the runtime
/// does not know the type.
pub fn alloc_gc(rt: &Runtime, ty: i64) -> (data: Option<RtTypeData>)
    requires
        rt.wf(),
    ensures
        data is Some <==> 0 <= key_pos(ffi_type(ty).key) < rt@.types.len(),
        data matches Some(data) ==> data@ == rt@.types[key_pos(ffi_type(ty).key)],
{
    rt.type_data(RtTypeId { key: key_from_ffi(ty as u64) })
}

/// The number that compiled code passes for a key stands for that key.
pub proof fn law_ids_pass_through_code(n: int)
    requires
        0 <= n < MAX_SLOTS,
    ensures
        ffi_func(key_at(n) as i64).key == key_at(n),
        ffi_type(key_at(n) as i64).key == key_at(n),
{
    let key = key_at(n);
    assert(key < 0x2_0000_0000);
    assert(key as i64 == key);
    assert((key as i64) as u64 == key);
}

} // verus!
