//! What functions do when they run, and that their code does it.

use super::code::{
    arg_types, block_code, block_in_order, block_number, block_ready, blocks_code, call_code,
    entry_code, final_code, final_ready, fits, frame_of, func_code, func_ready, func_sig, inss_code,
    lemma_block_in_order, lemma_blocks_code, lemma_blocks_code_front, lemma_entry_code,
    lemma_final_code, lemma_inss_code, lemma_loads_code, lemma_params_code, lemma_told_code,
    loads_code, loads_ready, operand_code, params_code, place_code, ref_results, refs_known,
    slot_of, slot_place_code, ssa_type, store_args_code, told_code, value_code, CodeEnv,
};
use super::frames::{lemma_tells_block, lemma_tells_blocks};
use super::machine::{
    bytes_at, lemma_run_push, run_block, type_size, with_bytes, Machine, Memory, Outcome, Word,
    World,
};
use super::meaning::{
    extends, ins_typed, law_layouts_of_primitives, law_machine_type_size, lemma_inss_run,
    lemma_state_ins, read_whole, size_of, state, Scene,
};
use super::{
    BasicBlockId, FinalModel, FuncModel, InsModel, LocalId, OperandModel, PlaceModel, Projection,
    TypeId, TypesModel, ValueModel,
};
use crate::clif::{ClifBody, ClifIns, ClifRef, ClifType, MAX_ENTITIES, MAX_PARAMS};
use crate::slots::key_pos;
use vstd::prelude::*;

verus! {

/// How a block of a program ends: it goes on with a block, it returns values, or it
/// does not get to its end.
pub enum Ending {
    Goes { to: BasicBlockId, mem: Memory },
    Returns { values: Seq<int>, mem: Memory },
    Stops,
}

impl Scene {
    /// The bits that a local holds.
    pub open spec fn local_bits(self, mem: Memory, local: LocalId) -> int {
        bytes_at(
            mem,
            self.local_address(local),
            size_of(self.types(), self.env.func().local(local)),
        )
    }

    /// What the end of a block does.
    pub open spec fn ending(self, mem: Memory, end: FinalModel) -> Ending {
        match end {
            FinalModel::Br { next } => Ending::Goes { to: next, mem },
            FinalModel::BrIf { cond, is_true, is_false } => if self.local_bits(mem, cond) != 0 {
                Ending::Goes { to: is_true, mem }
            } else {
                Ending::Goes { to: is_false, mem }
            },
            FinalModel::Call { func, args, store_ret, next } => {
                let passed = args.map_values(|local: LocalId| self.local_bits(mem, local));
                match (self.world.call)(self.funcs[key_pos(func.key)], passed, mem) {
                    None => Ending::Stops,
                    Some((results, after)) => Ending::Goes {
                        to: next,
                        mem: match store_ret {
                            Some(local) => with_bytes(
                                after,
                                self.local_address(local),
                                size_of(
                                    self.types(),
                                    self.env.program.func(func).return_type->0,
                                ),
                                results[0],
                            ),
                            None => after,
                        },
                    },
                }
            },
            FinalModel::Return { value } => match (self.world.call)(
                self.pop,
                Seq::empty(),
                mem,
            ) {
                None => Ending::Stops,
                Some((_, after)) => Ending::Returns {
                    values: match value {
                        Some(local) => seq![
                            bytes_at(
                                after,
                                self.local_address(local),
                                size_of(self.types(), self.env.func().return_type->0),
                            ),
                        ],
                        None => Seq::empty(),
                    },
                    mem: after,
                },
            },
        }
    }

    /// Memory after the first `n` arguments were written to their locals.
    pub open spec fn with_args(self, mem: Memory, args: Seq<int>, n: nat) -> Memory
        decreases n,
    {
        if n == 0 {
            mem
        } else {
            let local = self.env.func().args[n - 1];
            with_bytes(
                self.with_args(mem, args, (n - 1) as nat),
                self.local_address(local),
                size_of(self.types(), self.env.func().local(local)),
                args[n - 1],
            )
        }
    }

    /// Memory when the function has begun: the runtime was told of the frame, and then
    /// the arguments went to their locals.
    pub open spec fn begun(self, mem: Memory, args: Seq<int>) -> Option<Memory> {
        let number = self.env.rt_funcs[self.env.id.key] as int;
        match (self.world.call)(self.push, seq![number, self.frame], mem) {
            None => None,
            Some((_, after)) => Some(self.with_args(after, args, self.env.func().args.len())),
        }
    }

    /// What the block made after `n` others does. The one to start with begins the
    /// function.
    pub open spec fn block_ending(self, mem: Memory, args: Seq<int>, n: int) -> Ending {
        let block = self.env.func().blocks[n];
        let before = if n == key_pos(self.env.func().entrypoint.key) {
            self.begun(mem, args)
        } else {
            Some(mem)
        };
        match before {
            None => Ending::Stops,
            Some(mem) => match self.after_inss(mem, block.instructions) {
                None => Ending::Stops,
                Some(after) => self.ending(after, block.ins_final),
            },
        }
    }

    /// Whether the functions that code can call have the signatures of the functions of
    /// the program.
    pub open spec fn sigs_linked(self, refs: Seq<ClifRef>) -> bool {
        forall|i: int|
            #![trigger refs[i]]
            0 <= i < self.env.program.functions.len() ==> refs[i].sig == func_sig(
                self.types(),
                self.env.program.functions[i],
            )
    }

    /// Whether what is passed to a function and comes from it is read as a whole.
    pub open spec fn end_typed(self, end: FinalModel) -> bool {
        match end {
            FinalModel::Call { func, args, store_ret, .. } => {
                &&& forall|i: int|
                    0 <= i < args.len() ==> read_whole(
                        self.types(),
                        self.env.func().local(#[trigger] args[i]),
                    )
                &&& store_ret is Some ==> read_whole(
                    self.types(),
                    self.env.program.func(func).return_type->0,
                ) && ssa_type(self.types(), self.env.program.func(func).return_type->0) is Some
            },
            FinalModel::Return { value } => value is Some ==> read_whole(
                self.types(),
                self.env.func().return_type->0,
            ),
            _ => true,
        }
    }

    /// Whether operations are on values of the kinds that they are for, and values are
    /// read as a whole.
    pub open spec fn block_typed(self, n: int) -> bool {
        let block = self.env.func().blocks[n];
        &&& forall|i: int|
            0 <= i < block.instructions.len() ==> ins_typed(
                self.types(),
                #[trigger] block.instructions[i],
            )
        &&& self.end_typed(block.ins_final)
    }

    /// Whether the function can be run: there is code for it, which calls what it should.
    pub open spec fn can_run(self, refs: Seq<ClifRef>) -> bool {
        &&& self.wf()
        &&& self.linked(refs)
        &&& self.sigs_linked(refs)
        &&& func_ready(self.env, refs)
        &&& forall|n: int|
            0 <= n < self.env.func().blocks.len() ==> #[trigger] self.block_typed(n)
    }

    /// Whether the machine has the arguments as the first values.
    pub open spec fn args_given(self, m: Machine, args: Seq<int>) -> bool {
        let func = self.env.func();
        &&& args.len() == func.args.len()
        &&& forall|i: int|
            0 <= i < args.len() ==> (#[trigger] m.values[i as u32]) == (Word {
                ty: arg_types(self.types(), func)[i],
                bits: args[i],
            })
        &&& forall|i: int|
            0 <= i < args.len() ==> read_whole(self.types(), func.local(#[trigger] func.args[i]))
    }
}

/// Whether the code of a function ended a block as the function does.
pub open spec fn same_end(func: FuncModel, end: Ending, outcome: Outcome) -> bool {
    match end {
        Ending::Goes { to, mem } => outcome == (Outcome::Goes {
            to: block_number(func, key_pos(to.key)),
            mem,
        }),
        Ending::Returns { values, mem } => outcome matches Outcome::Returns {
            values: found,
            mem: after,
        } && found == values && after == mem,
        Ending::Stops => outcome is Stops,
    }
}

/// The code that loads locals ends with what they hold.
proof fn lemma_loads_run(
    scene: Scene,
    refs: Seq<ClifRef>,
    m: Option<Machine>,
    body: ClifBody,
    block: u32,
    locals: Seq<LocalId>,
)
    requires
        scene.wf(),
        block < body.blocks.len(),
        loads_ready(scene.types(), scene.env.func(), locals),
        forall|i: int|
            0 <= i < locals.len() ==> read_whole(
                scene.types(),
                scene.env.func().local(#[trigger] locals[i]),
            ),
        fits(loads_code(scene.types(), scene.env.func(), body, block, locals).0),
        body.values <= MAX_PARAMS + body.insts,
    ensures
        ({
            let (to, values) = loads_code(scene.types(), scene.env.func(), body, block, locals);
            match state(scene.world, refs, m, body, block) {
                None => state(scene.world, refs, m, to, block) is None,
                Some(before) => scene.fits_machine(before) ==> {
                    &&& state(scene.world, refs, m, to, block) matches Some(after) && {
                        &&& extends(before, after, body.values)
                        &&& values.len() == locals.len()
                        &&& forall|i: int|
                            0 <= i < values.len() ==> after.bits(#[trigger] values[i])
                                == scene.local_bits(before.mem, locals[i])
                    }
                },
            }
        }),
    decreases locals.len(),
{
    if locals.len() > 0 {
        let types = scene.types();
        let func = scene.env.func();
        let front = locals.drop_last();
        let (before, values) = loads_code(types, func, body, block, front);
        lemma_loads_code(types, func, body, block, front, front.len() as int);
        assert(front.take(front.len() as int) =~= front);
        let local = locals.last();
        assert(locals[locals.len() - 1] == local);
        assert(loads_ready(types, func, front)) by {
            assert forall|i: int| 0 <= i < front.len() implies func.has_local(#[trigger] front[i])
                && ssa_type(types, func.local(front[i])) is Some by {
                assert(front[i] == locals[i]);
            }
        }
        assert forall|i: int| 0 <= i < front.len() implies read_whole(
            types,
            func.local(#[trigger] front[i]),
        ) by {
            assert(front[i] == locals[i]);
        }
        lemma_loads_run(scene, refs, m, body, block, front);
        law_machine_type_size(types, func.local(local));
        let ins = ClifIns::StackLoad {
            res: before.next(),
            ty: ssa_type(types, func.local(local))->0,
            slot: slot_of(local),
            offset: 0,
        };
        lemma_state_ins(scene.world, refs, m, before, block, ins, 1);
    }
}

/// The code at the end of a block does what the end of the block does.
proof fn lemma_end_runs(
    scene: Scene,
    refs: Seq<ClifRef>,
    m: Option<Machine>,
    body: ClifBody,
    block: u32,
    end: FinalModel,
)
    requires
        scene.wf(),
        scene.linked(refs),
        scene.sigs_linked(refs),
        body.refs == refs,
        body.sig == func_sig(scene.types(), scene.env.func()),
        block < body.blocks.len(),
        final_ready(scene.env, end),
        scene.end_typed(end),
        scene.env.func().return_type matches Some(ty) ==> ssa_type(scene.types(), ty) is Some,
        fits(final_code(scene.env, body, block, end)),
        body.values <= MAX_PARAMS + body.insts,
    ensures
        ({
            let code = final_code(scene.env, body, block, end).blocks[block as int].code;
            let outcome = run_block(scene.world, refs, m, code);
            match state(scene.world, refs, m, body, block) {
                None => outcome is Stops,
                Some(before) => scene.fits_machine(before) ==> same_end(
                    scene.env.func(),
                    scene.ending(before.mem, end),
                    outcome,
                ),
            }
        }),
{
    let env = scene.env;
    let types = scene.types();
    let func = env.func();
    let w = scene.world;
    match end {
        FinalModel::Br { next } => {
            let ins = ClifIns::Jump { to: block_number(func, key_pos(next.key)) };
            lemma_run_push(w, refs, m, body.blocks[block as int].code, ins);
        },
        FinalModel::BrIf { cond, is_true, is_false } => {
            law_layouts_of_primitives(types, func.local(cond));
            let res = body.next();
            let load = ClifIns::StackLoad { res, ty: ClifType::I8, slot: slot_of(cond), offset: 0 };
            let loaded = body.with_ins(block, load, 1);
            lemma_state_ins(w, refs, m, body, block, load, 1);
            let ins = ClifIns::Brif {
                flag: res,
                is_true: block_number(func, key_pos(is_true.key)),
                is_false: block_number(func, key_pos(is_false.key)),
            };
            lemma_run_push(w, refs, m, loaded.blocks[block as int].code, ins);
        },
        FinalModel::Call { func: callee, args, store_ret, next } => {
            let at = key_pos(callee.key);
            let number = at as u32;
            let (loaded, values) = loads_code(types, func, body, block, args);
            lemma_loads_code(types, func, body, block, args, args.len() as int);
            assert(args.take(args.len() as int) =~= args);
            let (called, results) = call_code(loaded, block, number, values);
            assert(refs[at].sig == func_sig(types, env.program.functions[at]));
            assert(refs[at].func == scene.funcs[at]);
            lemma_loads_run(scene, refs, m, body, block, args);
            let call = ClifIns::Call { func: number, args: values, results };
            lemma_state_ins(w, refs, m, loaded, block, call, ref_results(loaded, number));
            let stored = match store_ret {
                Some(local) => {
                    let ty = env.program.functions[at].return_type->0;
                    law_machine_type_size(types, ty);
                    let store = ClifIns::StackStore {
                        value: results[0],
                        slot: slot_of(local),
                        offset: 0,
                    };
                    lemma_state_ins(w, refs, m, called, block, store, 0);
                    called.with_ins(block, store, 0)
                },
                None => called,
            };
            let ins = ClifIns::Jump { to: block_number(func, key_pos(next.key)) };
            lemma_run_push(w, refs, m, stored.blocks[block as int].code, ins);
            if let Some(before) = state(w, refs, m, body, block) {
                if scene.fits_machine(before) {
                    let told = state(w, refs, m, loaded, block)->0;
                    let passed = args.map_values(
                        |local: LocalId| scene.local_bits(before.mem, local),
                    );
                    assert(values.map_values(|x: u32| told.bits(x)) =~= passed);
                    reveal_with_fuel(Machine::with_results, 2);
                    if results.len() > 0 {
                        assert(results =~= seq![loaded.next()]);
                        assert(results.drop_last() =~= Seq::empty());
                    }
                }
            }
        },
        FinalModel::Return { value } => {
            let pop = env.pop_ref();
            let (popped, results) = call_code(body, block, pop, Seq::empty());
            let call = ClifIns::Call { func: pop, args: Seq::empty(), results };
            lemma_state_ins(w, refs, m, body, block, call, ref_results(body, pop));
            assert(results =~= Seq::empty());
            if let Some(before) = state(w, refs, m, body, block) {
                assert(Seq::<u32>::empty().map_values(|x: u32| before.bits(x)) =~= Seq::empty());
            }
            match value {
                Some(local) => {
                    law_machine_type_size(types, func.return_type->0);
                    let res = popped.next();
                    let load = ClifIns::StackLoad {
                        res,
                        ty: body.sig.returns[0],
                        slot: slot_of(local),
                        offset: 0,
                    };
                    let loaded = popped.with_ins(block, load, 1);
                    lemma_state_ins(w, refs, m, popped, block, load, 1);
                    let ins = ClifIns::Return { values: seq![res] };
                    lemma_run_push(w, refs, m, loaded.blocks[block as int].code, ins);
                    if let Some(last) = state(w, refs, m, loaded, block) {
                        assert(seq![res].map_values(|x: u32| last.bits(x)) =~= seq![last.bits(res)]);
                    }
                },
                None => {
                    let ins = ClifIns::Return { values: Seq::empty() };
                    lemma_run_push(w, refs, m, popped.blocks[block as int].code, ins);
                    if let Some(last) = state(w, refs, m, popped, block) {
                        assert(Seq::<u32>::empty().map_values(|x: u32| last.bits(x))
                            =~= Seq::empty());
                    }
                },
            }
        },
    }
}

/// The code that stores the arguments writes them to their locals.
proof fn lemma_store_args_run(
    scene: Scene,
    refs: Seq<ClifRef>,
    m: Option<Machine>,
    body: ClifBody,
    args: Seq<int>,
    n: nat,
)
    requires
        scene.wf(),
        0 < body.blocks.len(),
        n <= args.len(),
        args.len() == scene.env.func().args.len() <= MAX_PARAMS,
        body.blocks[0].params == Seq::new(args.len(), |i: int| i as u32),
        forall|i: int|
            0 <= i < args.len() ==> {
                let local = #[trigger] scene.env.func().args[i];
                &&& scene.env.func().has_local(local)
                &&& ssa_type(scene.types(), scene.env.func().local(local)) is Some
            },
    ensures
        ({
            let to = store_args_code(scene.env.func(), body, n);
            &&& to.blocks.len() == body.blocks.len()
            &&& match state(scene.world, refs, m, body, 0) {
                None => state(scene.world, refs, m, to, 0) is None,
                Some(before) => scene.fits_machine(before) && scene.args_given(before, args) ==> {
                    &&& state(scene.world, refs, m, to, 0) matches Some(after) && {
                        &&& scene.fits_machine(after)
                        &&& after.values == before.values
                        &&& after.mem == scene.with_args(before.mem, args, n)
                    }
                },
            }
        }),
    decreases n,
{
    if n > 0 {
        let func = scene.env.func();
        lemma_store_args_run(scene, refs, m, body, args, (n - 1) as nat);
        let before = store_args_code(func, body, (n - 1) as nat);
        let local = func.args[n - 1];
        lemma_machine_type_size(scene, local);
        let ins = ClifIns::StackStore {
            value: body.blocks[0].params[n - 1],
            slot: slot_of(local),
            offset: 0,
        };
        lemma_state_ins(scene.world, refs, m, before, 0, ins, 0);
        if let Some(begun) = state(scene.world, refs, m, body, 0) {
            if scene.args_given(begun, args) {
                assert(begun.values[(n - 1) as u32].bits == args[n - 1]);
            }
        }
    }
}

proof fn lemma_machine_type_size(scene: Scene, local: LocalId)
    ensures
        ({
            let ty = scene.env.func().local(local);
            read_whole(scene.types(), ty) && ssa_type(scene.types(), ty) is Some ==> type_size(
                ssa_type(scene.types(), ty)->0,
            ) == size_of(scene.types(), ty)
        }),
{
    let ty = scene.env.func().local(local);
    if read_whole(scene.types(), ty) {
        law_machine_type_size(scene.types(), ty);
    }
}

/// The code that a function begins with tells the runtime of the frame, and writes the
/// arguments to their locals.
proof fn lemma_entry_runs(
    scene: Scene,
    refs: Seq<ClifRef>,
    m: Machine,
    body: ClifBody,
    args: Seq<int>,
)
    requires
        scene.wf(),
        scene.linked(refs),
        body.refs == refs,
        0 < body.blocks.len(),
        body.blocks[0].code.len() == 0,
        body.blocks[0].params.len() == 0,
        body.values == 0,
        scene.env.func().args.len() <= MAX_PARAMS,
        scene.env.rt_funcs.contains_key(scene.env.id.key),
        loads_ready(scene.types(), scene.env.func(), scene.env.func().args),
        scene.fits_machine(m),
        scene.args_given(m, args),
    ensures
        match scene.begun(m.mem, args) {
            None => state(scene.world, refs, Some(m), entry_code(scene.env, body), 0) is None,
            Some(mem) => state(
                scene.world,
                refs,
                Some(m),
                entry_code(scene.env, body),
                0,
            ) matches Some(after) && scene.fits_machine(after) && after.mem == mem,
        },
{
    let env = scene.env;
    let func = env.func();
    let w = scene.world;
    let n = func.args.len();
    let tys = arg_types(env.types(), func);
    let taken = params_code(body, tys, n);
    lemma_params_code(body, tys, n);
    lemma_params_run(body, tys, n);
    assert(taken.blocks[0].code =~= Seq::empty());
    assert(state(w, refs, Some(m), taken, 0) == Some(m));
    let id = taken.next();
    let number = env.rt_funcs[env.id.key];
    let name = ClifIns::Iconst { res: id, ty: ClifType::I64, imm: number as i64 };
    let named = taken.with_ins(0, name, 1);
    lemma_state_ins(w, refs, Some(m), taken, 0, name, 1);
    let fp = named.next();
    let frame = ClifIns::FramePointer { res: fp, ty: ClifType::I64 };
    let framed = named.with_ins(0, frame, 1);
    lemma_state_ins(w, refs, Some(m), named, 0, frame, 1);
    let push = env.push_ref();
    let (told, results) = call_code(framed, 0, push, seq![id, fp]);
    let call = ClifIns::Call { func: push, args: seq![id, fp], results };
    lemma_state_ins(w, refs, Some(m), framed, 0, call, ref_results(framed, push));
    assert(results =~= Seq::empty());
    let ready = state(w, refs, Some(m), framed, 0)->0;
    assert(ready.bits(id) == number);
    assert(ready.bits(fp) == scene.frame);
    assert(seq![id, fp].map_values(|x: u32| ready.bits(x)) =~= seq![number as int, scene.frame]);
    lemma_told_code(env, taken);
    assert(told == told_code(env, taken));
    assert(refs[env.program.functions.len() as int + 1].func == scene.push);
    lemma_store_args_run(scene, refs, Some(m), told, args, n);
    if let Some(after) = state(w, refs, Some(m), told, 0) {
        assert(scene.args_given(after, args)) by {
            assert forall|i: int| 0 <= i < args.len() implies (#[trigger] after.values[i as u32])
                == (Word { ty: tys[i], bits: args[i] }) by {
                assert(m.values[i as u32] == (Word { ty: tys[i], bits: args[i] }));
            }
        }
    }
}

/// Parameters are no instructions.
proof fn lemma_params_run(body: ClifBody, tys: Seq<ClifType>, n: nat)
    requires
        0 < body.blocks.len(),
    ensures
        params_code(body, tys, n).blocks.len() == body.blocks.len(),
        params_code(body, tys, n).blocks[0].code == body.blocks[0].code,
    decreases n,
{
    if n > 0 {
        lemma_params_run(body, tys, (n - 1) as nat);
    }
}

/// The code of a block does what the block does.
proof fn lemma_block_runs(
    scene: Scene,
    refs: Seq<ClifRef>,
    m: Machine,
    body: ClifBody,
    args: Seq<int>,
    n: int,
)
    requires
        scene.wf(),
        scene.linked(refs),
        scene.sigs_linked(refs),
        body.refs == refs,
        body.sig == func_sig(scene.types(), scene.env.func()),
        0 <= n < scene.env.func().blocks.len(),
        block_number(scene.env.func(), n) < body.blocks.len(),
        body.blocks[block_number(scene.env.func(), n) as int].code.len() == 0,
        block_ready(scene.env, n),
        scene.block_typed(n),
        loads_ready(scene.types(), scene.env.func(), scene.env.func().args),
        scene.env.func().return_type matches Some(ty) ==> ssa_type(scene.types(), ty) is Some,
        fits(block_code(scene.env, body, n)),
        body.values <= MAX_PARAMS + body.insts,
        n == key_pos(scene.env.func().entrypoint.key) ==> body.values == 0
            && body.blocks[0].params.len() == 0,
        scene.fits_machine(m),
        scene.args_given(m, args),
    ensures
        same_end(
            scene.env.func(),
            scene.block_ending(m.mem, args, n),
            run_block(
                scene.world,
                refs,
                Some(m),
                block_code(scene.env, body, n).blocks[block_number(
                    scene.env.func(),
                    n,
                ) as int].code,
            ),
        ),
{
    reveal(block_code);
    reveal(block_ready);
    let env = scene.env;
    let func = env.func();
    let block = block_number(func, n);
    let entry = n == key_pos(func.entrypoint.key);
    let placed = body.with_layout(block);
    let begun = if entry {
        lemma_entry_code(env, placed);
        lemma_entry_runs(scene, refs, m, placed, args);
        entry_code(env, placed)
    } else {
        placed
    };
    assert(placed.blocks[block as int].code =~= Seq::empty());
    assert(state(scene.world, refs, Some(m), placed, block) == Some(m));
    let inss = func.blocks[n].instructions;
    let end = func.blocks[n].ins_final;
    let done = inss_code(env, begun, block, inss);
    lemma_inss_code(env, begun, block, inss, inss.len() as int);
    assert(inss.take(inss.len() as int) =~= inss);
    lemma_final_code(env, done, block, end);
    lemma_inss_run(scene, refs, Some(m), begun, block, inss);
    lemma_end_runs(scene, refs, Some(m), done, block, end);
}

/// Whether the first `m` blocks of the code, in their order, do what the blocks of the
/// function do, and the others have no code.
spec fn right_so_far(
    scene: Scene,
    refs: Seq<ClifRef>,
    m: Machine,
    args: Seq<int>,
    body: ClifBody,
    count: int,
) -> bool {
    let func = scene.env.func();
    &&& forall|j: int|
        #![trigger block_in_order(func, j)]
        0 <= j < count ==> {
            let n = block_in_order(func, j);
            same_end(
                func,
                scene.block_ending(m.mem, args, n),
                run_block(
                    scene.world,
                    refs,
                    Some(m),
                    body.blocks[block_number(func, n) as int].code,
                ),
            )
        }
    &&& forall|j: int|
        #![trigger block_in_order(func, j)]
        count <= j < func.blocks.len() ==> body.blocks[block_number(
            func,
            block_in_order(func, j),
        ) as int].code.len() == 0
}

proof fn lemma_blocks_run(
    scene: Scene,
    refs: Seq<ClifRef>,
    m: Machine,
    args: Seq<int>,
    count: nat,
)
    requires
        scene.can_run(refs),
        scene.fits_machine(m),
        scene.args_given(m, args),
        count <= scene.env.func().blocks.len(),
    ensures
        right_so_far(
            scene,
            refs,
            m,
            args,
            blocks_code(scene.env, frame_of(scene.env, refs), count),
            count as int,
        ),
    decreases count,
{
    let env = scene.env;
    let frame = frame_of(env, refs);
    let func = env.func();
    if count == 0 {
        assert forall|j: int|
            #![trigger block_in_order(func, j)]
            0 <= j < func.blocks.len() implies frame.blocks[block_number(
            func,
            block_in_order(func, j),
        ) as int].code.len() == 0 by {
            lemma_block_in_order(func, j);
        }
    } else {
        let before = blocks_code(env, frame, (count - 1) as nat);
        let after = blocks_code(env, frame, count);
        let at = block_in_order(func, count - 1);
        lemma_blocks_run(scene, refs, m, args, (count - 1) as nat);
        lemma_blocks_code(env, frame, (count - 1) as nat);
        lemma_blocks_code(env, frame, count);
        lemma_blocks_code_front(env, frame, count, func.blocks.len());
        lemma_block_in_order(func, count - 1);
        assert(block_ready(env, at));
        assert(scene.block_typed(at));
        lemma_block_runs(scene, refs, m, before, args, at);
        lemma_tells_block(env, before, at);
        assert forall|j: int|
            #![trigger block_in_order(func, j)]
            0 <= j < func.blocks.len() && j != count - 1 implies after.blocks[block_number(
            func,
            block_in_order(func, j),
        ) as int] == before.blocks[block_number(func, block_in_order(func, j)) as int] by {
            lemma_block_in_order(func, j);
        }
    }
}

/// The code of each block of a function does what the block does: from the same memory
/// it goes on with the same block, or returns the same values, and leaves the same
/// memory. It stops where the block does not get to its end.
pub proof fn law_block_code_does_what_the_block_does(
    scene: Scene,
    refs: Seq<ClifRef>,
    m: Machine,
    args: Seq<int>,
    n: int,
)
    requires
        scene.can_run(refs),
        scene.fits_machine(m),
        scene.args_given(m, args),
        0 <= n < scene.env.func().blocks.len(),
    ensures
        ({
            let func = scene.env.func();
            let body = func_code(scene.env, refs);
            same_end(
                func,
                scene.block_ending(m.mem, args, n),
                run_block(
                    scene.world,
                    refs,
                    Some(m),
                    body.blocks[block_number(func, n) as int].code,
                ),
            )
        }),
{
    let func = scene.env.func();
    lemma_blocks_run(scene, refs, m, args, func.blocks.len());
    let j = if func.has_block(func.entrypoint) && n < key_pos(func.entrypoint.key) {
        n + 1
    } else if n == key_pos(func.entrypoint.key) {
        0
    } else {
        n
    };
    assert(block_in_order(func, j) == n);
}

/// Each block of a function has a block of the code of its own. The function starts
/// where the code starts.
pub proof fn law_blocks_have_their_own_code(func: FuncModel, a: int, b: int)
    requires
        func.blocks.len() < MAX_ENTITIES,
        0 <= a < func.blocks.len(),
        0 <= b < func.blocks.len(),
    ensures
        block_number(func, a) == block_number(func, b) ==> a == b,
        block_number(func, a) == 0 <==> a == key_pos(func.entrypoint.key),
{
}

/// What `steps` blocks of the code do, from the block `b` on.
pub open spec fn code_after(world: World, body: ClifBody, m: Machine, b: u32, steps: nat) -> Outcome
    decreases steps,
{
    if steps == 0 {
        Outcome::Goes { to: b, mem: m.mem }
    } else {
        match run_block(world, body.refs, Some(m), body.blocks[b as int].code) {
            Outcome::Goes { to, mem } => code_after(
                world,
                body,
                Machine { mem, ..m },
                to,
                (steps - 1) as nat,
            ),
            outcome => outcome,
        }
    }
}

/// What `steps` blocks of the function do, from the block `id` on.
pub open spec fn func_after(
    scene: Scene,
    mem: Memory,
    args: Seq<int>,
    id: BasicBlockId,
    steps: nat,
) -> Ending
    decreases steps,
{
    if steps == 0 {
        Ending::Goes { to: id, mem }
    } else {
        match scene.block_ending(mem, args, key_pos(id.key)) {
            Ending::Goes { to, mem } => func_after(scene, mem, args, to, (steps - 1) as nat),
            ending => ending,
        }
    }
}

/// The code of a function, run from its start, does what the function does, however
/// many blocks it runs through.
pub proof fn law_code_does_what_the_function_does(
    scene: Scene,
    refs: Seq<ClifRef>,
    m: Machine,
    args: Seq<int>,
    steps: nat,
)
    requires
        scene.can_run(refs),
        scene.fits_machine(m),
        scene.args_given(m, args),
        scene.env.func().has_block(scene.env.func().entrypoint),
    ensures
        same_end(
            scene.env.func(),
            func_after(scene, m.mem, args, scene.env.func().entrypoint, steps),
            code_after(scene.world, func_code(scene.env, refs), m, 0, steps),
        ),
{
    lemma_code_after(scene, refs, m, args, scene.env.func().entrypoint, steps);
}

proof fn lemma_code_after(
    scene: Scene,
    refs: Seq<ClifRef>,
    m: Machine,
    args: Seq<int>,
    id: BasicBlockId,
    steps: nat,
)
    requires
        scene.can_run(refs),
        scene.fits_machine(m),
        scene.args_given(m, args),
        scene.env.func().has_block(id),
    ensures
        same_end(
            scene.env.func(),
            func_after(scene, m.mem, args, id, steps),
            code_after(
                scene.world,
                func_code(scene.env, refs),
                m,
                block_number(scene.env.func(), key_pos(id.key)),
                steps,
            ),
        ),
    decreases steps,
{
    if steps > 0 {
        let n = key_pos(id.key);
        lemma_blocks_code(scene.env, frame_of(scene.env, refs), scene.env.func().blocks.len());
        law_block_code_does_what_the_block_does(scene, refs, m, args, n);
        if let Ending::Goes { to, mem } = scene.block_ending(m.mem, args, n) {
            assert(block_ready(scene.env, n));
            assert(scene.env.func().has_block(to)) by {
                reveal(block_ready);
            }
            let later = Machine { mem, ..m };
            assert(scene.args_given(later, args));
            lemma_code_after(scene, refs, later, args, to, (steps - 1) as nat);
        }
    }
}

/// Whether the parameters of all blocks are the same.
spec fn same_params(from: ClifBody, to: ClifBody) -> bool {
    &&& to.blocks.len() == from.blocks.len()
    &&& forall|b: int|
        #![trigger to.blocks[b]]
        0 <= b < from.blocks.len() ==> to.blocks[b].params == from.blocks[b].params
            && to.blocks[b].types == from.blocks[b].types
}

proof fn lemma_place_params(
    types: TypesModel,
    body: ClifBody,
    block: u32,
    ty: TypeId,
    projs: Seq<Projection>,
    root: u32,
)
    requires
        block < body.blocks.len(),
    ensures
        same_params(body, place_code(types, body, block, ty, projs, root).0),
    decreases projs.len(),
{
    if projs.len() > 0 {
        lemma_place_params(types, body, block, ty, projs.drop_last(), root);
    }
}

proof fn lemma_slot_place_params(types: TypesModel, body: ClifBody, block: u32, place: PlaceModel)
    requires
        block < body.blocks.len(),
    ensures
        same_params(body, slot_place_code(types, body, block, place).0),
{
    let root = body.next();
    let ins = ClifIns::StackAddr {
        res: root,
        ty: ClifType::I64,
        slot: slot_of(place.local),
        offset: 0,
    };
    lemma_place_params(
        types,
        body.with_ins(block, ins, 1),
        block,
        place.local_ty,
        place.projs,
        root,
    );
}

proof fn lemma_operand_params(
    types: TypesModel,
    body: ClifBody,
    block: u32,
    operand: OperandModel,
)
    requires
        block < body.blocks.len(),
    ensures
        same_params(body, operand_code(types, body, block, operand).0),
{
    if let OperandModel::Place(place) = operand {
        lemma_slot_place_params(types, body, block, place);
    }
}

proof fn lemma_value_params(
    types: TypesModel,
    body: ClifBody,
    block: u32,
    place: PlaceModel,
    value: ValueModel,
)
    requires
        block < body.blocks.len(),
    ensures
        same_params(body, value_code(types, body, block, place, value).0),
{
    match value {
        ValueModel::Read(operand) => lemma_operand_params(types, body, block, operand),
        ValueModel::Ref(operand) => {
            if let OperandModel::Place(to) = operand {
                lemma_slot_place_params(types, body, block, to);
            }
        },
        ValueModel::BinOp(op, lhs, rhs) => {
            lemma_operand_params(types, body, block, lhs);
            let left = operand_code(types, body, block, lhs).0;
            lemma_operand_params(types, left, block, rhs);
        },
    }
}

proof fn lemma_inss_params(env: CodeEnv, body: ClifBody, block: u32, inss: Seq<InsModel>)
    requires
        block < body.blocks.len(),
    ensures
        same_params(body, inss_code(env, body, block, inss)),
    decreases inss.len(),
{
    if inss.len() > 0 {
        lemma_inss_params(env, body, block, inss.drop_last());
        let before = inss_code(env, body, block, inss.drop_last());
        match inss.last() {
            InsModel::Assign { place, value } => {
                lemma_slot_place_params(env.types(), before, block, place);
                let found = slot_place_code(env.types(), before, block, place).0;
                lemma_value_params(env.types(), found, block, place, value);
            },
            InsModel::AllocGc { place } => {
                lemma_slot_place_params(env.types(), before, block, place);
            },
        }
    }
}

proof fn lemma_loads_params(
    types: TypesModel,
    func: FuncModel,
    body: ClifBody,
    block: u32,
    locals: Seq<LocalId>,
)
    requires
        block < body.blocks.len(),
    ensures
        same_params(body, loads_code(types, func, body, block, locals).0),
    decreases locals.len(),
{
    if locals.len() > 0 {
        lemma_loads_params(types, func, body, block, locals.drop_last());
    }
}

proof fn lemma_final_params(env: CodeEnv, body: ClifBody, block: u32, end: FinalModel)
    requires
        block < body.blocks.len(),
    ensures
        same_params(body, final_code(env, body, block, end)),
{
    if let FinalModel::Call { args, .. } = end {
        lemma_loads_params(env.types(), env.func(), body, block, args);
    }
}

proof fn lemma_store_args_params(func: FuncModel, body: ClifBody, n: nat)
    requires
        0 < body.blocks.len(),
    ensures
        same_params(body, store_args_code(func, body, n)),
    decreases n,
{
    if n > 0 {
        lemma_store_args_params(func, body, (n - 1) as nat);
    }
}

proof fn lemma_params_types(body: ClifBody, tys: Seq<ClifType>, n: nat)
    requires
        0 < body.blocks.len(),
        body.blocks[0].types.len() == 0,
        n <= tys.len(),
    ensures
        params_code(body, tys, n).blocks.len() == body.blocks.len(),
        params_code(body, tys, n).blocks[0].types =~= tys.take(n as int),
    decreases n,
{
    if n > 0 {
        lemma_params_types(body, tys, (n - 1) as nat);
    }
}

/// The block to start with takes the arguments.
proof fn lemma_entry_params(env: CodeEnv, refs: Seq<ClifRef>)
    requires
        refs_known(env, refs),
        func_ready(env, refs),
        env.func().has_block(env.func().entrypoint),
        env.func().blocks.len() < MAX_ENTITIES,
    ensures
        ({
            let frame = frame_of(env, refs);
            let first = block_code(env, frame, key_pos(env.func().entrypoint.key));
            &&& first.blocks.len() > 0
            &&& first.blocks[0].params == Seq::new(env.func().args.len(), |i: int| i as u32)
            &&& first.blocks[0].types == arg_types(env.types(), env.func())
        }),
{
    reveal(block_code);
    reveal(block_ready);
    let func = env.func();
    let n = key_pos(func.entrypoint.key);
    assert(block_ready(env, n));
    let block = block_number(func, n);
    let placed = frame_of(env, refs).with_layout(block);
    let tys = arg_types(env.types(), func);
    let taken = params_code(placed, tys, func.args.len());
    lemma_params_code(placed, tys, func.args.len());
    lemma_params_types(placed, tys, func.args.len());
    assert(tys.take(tys.len() as int) =~= tys);
    lemma_told_code(env, taken);
    let told = told_code(env, taken);
    assert(same_params(taken, told));
    lemma_store_args_params(func, told, func.args.len());
    let begun = entry_code(env, placed);
    let inss = func.blocks[n].instructions;
    lemma_inss_params(env, begun, block, inss);
    let done = inss_code(env, begun, block, inss);
    lemma_final_params(env, done, block, func.blocks[n].ins_final);
}

proof fn lemma_entry_params_stay(env: CodeEnv, refs: Seq<ClifRef>, count: nat)
    requires
        refs_known(env, refs),
        func_ready(env, refs),
        env.func().has_block(env.func().entrypoint),
        1 <= count <= env.func().blocks.len() < MAX_ENTITIES,
    ensures
        ({
            let body = blocks_code(env, frame_of(env, refs), count);
            &&& body.blocks[0].params == Seq::new(env.func().args.len(), |i: int| i as u32)
            &&& body.blocks[0].types == arg_types(env.types(), env.func())
        }),
    decreases count,
{
    let frame = frame_of(env, refs);
    let func = env.func();
    if count == 1 {
        lemma_entry_params(env, refs);
        assert(blocks_code(env, frame, 0) == frame);
        assert(blocks_code(env, frame, 1) == block_code(
            env,
            frame,
            block_in_order(func, 0),
        ));
    } else {
        lemma_entry_params_stay(env, refs, (count - 1) as nat);
        let before = blocks_code(env, frame, (count - 1) as nat);
        lemma_blocks_code(env, frame, (count - 1) as nat);
        let at = block_in_order(func, count - 1);
        lemma_block_in_order(func, count - 1);
        assert(block_ready(env, at));
        lemma_empty_so_far(env, refs, (count - 1) as nat);
        lemma_tells_block(env, before, at);
    }
}

/// The blocks that were not reached yet have no code.
proof fn lemma_empty_so_far(env: CodeEnv, refs: Seq<ClifRef>, count: nat)
    requires
        refs_known(env, refs),
        func_ready(env, refs),
        count <= env.func().blocks.len() < MAX_ENTITIES,
    ensures
        forall|j: int|
            #![trigger block_in_order(env.func(), j)]
            count <= j < env.func().blocks.len() ==> blocks_code(
                env,
                frame_of(env, refs),
                count,
            ).blocks[block_number(
                env.func(),
                block_in_order(env.func(), j),
            ) as int].code.len() == 0,
{
    lemma_tells_blocks(env, refs, count);
}

/// The code of a function takes its arguments in their order: the block to start with
/// has a parameter for each, of the type in the signature, and these are the first
/// values. A value that is passed has the size of what it stands for.
pub proof fn law_arguments_are_taken(env: CodeEnv, refs: Seq<ClifRef>, i: int)
    requires
        refs_known(env, refs),
        func_ready(env, refs),
        env.func().has_block(env.func().entrypoint),
        env.func().blocks.len() < MAX_ENTITIES,
        0 <= i < env.func().args.len(),
    ensures
        ({
            let body = func_code(env, refs);
            let ty = env.func().local(env.func().args[i]);
            &&& body.sig.params.len() == env.func().args.len()
            &&& body.blocks[0].params.len() == env.func().args.len()
            &&& body.blocks[0].params[i] == i
            &&& body.blocks[0].types == body.sig.params
            &&& read_whole(env.types(), ty) ==> type_size(body.sig.params[i]) == size_of(
                env.types(),
                ty,
            )
            &&& body.sig.params[i] == ClifType::F32 ==> env.types().info(ty) is PrimF32
        }),
{
    let func = env.func();
    lemma_entry_params_stay(env, refs, func.blocks.len());
    lemma_blocks_code(env, frame_of(env, refs), func.blocks.len());
    assert(block_ready(env, key_pos(func.entrypoint.key)));
    reveal(block_ready);
    let ty = func.local(func.args[i]);
    if read_whole(env.types(), ty) {
        law_machine_type_size(env.types(), ty);
    }
}

/// The code of a function gives one value where the function gives one, of the size of
/// what it stands for, and none elsewhere.
pub proof fn law_result_is_given(env: CodeEnv, refs: Seq<ClifRef>)
    requires
        refs_known(env, refs),
        func_ready(env, refs),
        env.func().blocks.len() < MAX_ENTITIES,
    ensures
        ({
            let body = func_code(env, refs);
            match env.func().return_type {
                Some(ty) => {
                    &&& body.sig.returns.len() == 1
                    &&& read_whole(env.types(), ty) ==> type_size(body.sig.returns[0]) == size_of(
                        env.types(),
                        ty,
                    )
                    &&& body.sig.returns[0] == ClifType::F32 ==> env.types().info(ty) is PrimF32
                },
                None => body.sig.returns.len() == 0,
            }
        }),
{
    lemma_blocks_code(env, frame_of(env, refs), env.func().blocks.len());
    if let Some(ty) = env.func().return_type {
        if read_whole(env.types(), ty) {
            law_machine_type_size(env.types(), ty);
        }
    }
}

} // verus!
