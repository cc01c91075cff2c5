//! What machine code does when it runs.

use crate::clif::{ClifCond, ClifIns, ClifRef, ClifType};
use vstd::prelude::*;

verus! {

/// The bytes of memory by their addresses.
pub type Memory = Map<int, u8>;

/// How many bytes a value of the type has.
pub open spec fn type_size(ty: ClifType) -> nat {
    match ty {
        ClifType::I8 => 1,
        ClifType::I16 => 2,
        ClifType::I32 => 4,
        ClifType::I64 => 8,
        ClifType::I128 => 16,
        ClifType::F32 => 4,
    }
}

/// How many different values of the type there are.
pub open spec fn type_values(ty: ClifType) -> int {
    match ty {
        ClifType::I8 => 0x100,
        ClifType::I16 => 0x1_0000,
        ClifType::I32 => 0x1_0000_0000,
        ClifType::I64 => 0x1_0000_0000_0000_0000,
        ClifType::I128 => 0x1_0000_0000_0000_0000_0000_0000_0000_0000int,
        ClifType::F32 => 0x1_0000_0000,
    }
}

/// The number that the bits of a value stand for, taken as a signed one.
pub open spec fn signed(ty: ClifType, bits: int) -> int {
    if 2 * bits >= type_values(ty) {
        bits - type_values(ty)
    } else {
        bits
    }
}

/// The quotient of two numbers, rounded towards zero.
pub open spec fn quotient(a: int, b: int) -> int {
    if a < 0 && b < 0 {
        (-a) / (-b)
    } else if a < 0 {
        -((-a) / b)
    } else if b < 0 {
        -(a / (-b))
    } else {
        a / b
    }
}

/// A quotient times the divisor comes as close to the dividend as it can without going
/// beyond it, and the rest has the sign of the dividend.
pub proof fn law_quotient(a: int, b: int)
    requires
        b != 0,
    ensures
        ({
            let rest = a - quotient(a, b) * b;
            &&& a >= 0 ==> 0 <= rest
            &&& a <= 0 ==> rest <= 0
            &&& -rest < b || -rest < -b
            &&& rest < b || rest < -b
        }),
{
    let p = if a < 0 {
        -a
    } else {
        a
    };
    let d = if b < 0 {
        -b
    } else {
        b
    };
    vstd::arithmetic::div_mod::lemma_fundamental_div_mod(p, d);
    vstd::arithmetic::div_mod::lemma_mod_bound(p, d);
    let q = p / d;
    assert(d * q == q * d) by (nonlinear_arith);
    assert((-q) * d == -(q * d)) by (nonlinear_arith);
    assert(q * (-d) == -(q * d)) by (nonlinear_arith);
    assert((-q) * (-d) == q * d) by (nonlinear_arith);
}

/// The number that `size` bytes from `addr` on hold, the lowest one first.
pub open spec fn bytes_at(mem: Memory, addr: int, size: nat) -> int
    decreases size,
{
    if size == 0 {
        0
    } else {
        mem[addr] + 0x100 * bytes_at(mem, addr + 1, (size - 1) as nat)
    }
}

/// Memory after `size` bytes of a number were written from `addr` on.
pub open spec fn with_bytes(mem: Memory, addr: int, size: nat, bits: int) -> Memory
    decreases size,
{
    if size == 0 {
        mem
    } else {
        with_bytes(
            mem.insert(addr, (bits % 0x100) as u8),
            addr + 1,
            (size - 1) as nat,
            bits / 0x100,
        )
    }
}

/// How many different numbers fit into bytes.
pub open spec fn byte_values(size: nat) -> int
    decreases size,
{
    if size == 0 {
        1
    } else {
        0x100 * byte_values((size - 1) as nat)
    }
}

/// Bytes that are not written stay.
pub proof fn law_write_elsewhere(mem: Memory, addr: int, size: nat, bits: int, other: int)
    requires
        other < addr || addr + size <= other,
    ensures
        with_bytes(mem, addr, size, bits)[other] == mem[other],
    decreases size,
{
    if size > 0 {
        law_write_elsewhere(
            mem.insert(addr, (bits % 0x100) as u8),
            addr + 1,
            (size - 1) as nat,
            bits / 0x100,
            other,
        );
    }
}

/// A number that was written is read back.
pub proof fn law_write_read(mem: Memory, addr: int, size: nat, bits: int)
    requires
        0 <= bits < byte_values(size),
    ensures
        bytes_at(with_bytes(mem, addr, size, bits), addr, size) == bits,
    decreases size,
{
    if size > 0 {
        let first = mem.insert(addr, (bits % 0x100) as u8);
        law_write_read(first, addr + 1, (size - 1) as nat, bits / 0x100);
        law_write_elsewhere(first, addr + 1, (size - 1) as nat, bits / 0x100, addr);
    }
}

/// What is read is one of the numbers that fit into the bytes.
pub proof fn lemma_bytes_range(mem: Memory, addr: int, size: nat)
    ensures
        0 <= bytes_at(mem, addr, size) < byte_values(size),
        byte_values(1) == 0x100,
        byte_values(4) == 0x1_0000_0000,
        byte_values(8) == 0x1_0000_0000_0000_0000,
    decreases size,
{
    reveal_with_fuel(byte_values, 9);
    if size > 0 {
        lemma_bytes_range(mem, addr + 1, (size - 1) as nat);
    }
}

/// A value: its type, and its bits as a number.
pub struct Word {
    pub ty: ClifType,
    pub bits: int,
}

/// What a run does not decide itself: how numbers with a fraction are computed
/// with, by their bits, and what calls do. A call of a function of the module with
/// values, in a memory, gives results and leaves a memory, or does not return.
pub struct World {
    pub fadd: spec_fn(int, int) -> int,
    pub fsub: spec_fn(int, int) -> int,
    pub fmul: spec_fn(int, int) -> int,
    pub fdiv: spec_fn(int, int) -> int,
    pub feq: spec_fn(int, int) -> bool,
    pub flt: spec_fn(int, int) -> bool,
    pub fle: spec_fn(int, int) -> bool,
    pub call: spec_fn(u32, Seq<int>, Memory) -> Option<(Seq<int>, Memory)>,
}

/// A function while it runs: the values that were made, the memory, the addresses
/// of the slots, and the frame pointer.
pub struct Machine {
    pub values: Map<u32, Word>,
    pub mem: Memory,
    pub slots: Seq<int>,
    pub frame: int,
}

impl Machine {
    /// With one more value.
    pub open spec fn with_value(self, res: u32, ty: ClifType, bits: int) -> Machine {
        Machine { values: self.values.insert(res, Word { ty, bits }), ..self }
    }

    /// The bits of a value.
    pub open spec fn bits(self, x: u32) -> int {
        self.values[x].bits
    }

    /// A value as a signed number.
    pub open spec fn number(self, x: u32) -> int {
        signed(self.values[x].ty, self.values[x].bits)
    }

    /// Whether two values are integers of the same type.
    pub open spec fn integers(self, x: u32, y: u32) -> bool {
        self.values[x].ty == self.values[y].ty && self.values[x].ty != ClifType::F32
    }

    /// Whether two values are numbers with a fraction.
    pub open spec fn floats(self, x: u32, y: u32) -> bool {
        self.values[x].ty == ClifType::F32 && self.values[y].ty == ClifType::F32
    }

    /// With an integer of the type of `x`, as far as it fits.
    pub open spec fn with_integer(self, res: u32, x: u32, n: int) -> Machine {
        let ty = self.values[x].ty;
        self.with_value(res, ty, n % type_values(ty))
    }

    /// With a value that is 1 or 0.
    pub open spec fn with_flag(self, res: u32, flag: bool) -> Machine {
        self.with_value(
            res,
            ClifType::I8,
            if flag {
                1
            } else {
                0
            },
        )
    }

    /// With the results of a call.
    pub open spec fn with_results(self, results: Seq<u32>, types: Seq<ClifType>, bits: Seq<int>) -> Machine
        decreases results.len(),
    {
        if results.len() == 0 {
            self
        } else {
            let n = results.len() - 1;
            self.with_results(results.drop_last(), types, bits).with_value(
                results[n],
                types[n],
                bits[n],
            )
        }
    }
}

/// What an instruction does that compares two values.
pub open spec fn test(world: World, m: Machine, ins: ClifIns) -> Option<Machine> {
    match ins {
        ClifIns::Icmp { res, cond, x, y } => if m.integers(x, y) {
            let (a, b) = (m.number(x), m.number(y));
            Some(
                m.with_flag(
                    res,
                    match cond {
                        ClifCond::Equal => a == b,
                        ClifCond::Less => a < b,
                        ClifCond::LessOrEqual => a <= b,
                    },
                ),
            )
        } else {
            None
        },
        ClifIns::Fcmp { res, cond, x, y } => if m.floats(x, y) {
            let (a, b) = (m.bits(x), m.bits(y));
            Some(
                m.with_flag(
                    res,
                    match cond {
                        ClifCond::Equal => (world.feq)(a, b),
                        ClifCond::Less => (world.flt)(a, b),
                        ClifCond::LessOrEqual => (world.fle)(a, b),
                    },
                ),
            )
        } else {
            None
        },
        _ => None,
    }
}

/// What one instruction does that does not end its block. `None` where it stops the
/// run: on a division that has no result, on a call that does not return, and on
/// values of the wrong types.
pub open spec fn step(world: World, refs: Seq<ClifRef>, m: Machine, ins: ClifIns) -> Option<Machine> {
    match ins {
        ClifIns::StackAddr { res, ty, slot, offset } => Some(
            m.with_value(res, ty, m.slots[slot as int] + offset),
        ),
        ClifIns::StackLoad { res, ty, slot, offset } => Some(
            m.with_value(res, ty, bytes_at(m.mem, m.slots[slot as int] + offset, type_size(ty))),
        ),
        ClifIns::StackStore { value, slot, offset } => Some(
            Machine {
                mem: with_bytes(
                    m.mem,
                    m.slots[slot as int] + offset,
                    type_size(m.values[value].ty),
                    m.bits(value),
                ),
                ..m
            },
        ),
        ClifIns::Load { res, ty, addr, offset } => Some(
            m.with_value(res, ty, bytes_at(m.mem, m.bits(addr) + offset, type_size(ty))),
        ),
        ClifIns::Store { value, addr, offset } => Some(
            Machine {
                mem: with_bytes(
                    m.mem,
                    m.bits(addr) + offset,
                    type_size(m.values[value].ty),
                    m.bits(value),
                ),
                ..m
            },
        ),
        ClifIns::Iconst { res, ty, imm } => Some(
            m.with_value(res, ty, imm as int % type_values(ty)),
        ),
        ClifIns::F32const { res, bits } => Some(m.with_value(res, ClifType::F32, bits as int)),
        ClifIns::IaddImm { res, x, imm } => Some(m.with_integer(res, x, m.bits(x) + imm)),
        ClifIns::Iadd { res, x, y } => if m.integers(x, y) {
            Some(m.with_integer(res, x, m.number(x) + m.number(y)))
        } else {
            None
        },
        ClifIns::Isub { res, x, y } => if m.integers(x, y) {
            Some(m.with_integer(res, x, m.number(x) - m.number(y)))
        } else {
            None
        },
        ClifIns::Imul { res, x, y } => if m.integers(x, y) {
            Some(m.with_integer(res, x, m.number(x) * m.number(y)))
        } else {
            None
        },
        ClifIns::Sdiv { res, x, y } => if m.integers(x, y) && m.number(y) != 0 && !(m.number(y)
            == -1 && 2 * m.number(x) == -type_values(m.values[x].ty)) {
            Some(m.with_integer(res, x, quotient(m.number(x), m.number(y))))
        } else {
            None
        },
        ClifIns::Fadd { res, x, y } => if m.floats(x, y) {
            Some(m.with_value(res, ClifType::F32, (world.fadd)(m.bits(x), m.bits(y))))
        } else {
            None
        },
        ClifIns::Fsub { res, x, y } => if m.floats(x, y) {
            Some(m.with_value(res, ClifType::F32, (world.fsub)(m.bits(x), m.bits(y))))
        } else {
            None
        },
        ClifIns::Fmul { res, x, y } => if m.floats(x, y) {
            Some(m.with_value(res, ClifType::F32, (world.fmul)(m.bits(x), m.bits(y))))
        } else {
            None
        },
        ClifIns::Fdiv { res, x, y } => if m.floats(x, y) {
            Some(m.with_value(res, ClifType::F32, (world.fdiv)(m.bits(x), m.bits(y))))
        } else {
            None
        },
        ClifIns::FramePointer { res, ty } => Some(m.with_value(res, ty, m.frame)),
        ClifIns::Call { func, args, results } => {
            let callee = refs[func as int];
            match (world.call)(callee.func, args.map_values(|x: u32| m.bits(x)), m.mem) {
                Some((bits, mem)) => Some(
                    (Machine { mem, ..m }).with_results(results, callee.sig.returns, bits),
                ),
                None => None,
            }
        },
        _ => test(world, m, ins),
    }
}

/// What instructions do that run one after the other.
pub open spec fn run(
    world: World,
    refs: Seq<ClifRef>,
    m: Option<Machine>,
    code: Seq<ClifIns>,
) -> Option<Machine>
    decreases code.len(),
{
    if code.len() == 0 {
        m
    } else {
        match run(world, refs, m, code.drop_last()) {
            Some(before) => step(world, refs, before, code.last()),
            None => None,
        }
    }
}

/// How a run through a block ends: it goes on with a block, it returns values, or it
/// does not get to the end.
pub enum Outcome {
    Goes { to: u32, mem: Memory },
    Returns { values: Seq<int>, mem: Memory },
    Stops,
}

/// What the instruction does that a block ends with.
pub open spec fn leave(m: Option<Machine>, ins: ClifIns) -> Outcome {
    match m {
        None => Outcome::Stops,
        Some(m) => match ins {
            ClifIns::Jump { to } => Outcome::Goes { to, mem: m.mem },
            ClifIns::Brif { flag, is_true, is_false } => if m.bits(flag) != 0 {
                Outcome::Goes { to: is_true, mem: m.mem }
            } else {
                Outcome::Goes { to: is_false, mem: m.mem }
            },
            ClifIns::Return { values } => Outcome::Returns {
                values: values.map_values(|x: u32| m.bits(x)),
                mem: m.mem,
            },
            _ => Outcome::Stops,
        },
    }
}

/// What a run through the code of a block does.
pub open spec fn run_block(
    world: World,
    refs: Seq<ClifRef>,
    m: Option<Machine>,
    code: Seq<ClifIns>,
) -> Outcome {
    leave(run(world, refs, m, code.drop_last()), code.last())
}

/// A run through more instructions goes on where the run before stood.
pub proof fn lemma_run_push(
    world: World,
    refs: Seq<ClifRef>,
    m: Option<Machine>,
    code: Seq<ClifIns>,
    ins: ClifIns,
)
    ensures
        run(world, refs, m, code.push(ins)) == (match run(world, refs, m, code) {
            Some(before) => step(world, refs, before, ins),
            None => None,
        }),
        run_block(world, refs, m, code.push(ins)) == leave(run(world, refs, m, code), ins),
{
    assert(code.push(ins).drop_last() =~= code);
}

} // verus!
