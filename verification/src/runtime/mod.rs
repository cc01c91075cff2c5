//! The runtime that compiled programs run under: its types and functions, its
//! stack of frames, and its managed memory.

pub mod builtin;
pub mod reach;
pub mod testing;

use self::reach::{
    field_addr, kept, law_kept_closed, law_kept_twice, law_roots_kept, lemma_closed_holds_reachable,
    lemma_other_value_points, lemma_root_reachable, lemma_same_roots, lemma_same_steps,
    lemma_step_reachable, points_to, reachable, RtTypeModel,
};
use crate::layout::Layout;
use crate::slots::{key_at, key_pos, Arena, MAX_SLOTS};
use std::collections::{HashMap, HashSet};
use std::marker::PhantomData;
use vstd::prelude::*;
use vstd::std_specs::iter::IteratorSpec;

verus! {

broadcast use vstd::std_specs::hash::group_hash_axioms;

/// A type that the runtime knows.
#[derive(Clone, Copy, PartialEq, Eq, Structural, Hash, Debug)]
pub struct RtTypeId {
    pub key: u64,
}

/// A function that the runtime knows.
#[derive(Clone, Copy, PartialEq, Eq, Structural, Hash, Debug)]
pub struct RtFuncId {
    pub key: u64,
}

/// What the runtime knows of a type.
#[derive(Debug)]
pub struct RtTypeData {
    pub layout: Layout,
    pub gc_ptr_fields: Vec<usize>,
}

impl View for RtTypeData {
    type V = RtTypeModel;

    open spec fn view(&self) -> RtTypeModel {
        RtTypeModel { layout: self.layout, gc_ptr_fields: self.gc_ptr_fields@ }
    }
}

impl Clone for RtTypeData {
    fn clone(&self) -> (copy: Self)
        ensures
            copy@ == self@,
    {
        let mut gc_ptr_fields: Vec<usize> = Vec::new();
        let mut i: usize = 0;
        while i < self.gc_ptr_fields.len()
            invariant
                i <= self.gc_ptr_fields.len(),
                gc_ptr_fields@ =~= self.gc_ptr_fields@.take(i as int),
            decreases self.gc_ptr_fields.len() - i,
        {
            gc_ptr_fields.push(self.gc_ptr_fields[i]);
            i = i + 1;
        }
        RtTypeData { layout: self.layout, gc_ptr_fields }
    }
}

/// What the runtime knows of a function.
#[derive(Debug)]
pub struct RtFuncData {
    /// Negative offsets from the frame pointer (the stack grows down)
    pub roots: Vec<usize>,
}

/// A frame on the stack: the addresses of its slots that hold references into
/// managed memory.
#[derive(Debug)]
pub struct RtStackFrame {
    pub roots: Vec<usize>,
}

/// What a runtime holds. Functions are known by the offsets of their roots.
#[verifier::ext_equal]
pub struct RuntimeModel {
    pub log_enabled: bool,
    pub stack: Seq<Seq<usize>>,
    pub funcs: Seq<Seq<usize>>,
    pub types: Seq<RtTypeModel>,
    pub last_sweep: u64,
    pub heap: Map<usize, RtTypeModel>,
    pub refcounts: Map<usize, usize>,
}

/// The id of the type made after `n` others.
pub open spec fn rt_type_at(n: int) -> RtTypeId {
    RtTypeId { key: key_at(n) }
}

/// The id of the function made after `n` others.
pub open spec fn rt_func_at(n: int) -> RtFuncId {
    RtFuncId { key: key_at(n) }
}

/// Whether all references in a value at `ptr` have addresses.
pub open spec fn fields_addressable(ptr: usize, ty: RtTypeModel) -> bool {
    forall|i: int|
        0 <= i < ty.gc_ptr_fields.len() ==> ptr + #[trigger] ty.gc_ptr_fields[i] <= usize::MAX
}

/// How often a pointer is held from outside, once more.
pub open spec fn incremented(counts: Map<usize, usize>, ptr: usize) -> Map<usize, usize> {
    counts.insert(
        ptr,
        if counts.contains_key(ptr) {
            (counts[ptr] + 1) as usize
        } else {
            1
        },
    )
}

/// How often a pointer is held from outside, once less. A pointer that is held no
/// more is forgotten.
pub open spec fn decremented(counts: Map<usize, usize>, ptr: usize) -> Map<usize, usize> {
    if !counts.contains_key(ptr) {
        counts
    } else if counts[ptr] == 1 {
        counts.remove(ptr)
    } else {
        counts.insert(ptr, (counts[ptr] - 1) as usize)
    }
}

/// Whether `addr` is the address of a slot of one of the frames.
pub open spec fn in_frames(stack: Seq<Seq<usize>>, addr: usize) -> bool {
    exists|i: int, j: int|
        0 <= i < stack.len() && 0 <= j < stack[i].len() && #[trigger] stack[i][j] == addr
}

/// The pointers that values in managed memory are held by: those in the slots of
/// the frames, and those held from outside.
pub open spec fn root_set(
    stack: Seq<Seq<usize>>,
    refcounts: Map<usize, usize>,
    mem: Map<usize, usize>,
) -> Set<usize> {
    Set::new(
        |ptr: usize|
            refcounts.contains_key(ptr) || exists|addr: usize|
                in_frames(stack, addr) && #[trigger] mem.contains_key(addr) && mem[addr] == ptr,
    )
}

impl RuntimeModel {
    /// Whether `addr` is the address of a slot of a frame.
    pub open spec fn is_root_slot(self, addr: usize) -> bool {
        in_frames(self.stack, addr)
    }

    /// The pointers that values in managed memory are held by.
    pub open spec fn roots(self, mem: Map<usize, usize>) -> Set<usize> {
        root_set(self.stack, self.refcounts, mem)
    }

    /// Whether `ptr` can be reached, as far as the words of memory are known.
    pub open spec fn reaches(self, mem: Map<usize, usize>, ptr: usize) -> bool {
        reachable(self.roots(mem), self.heap, mem, ptr)
    }

    /// Whether the word at `addr` has to be known: it is a slot of a frame, or a
    /// reference in a value that can be reached.
    pub open spec fn needs(self, mem: Map<usize, usize>, addr: usize) -> bool {
        self.is_root_slot(addr) || exists|ptr: usize, i: int|
            self.reaches(mem, ptr) && self.heap.contains_key(ptr) && 0 <= i
                < self.heap[ptr].gc_ptr_fields.len() && #[trigger] field_addr(self.heap, ptr, i)
                == addr
    }

    /// Whether a pointer can be reached that does not point into managed memory.
    pub open spec fn dangles(self, mem: Map<usize, usize>) -> bool {
        exists|ptr: usize| #[trigger] self.reaches(mem, ptr) && !self.heap.contains_key(ptr)
    }

    /// The runtime with a value of that type at `ptr` in managed memory.
    pub open spec fn allocated(self, ptr: usize, ty: RtTypeModel) -> RuntimeModel {
        RuntimeModel { heap: self.heap.insert(ptr, ty), ..self }
    }

    /// The runtime after it has given up what cannot be reached.
    pub open spec fn swept(self, mem: Map<usize, usize>) -> RuntimeModel {
        RuntimeModel { heap: kept(self.roots(mem), self.heap, mem), ..self }
    }

    /// What holds of every runtime: a pointer that is counted is held at least
    /// once, the null pointer points to no value, and all references have
    /// addresses.
    pub open spec fn wf(self) -> bool {
        &&& forall|ptr: usize| #[trigger]
            self.refcounts.contains_key(ptr) ==> self.refcounts[ptr] > 0
        &&& !self.heap.contains_key(0)
        &&& forall|ptr: usize| #[trigger]
            self.heap.contains_key(ptr) ==> fields_addressable(ptr, self.heap[ptr])
    }
}

/// What happened to a pointer that is held once less.
#[derive(Clone, Copy, PartialEq, Eq, Structural, Debug)]
pub enum Release {
    /// It is still held.
    Kept,
    /// It is held no more: a safepoint is due.
    Released,
    /// It was not held: it pointed to invalid memory.
    Unknown,
}

/// What happens to a pointer that is held once less.
pub open spec fn release_of(counts: Map<usize, usize>, ptr: usize) -> Release {
    if !counts.contains_key(ptr) {
        Release::Unknown
    } else if counts[ptr] == 1 {
        Release::Released
    } else {
        Release::Kept
    }
}

/// Why a sweep could not be done.
#[derive(Debug)]
pub enum SweepError {
    /// The pointer can be reached and does not point into managed memory.
    Dangling(usize),
    /// The words at these addresses have to be known.
    Unread(Vec<usize>),
}

/// The keys of a map.
fn keys_of<V>(map: &HashMap<usize, V>) -> (keys: Vec<usize>)
    ensures
        keys@.no_duplicates(),
        keys@.to_set() == map@.dom(),
{
    let mut keys: Vec<usize> = Vec::new();
    for key in it: map.keys()
        invariant
            it.seq() == map.keys().remaining(),
            keys@.len() == it.index(),
            forall|i: int| 0 <= i < keys@.len() ==> keys@[i] == *it.seq()[i],
    {
        keys.push(*key);
    }
    assert(keys@ =~= map.keys().remaining().unref());
    keys
}

/// # Notes
/// * It should be *impossible* for a user to write Emscript code which generates unsound behavior
/// * For every value that can be held from outside there are two versions of its type: one
///   whose references are held, for use on the stack, and one whose references are not, for use
///   in managed memory.
pub struct Runtime {
    log_enabled: bool,
    stack: Vec<RtStackFrame>,
    funcs: Arena<RtFuncData>,
    types: Arena<RtTypeData>,
    last_sweep: u64,
    heap: HashMap<usize, RtTypeData>,
    extern_refcount: HashMap<usize, usize>,
}

/// What the values of managed memory are.
spec fn heap_model(heap: Map<usize, RtTypeData>) -> Map<usize, RtTypeModel> {
    Map::new(|ptr: usize| heap.contains_key(ptr), |ptr: usize| heap[ptr]@)
}

impl View for Runtime {
    type V = RuntimeModel;

    closed spec fn view(&self) -> RuntimeModel {
        RuntimeModel {
            log_enabled: self.log_enabled,
            stack: self.stack@.map_values(|frame: RtStackFrame| frame.roots@),
            funcs: self.funcs@.map_values(|func: RtFuncData| func.roots@),
            types: self.types@.map_values(|ty: RtTypeData| ty@),
            last_sweep: self.last_sweep,
            heap: heap_model(self.heap@),
            refcounts: self.extern_refcount@,
        }
    }
}

impl Runtime {
    pub closed spec fn wf(&self) -> bool {
        &&& self.funcs.wf()
        &&& self.types.wf()
        &&& self@.wf()
    }

    /// What holds of every runtime.
    pub proof fn lemma_wf(&self)
        requires
            self.wf(),
        ensures
            self@.wf(),
            self@.funcs.len() <= MAX_SLOTS,
            self@.types.len() <= MAX_SLOTS,
    {
        self.funcs.lemma_len();
        self.types.lemma_len();
    }

    /// A runtime that nothing has happened in yet, which logs what happens.
    pub fn new(now: u64) -> (rt: Runtime)
        ensures
            rt.wf(),
            rt@ == (RuntimeModel {
                log_enabled: true,
                stack: Seq::empty(),
                funcs: Seq::empty(),
                types: Seq::empty(),
                last_sweep: now,
                heap: Map::empty(),
                refcounts: Map::empty(),
            }),
    {
        let rt = Runtime {
            log_enabled: true,
            stack: Vec::new(),
            funcs: Arena::new(),
            types: Arena::new(),
            last_sweep: now,
            heap: HashMap::new(),
            extern_refcount: HashMap::new(),
        };
        assert(rt@.stack =~= Seq::empty());
        assert(rt@.funcs =~= Seq::empty());
        assert(rt@.types =~= Seq::empty());
        assert(rt@.heap =~= Map::empty());
        rt
    }

    pub fn log_enabled(&self) -> (enabled: bool)
        ensures
            enabled == self@.log_enabled,
    {
        self.log_enabled
    }

    /// How many functions there are.
    pub fn func_count(&self) -> (n: usize)
        requires
            self.wf(),
        ensures
            n == self@.funcs.len(),
    {
        self.funcs.len()
    }

    /// How many types there are.
    pub fn type_count(&self) -> (n: usize)
        requires
            self.wf(),
        ensures
            n == self@.types.len(),
    {
        self.types.len()
    }

    /// How often a pointer is held from outside.
    pub fn refcount(&self, ptr: usize) -> (count: usize)
        requires
            self.wf(),
        ensures
            count == (if self@.refcounts.contains_key(ptr) {
                self@.refcounts[ptr]
            } else {
                0
            }),
    {
        match self.extern_refcount.get(&ptr) {
            Some(count) => *count,
            None => 0,
        }
    }

    /// Holds a pointer from outside, once more.
    pub fn refcount_increment(&mut self, ptr: usize)
        requires
            old(self).wf(),
            old(self)@.refcounts.contains_key(ptr) ==> old(self)@.refcounts[ptr] < usize::MAX,
        ensures
            final(self).wf(),
            final(self)@ == (RuntimeModel {
                refcounts: incremented(old(self)@.refcounts, ptr),
                ..old(self)@
            }),
    {
        let count: usize = match self.extern_refcount.get(&ptr) {
            Some(count) => *count + 1,
            None => 1,
        };
        self.extern_refcount.insert(ptr, count);
    }

    /// Holds a pointer from outside, once less.
    pub fn refcount_decrement(&mut self, ptr: usize) -> (release: Release)
        requires
            old(self).wf(),
        ensures
            final(self).wf(),
            final(self)@ == (RuntimeModel {
                refcounts: decremented(old(self)@.refcounts, ptr),
                ..old(self)@
            }),
            release == release_of(old(self)@.refcounts, ptr),
    {
        let count: usize = match self.extern_refcount.get(&ptr) {
            Some(count) => *count,
            None => {
                return Release::Unknown;
            },
        };
        assert(self@.refcounts.contains_key(ptr));
        if count == 1 {
            self.extern_refcount.remove(&ptr);
            Release::Released
        } else {
            self.extern_refcount.insert(ptr, count - 1);
            Release::Kept
        }
    }

    /// Takes the value of type `ty` at `ptr` into managed memory. Its references are
    /// to be null or written before the next sweep.
    pub fn alloc_gc(&mut self, ptr: usize, ty: RtTypeData)
        requires
            old(self).wf(),
            ptr != 0,
            fields_addressable(ptr, ty@),
        ensures
            final(self).wf(),
            final(self)@ == old(self)@.allocated(ptr, ty@),
    {
        let ghost before = self@;
        self.heap.insert(ptr, ty);
        proof {
            assert(self@.heap =~= before.heap.insert(ptr, ty@));
            assert(self@ == before.allocated(ptr, ty@));
            assert(self@.refcounts == before.refcounts);
            assert(!self@.heap.contains_key(0));
            assert forall|p: usize| #[trigger] self@.heap.contains_key(p) implies fields_addressable(
                p,
                self@.heap[p],
            ) by {
                assert(p == ptr || before.heap.contains_key(p));
            }
        }
    }

    /// Whether a sweep is due at a safepoint. From then on the last sweep is the
    /// one that is due.
    pub fn safepoint(&mut self, now: u64) -> (due: bool)
        requires
            old(self).wf(),
        ensures
            final(self).wf(),
            due == (now > old(self)@.last_sweep),
            final(self)@ == (RuntimeModel {
                last_sweep: if due {
                    now
                } else {
                    old(self)@.last_sweep
                },
                ..old(self)@
            }),
    {
        if now > self.last_sweep {
            self.last_sweep = now;
            true
        } else {
            false
        }
    }
}

/// What holds while memory is traced. `visited` are the values found so far,
/// `pending` the pointers still to be looked at, `missing` the addresses of words
/// that are not known.
spec fn tracing(
    rt: RuntimeModel,
    mem: Map<usize, usize>,
    visited: Set<usize>,
    pending: Seq<usize>,
    missing: Seq<usize>,
) -> bool {
    &&& forall|p: usize| #[trigger]
        visited.contains(p) ==> p != 0 && rt.reaches(mem, p) && rt.heap.contains_key(p)
    &&& forall|i: int|
        0 <= i < pending.len() ==> (#[trigger] pending[i]) == 0 || rt.reaches(mem, pending[i])
    &&& forall|p: usize| #[trigger]
        rt.roots(mem).contains(p) ==> p == 0 || visited.contains(p) || pending.contains(p)
    &&& forall|p: usize, q: usize|
        visited.contains(p) && #[trigger] points_to(rt.heap, mem, p, q) ==> q == 0
            || visited.contains(q) || pending.contains(q)
    &&& forall|i: int|
        0 <= i < missing.len() ==> rt.needs(mem, #[trigger] missing[i]) && !mem.contains_key(
            missing[i],
        )
    &&& forall|a: usize| #[trigger]
        rt.is_root_slot(a) ==> mem.contains_key(a) || missing.contains(a)
    &&& forall|p: usize, i: int|
        visited.contains(p) && 0 <= i < rt.heap[p].gc_ptr_fields.len() ==> mem.contains_key(
            #[trigger] field_addr(rt.heap, p, i),
        ) || missing.contains(field_addr(rt.heap, p, i))
}

/// When nothing is left to be looked at, everything that can be reached was found.
proof fn lemma_traced(
    rt: RuntimeModel,
    mem: Map<usize, usize>,
    visited: Set<usize>,
    missing: Seq<usize>,
)
    requires
        tracing(rt, mem, visited, Seq::empty(), missing),
    ensures
        forall|p: usize| visited.contains(p) == #[trigger] rt.reaches(mem, p),
        !rt.dangles(mem),
        forall|a: usize|
            #![trigger missing.contains(a)]
            #![trigger rt.needs(mem, a)]
            missing.contains(a) <==> rt.needs(mem, a) && !mem.contains_key(a),
{
    assert forall|p: usize| visited.contains(p) == #[trigger] rt.reaches(mem, p) by {
        if rt.reaches(mem, p) {
            lemma_closed_holds_reachable(rt.roots(mem), rt.heap, mem, visited, p);
        }
    }
    assert forall|a: usize|
        rt.needs(mem, a) && !mem.contains_key(a) implies #[trigger] missing.contains(a) by {
        if !rt.is_root_slot(a) {
            let (p, i) = choose|p: usize, i: int|
                rt.reaches(mem, p) && rt.heap.contains_key(p) && 0 <= i
                    < rt.heap[p].gc_ptr_fields.len() && #[trigger] field_addr(rt.heap, p, i) == a;
            assert(visited.contains(p));
        }
    }
}

impl Runtime {
    /// The pointers in the slots of all frames, and the addresses of those slots
    /// whose words are not known.
    fn frame_roots(&self, memory: &HashMap<usize, usize>) -> (res: (Vec<usize>, Vec<usize>))
        requires
            self.wf(),
        ensures
            forall|i: int|
                0 <= i < res.0@.len() ==> self@.roots(memory@).contains(#[trigger] res.0@[i]),
            forall|a: usize| #[trigger]
                self@.is_root_slot(a) ==> if memory@.contains_key(a) {
                    res.0@.contains(memory@[a])
                } else {
                    res.1@.contains(a)
                },
            forall|i: int|
                0 <= i < res.1@.len() ==> self@.is_root_slot(#[trigger] res.1@[i])
                    && !memory@.contains_key(res.1@[i]),
    {
        let mut found: Vec<usize> = Vec::new();
        let mut missing: Vec<usize> = Vec::new();
        let mut i: usize = 0;
        while i < self.stack.len()
            invariant
                self.wf(),
                i <= self.stack.len(),
                forall|k: int|
                    0 <= k < found@.len() ==> self@.roots(memory@).contains(#[trigger] found@[k]),
                forall|f: int, k: int|
                    #![trigger self@.stack[f][k]]
                    0 <= f < i && 0 <= k < self@.stack[f].len() ==> if memory@.contains_key(
                        self@.stack[f][k],
                    ) {
                        found@.contains(memory@[self@.stack[f][k]])
                    } else {
                        missing@.contains(self@.stack[f][k])
                    },
                forall|k: int|
                    0 <= k < missing@.len() ==> self@.is_root_slot(#[trigger] missing@[k])
                        && !memory@.contains_key(missing@[k]),
            decreases self.stack.len() - i,
        {
            let frame = &self.stack[i];
            assert(self@.stack[i as int] == frame.roots@);
            let mut j: usize = 0;
            while j < frame.roots.len()
                invariant
                    self.wf(),
                    i < self.stack.len(),
                    self@.stack.len() == self.stack.len(),
                    self@.stack[i as int] == frame.roots@,
                    j <= frame.roots.len(),
                    forall|k: int|
                        0 <= k < found@.len() ==> self@.roots(memory@).contains(
                            #[trigger] found@[k],
                        ),
                    forall|f: int, k: int|
                        #![trigger self@.stack[f][k]]
                        0 <= f < i && 0 <= k < self@.stack[f].len() || f == i && 0 <= k < j
                            ==> if memory@.contains_key(self@.stack[f][k]) {
                            found@.contains(memory@[self@.stack[f][k]])
                        } else {
                            missing@.contains(self@.stack[f][k])
                        },
                    forall|k: int|
                        0 <= k < missing@.len() ==> self@.is_root_slot(#[trigger] missing@[k])
                            && !memory@.contains_key(missing@[k]),
                decreases frame.roots.len() - j,
            {
                let addr: usize = frame.roots[j];
                assert(self@.stack[i as int][j as int] == addr);
                assert(self@.is_root_slot(addr));
                let ghost found_before = found@;
                let ghost missing_before = missing@;
                match memory.get(&addr) {
                    Some(word) => {
                        found.push(*word);
                        assert(found@.last() == *word);
                        assert(self@.roots(memory@).contains(*word));
                    },
                    None => {
                        missing.push(addr);
                        assert(missing@.last() == addr);
                    },
                }
                proof {
                    assert forall|x: usize| found_before.contains(x) implies #[trigger] found@.contains(x) by {
                        let k = choose|k: int| 0 <= k < found_before.len() && found_before[k] == x;
                        assert(found@[k] == x);
                    }
                    assert forall|x: usize| missing_before.contains(x) implies #[trigger] missing@.contains(x) by {
                        let k = choose|k: int|
                            0 <= k < missing_before.len() && missing_before[k] == x;
                        assert(missing@[k] == x);
                    }
                }
                j = j + 1;
            }
            i = i + 1;
        }
        (found, missing)
    }
}

/// A pointer that was looked at and led nowhere new may be forgotten.
proof fn lemma_pending_popped(
    rt: RuntimeModel,
    mem: Map<usize, usize>,
    visited: Set<usize>,
    pending: Seq<usize>,
    missing: Seq<usize>,
)
    requires
        tracing(rt, mem, visited, pending, missing),
        pending.len() > 0,
        pending.last() == 0 || visited.contains(pending.last()),
    ensures
        tracing(rt, mem, visited, pending.drop_last(), missing),
{
    let rest = pending.drop_last();
    assert forall|p: usize| pending.contains(p) implies p == 0 || visited.contains(p)
        || #[trigger] rest.contains(p) by {
        let k = choose|k: int| 0 <= k < pending.len() && pending[k] == p;
        if k < pending.len() - 1 {
            assert(rest[k] == p);
        }
    }
}

/// A value whose references were all looked up is found.
proof fn lemma_visited(
    rt: RuntimeModel,
    mem: Map<usize, usize>,
    visited: Set<usize>,
    pending: Seq<usize>,
    missing: Seq<usize>,
    ptr: usize,
    pending_after: Seq<usize>,
    missing_after: Seq<usize>,
)
    requires
        tracing(rt, mem, visited, pending.push(ptr), missing),
        ptr != 0,
        rt.heap.contains_key(ptr),
        looked_up(
            rt,
            mem,
            ptr,
            rt.heap[ptr].gc_ptr_fields.len() as int,
            pending,
            missing,
            pending_after,
            missing_after,
        ),
    ensures
        tracing(rt, mem, visited.insert(ptr), pending_after, missing_after),
{
    let before = pending.push(ptr);
    let now = visited.insert(ptr);
    assert(before.last() == ptr);
    assert(rt.reaches(mem, ptr));
    assert forall|p: usize| before.contains(p) implies now.contains(p)
        || #[trigger] pending_after.contains(p) by {
        let k = choose|k: int| 0 <= k < before.len() && before[k] == p;
        if k < pending.len() {
            assert(pending_after[k] == p);
        }
    }
    assert forall|a: usize| missing.contains(a) implies #[trigger] missing_after.contains(a) by {
        let k = choose|k: int| 0 <= k < missing.len() && missing[k] == a;
        assert(missing_after[k] == a);
    }
    assert forall|i: int| 0 <= i < pending_after.len() implies (#[trigger] pending_after[i]) == 0
        || rt.reaches(mem, pending_after[i]) by {
        if i < pending.len() {
            assert(before[i] == pending_after[i]);
        } else if pending_after[i] != 0 {
            lemma_step_reachable(rt.roots(mem), rt.heap, mem, ptr, pending_after[i]);
        }
    }
    assert forall|p: usize, q: usize|
        now.contains(p) && #[trigger] points_to(rt.heap, mem, p, q) implies q == 0
        || now.contains(q) || pending_after.contains(q) by {
        if p == ptr {
            let i = choose|i: int|
                0 <= i < rt.heap[p].gc_ptr_fields.len() && mem.contains_key(
                    #[trigger] field_addr(rt.heap, p, i),
                ) && mem[field_addr(rt.heap, p, i)] == q;
            assert(pending_after.contains(q));
        } else {
            assert(visited.contains(p));
        }
    }
    assert forall|i: int| 0 <= i < missing_after.len() implies rt.needs(
        mem,
        #[trigger] missing_after[i],
    ) && !mem.contains_key(missing_after[i]) by {
        if i < missing.len() {
            assert(missing[i] == missing_after[i]);
        } else {
            let k = choose|k: int|
                0 <= k < rt.heap[ptr].gc_ptr_fields.len() && #[trigger] field_addr(rt.heap, ptr, k)
                    == missing_after[i];
            assert(field_addr(rt.heap, ptr, k) == missing_after[i]);
        }
    }
}

/// The first `n` references of the value at `ptr` were looked up: their words
/// were put behind the pending pointers, or their addresses behind the missing
/// ones.
spec fn looked_up(
    rt: RuntimeModel,
    mem: Map<usize, usize>,
    ptr: usize,
    n: int,
    pending: Seq<usize>,
    missing: Seq<usize>,
    pending_after: Seq<usize>,
    missing_after: Seq<usize>,
) -> bool {
    &&& pending.len() <= pending_after.len()
    &&& missing.len() <= missing_after.len()
    &&& forall|i: int| 0 <= i < pending.len() ==> #[trigger] pending_after[i] == pending[i]
    &&& forall|i: int| 0 <= i < missing.len() ==> #[trigger] missing_after[i] == missing[i]
    &&& forall|i: int|
        pending.len() <= i < pending_after.len() ==> points_to(
            rt.heap,
            mem,
            ptr,
            #[trigger] pending_after[i],
        )
    &&& forall|i: int|
        missing.len() <= i < missing_after.len() ==> !mem.contains_key(#[trigger] missing_after[i])
            && exists|k: int|
            0 <= k < rt.heap[ptr].gc_ptr_fields.len() && #[trigger] field_addr(rt.heap, ptr, k)
                == missing_after[i]
    &&& forall|k: int|
        #![trigger field_addr(rt.heap, ptr, k)]
        0 <= k < n ==> if mem.contains_key(field_addr(rt.heap, ptr, k)) {
            pending_after.contains(mem[field_addr(rt.heap, ptr, k)])
        } else {
            missing_after.contains(field_addr(rt.heap, ptr, k))
        }
}

/// Looks up the references of the value at `ptr`.
fn look_up(
    ptr: usize,
    ty: &RtTypeData,
    memory: &HashMap<usize, usize>,
    pending: &mut Vec<usize>,
    missing: &mut Vec<usize>,
    Ghost(rt): Ghost<RuntimeModel>,
)
    requires
        rt.wf(),
        rt.heap.contains_key(ptr),
        rt.heap[ptr] == ty@,
    ensures
        looked_up(
            rt,
            memory@,
            ptr,
            ty@.gc_ptr_fields.len() as int,
            old(pending)@,
            old(missing)@,
            final(pending)@,
            final(missing)@,
        ),
{
    let mut i: usize = 0;
    while i < ty.gc_ptr_fields.len()
        invariant
            rt.wf(),
            rt.heap.contains_key(ptr),
            rt.heap[ptr] == ty@,
            i <= ty.gc_ptr_fields.len(),
            looked_up(
                rt,
                memory@,
                ptr,
                i as int,
                old(pending)@,
                old(missing)@,
                pending@,
                missing@,
            ),
        decreases ty.gc_ptr_fields.len() - i,
    {
        let ghost pending_before = pending@;
        let ghost missing_before = missing@;
        assert(fields_addressable(ptr, rt.heap[ptr]));
        assert(ptr + rt.heap[ptr].gc_ptr_fields[i as int] <= usize::MAX);
        let addr: usize = ptr + ty.gc_ptr_fields[i];
        assert(addr == field_addr(rt.heap, ptr, i as int));
        match memory.get(&addr) {
            Some(word) => {
                pending.push(*word);
                assert(pending@.last() == *word);
                assert(points_to(rt.heap, memory@, ptr, *word));
            },
            None => {
                missing.push(addr);
                assert(missing@.last() == addr);
            },
        }
        proof {
            assert forall|x: usize| pending_before.contains(x) implies #[trigger] pending@.contains(
                x,
            ) by {
                let k = choose|k: int| 0 <= k < pending_before.len() && pending_before[k] == x;
                assert(pending@[k] == x);
            }
            assert forall|x: usize| missing_before.contains(x) implies #[trigger] missing@.contains(
                x,
            ) by {
                let k = choose|k: int| 0 <= k < missing_before.len() && missing_before[k] == x;
                assert(missing@[k] == x);
            }
            assert forall|j: int|
                old(pending)@.len() <= j < pending@.len() implies points_to(
                rt.heap,
                memory@,
                ptr,
                #[trigger] pending@[j],
            ) by {
                if j < pending_before.len() {
                    assert(pending_before[j] == pending@[j]);
                }
            }
            assert forall|j: int| 0 <= j < old(pending)@.len() implies #[trigger] pending@[j]
                == old(pending)@[j] by {
                assert(pending_before[j] == pending@[j]);
            }
            assert forall|j: int| 0 <= j < old(missing)@.len() implies #[trigger] missing@[j]
                == old(missing)@[j] by {
                assert(missing_before[j] == missing@[j]);
            }
            assert forall|j: int| old(missing)@.len() <= j < missing@.len() implies !memory@.contains_key(
                #[trigger] missing@[j],
            ) && exists|k: int|
                0 <= k < rt.heap[ptr].gc_ptr_fields.len() && #[trigger] field_addr(rt.heap, ptr, k)
                    == missing@[j] by {
                if j < missing_before.len() {
                    assert(missing_before[j] == missing@[j]);
                }
            }
        }
        i = i + 1;
    }
}

impl Runtime {
    /// Finds everything that can be reached.
    fn trace(&self, memory: &HashMap<usize, usize>) -> (res: Result<HashSet<usize>, SweepError>)
        requires
            self.wf(),
        ensures
            match res {
                Ok(found) => {
                    &&& !self@.dangles(memory@)
                    &&& forall|a: usize| #[trigger]
                        self@.needs(memory@, a) ==> memory@.contains_key(a)
                    &&& forall|p: usize|
                        found@.contains(p) == #[trigger] self@.reaches(memory@, p)
                },
                Err(SweepError::Dangling(p)) => {
                    self@.reaches(memory@, p) && !self@.heap.contains_key(p)
                },
                Err(SweepError::Unread(addrs)) => {
                    &&& !self@.dangles(memory@)
                    &&& addrs@.len() > 0
                    &&& forall|a: usize|
                        #![trigger addrs@.contains(a)]
                        #![trigger self@.needs(memory@, a)]
                        addrs@.contains(a) <==> self@.needs(memory@, a) && !memory@.contains_key(a)
                },
            },
    {
        let ghost rt = self@;
        let ghost mem = memory@;
        let mut visited: HashSet<usize> = HashSet::new();
        let (mut pending, mut missing) = self.frame_roots(memory);
        let ghost framed = pending@;
        let held = keys_of(&self.extern_refcount);
        let mut i: usize = 0;
        while i < held.len()
            invariant
                rt == self@,
                mem == memory@,
                held@.to_set() == rt.refcounts.dom(),
                i <= held.len(),
                pending@ =~= framed + held@.take(i as int),
            decreases held.len() - i,
        {
            pending.push(held[i]);
            i = i + 1;
        }
        proof {
            assert(held@.take(i as int) =~= held@);
            assert forall|k: int| 0 <= k < pending@.len() implies rt.roots(mem).contains(
                #[trigger] pending@[k],
            ) by {
                if k >= framed.len() {
                    assert(held@.to_set().contains(held@[k - framed.len()]));
                }
            }
            assert forall|p: usize| #[trigger] rt.roots(mem).contains(p) implies pending@.contains(
                p,
            ) by {
                if rt.refcounts.contains_key(p) {
                    assert(held@.to_set().contains(p));
                    let k = choose|k: int| 0 <= k < held@.len() && held@[k] == p;
                    assert(pending@[framed.len() + k] == p);
                } else {
                    let a = choose|a: usize|
                        rt.is_root_slot(a) && #[trigger] mem.contains_key(a) && mem[a] == p;
                    assert(framed.contains(p));
                    let k = choose|k: int| 0 <= k < framed.len() && framed[k] == p;
                    assert(pending@[k] == p);
                }
            }
            assert forall|k: int| 0 <= k < pending@.len() implies (#[trigger] pending@[k]) == 0
                || rt.reaches(mem, pending@[k]) by {
                if pending@[k] != 0 {
                    lemma_root_reachable(rt.roots(mem), rt.heap, mem, pending@[k]);
                }
            }
            assert(tracing(rt, mem, visited@, pending@, missing@));
        }
        while pending.len() > 0
            invariant
                self.wf(),
                rt == self@,
                mem == memory@,
                tracing(rt, mem, visited@, pending@, missing@),
                visited@.finite(),
                visited@.subset_of(self.heap@.dom()),
            decreases self.heap@.dom().len() - visited@.len(), pending.len(),
        {
            let ghost before = pending@;
            let base_ptr: usize = match pending.pop() {
                Some(ptr) => ptr,
                None => 0,
            };
            let ghost rest = pending@;
            proof {
                assert(before =~= rest.push(base_ptr));
                assert(before.drop_last() =~= rest);
                assert(before.last() == base_ptr);
                vstd::set_lib::lemma_len_subset(visited@, self.heap@.dom());
            }
            if base_ptr == 0 || visited.contains(&base_ptr) {
                proof {
                    lemma_pending_popped(rt, mem, visited@, before, missing@);
                }
                continue;
            }
            assert(rt.reaches(mem, base_ptr)) by {
                assert(before[before.len() - 1] == base_ptr);
            }
            let ty = match self.heap.get(&base_ptr) {
                Some(ty) => ty,
                None => {
                    return Err(SweepError::Dangling(base_ptr));
                },
            };
            let ghost missing_before = missing@;
            let ghost visited_before = visited@;
            visited.insert(base_ptr);
            look_up(base_ptr, ty, memory, &mut pending, &mut missing, Ghost(rt));
            proof {
                lemma_visited(
                    rt,
                    mem,
                    visited_before,
                    rest,
                    missing_before,
                    base_ptr,
                    pending@,
                    missing@,
                );
                vstd::set_lib::lemma_len_subset(visited@, self.heap@.dom());
            }
        }
        proof {
            assert(pending@ =~= Seq::empty());
            lemma_traced(rt, mem, visited@, missing@);
        }
        if missing.len() > 0 {
            return Err(SweepError::Unread(missing));
        }
        assert forall|a: usize| #[trigger] rt.needs(mem, a) implies mem.contains_key(a) by {
            assert(!missing@.contains(a));
        }
        Ok(visited)
    }

    /// Gives up all values that cannot be reached, and lists them with their
    /// layouts. `memory` holds the words of memory that are known: the ones that
    /// have to be known are named where one of them is missing.
    pub fn sweep(&mut self, memory: &HashMap<usize, usize>) -> (res: Result<
        Vec<(usize, Layout)>,
        SweepError,
    >)
        requires
            old(self).wf(),
        ensures
            final(self).wf(),
            match res {
                Ok(freed) => {
                    &&& !old(self)@.dangles(memory@)
                    &&& forall|a: usize| #[trigger]
                        old(self)@.needs(memory@, a) ==> memory@.contains_key(a)
                    &&& final(self)@ == old(self)@.swept(memory@)
                    &&& freed@.no_duplicates()
                    &&& forall|ptr: usize, layout: Layout| #[trigger]
                        freed@.contains((ptr, layout)) <==> old(self)@.heap.contains_key(ptr)
                            && !old(self)@.reaches(memory@, ptr) && layout
                            == old(self)@.heap[ptr].layout
                },
                Err(SweepError::Dangling(p)) => {
                    &&& final(self)@ == old(self)@
                    &&& old(self)@.reaches(memory@, p)
                    &&& !old(self)@.heap.contains_key(p)
                },
                Err(SweepError::Unread(addrs)) => {
                    &&& final(self)@ == old(self)@
                    &&& !old(self)@.dangles(memory@)
                    &&& addrs@.len() > 0
                    &&& forall|a: usize|
                        #![trigger addrs@.contains(a)]
                        #![trigger old(self)@.needs(memory@, a)]
                        addrs@.contains(a) <==> old(self)@.needs(memory@, a)
                            && !memory@.contains_key(a)
                },
            },
    {
        let ghost rt = self@;
        let ghost mem = memory@;
        let found = match self.trace(memory) {
            Ok(found) => found,
            Err(error) => {
                return Err(error);
            },
        };
        let all = keys_of(&self.heap);
        let mut freed: Vec<(usize, Layout)> = Vec::new();
        let mut i: usize = 0;
        while i < all.len()
            invariant
                self.funcs.wf(),
                self.types.wf(),
                rt.wf(),
                rt == old(self)@,
                mem == memory@,
                all@.no_duplicates(),
                all@.to_set() == rt.heap.dom(),
                forall|p: usize| found@.contains(p) == #[trigger] rt.reaches(mem, p),
                i <= all.len(),
                self@ == (RuntimeModel { heap: self@.heap, ..rt }),
                forall|p: usize| #[trigger]
                    self@.heap.contains_key(p) <==> rt.heap.contains_key(p) && !(rt.reaches(mem, p)
                        == false && all@.take(i as int).contains(p)),
                forall|p: usize| #[trigger]
                    self@.heap.contains_key(p) ==> self@.heap[p] == rt.heap[p],
                forall|k: int|
                    0 <= k < freed@.len() ==> rt.heap.contains_key((#[trigger] freed@[k]).0)
                        && !rt.reaches(mem, freed@[k].0) && freed@[k].1
                        == rt.heap[freed@[k].0].layout && all@.take(i as int).contains(freed@[k].0),
                forall|p: usize|
                    all@.take(i as int).contains(p) && !rt.reaches(mem, p) ==> #[trigger] freed@.contains(
                        (p, rt.heap[p].layout),
                    ),
                freed@.no_duplicates(),
            decreases all.len() - i,
        {
            let ptr: usize = all[i];
            let ghost front = all@.take(i as int);
            let ghost longer = all@.take(i + 1);
            let ghost freed_before = freed@;
            let ghost heap_before = self@.heap;
            proof {
                assert(all@.to_set().contains(ptr));
                assert(longer =~= front.push(ptr));
                assert(!front.contains(ptr)) by {
                    if front.contains(ptr) {
                        let k = choose|k: int| 0 <= k < front.len() && front[k] == ptr;
                        assert(all@[k] == all@[i as int]);
                    }
                }
                assert forall|p: usize| #[trigger] longer.contains(p) <==> front.contains(p) || p
                    == ptr by {
                    if front.contains(p) {
                        let k = choose|k: int| 0 <= k < front.len() && front[k] == p;
                        assert(longer[k] == p);
                    }
                    if p == ptr {
                        assert(longer[i as int] == p);
                    }
                    if longer.contains(p) {
                        let k = choose|k: int| 0 <= k < longer.len() && longer[k] == p;
                        if k < i {
                            assert(front[k] == p);
                        }
                    }
                }
            }
            if !found.contains(&ptr) {
                assert(rt.heap.dom().contains(ptr));
                assert(rt.heap.contains_key(ptr));
                assert(self@.heap.contains_key(ptr));
                assert(heap_before[ptr] == self.heap@[ptr]@);
                if let Some(ty) = self.heap.remove(&ptr) {
                    freed.push((ptr, ty.layout));
                    assert(self@.heap =~= heap_before.remove(ptr));
                    assert(freed@.last() == (ptr, rt.heap[ptr].layout));
                    proof {
                        assert forall|x: (usize, Layout)| freed_before.contains(
                            x,
                        ) implies #[trigger] freed@.contains(x) by {
                            let k = choose|k: int| 0 <= k < freed_before.len() && freed_before[k] == x;
                            assert(freed@[k] == x);
                        }
                    }
                }
            }
            i = i + 1;
        }
        proof {
            assert(all@.take(i as int) =~= all@);
            assert forall|p: usize| #[trigger] rt.heap.contains_key(p) implies all@.contains(p) by {
                assert(all@.to_set().contains(p));
            }
            assert(self@.heap =~= kept(rt.roots(mem), rt.heap, mem));
            assert forall|ptr: usize, layout: Layout| #[trigger] freed@.contains((ptr, layout))
                implies rt.heap.contains_key(ptr) && !rt.reaches(mem, ptr) && layout
                == rt.heap[ptr].layout by {
                let k = choose|k: int| 0 <= k < freed@.len() && freed@[k] == (ptr, layout);
                assert(freed@[k].0 == ptr);
            }
        }
        Ok(freed)
    }
}

/// The addresses of the slots of a frame whose roots have those offsets.
pub open spec fn frame_slots(frame_ptr: usize, offsets: Seq<usize>) -> Seq<usize> {
    Seq::new(offsets.len(), |i: int| (frame_ptr - offsets[i]) as usize)
}

impl RuntimeModel {
    /// Whether the runtime knows the function, and its frame at `frame_ptr` lies
    /// in memory.
    pub open spec fn can_push(self, func: RtFuncId, frame_ptr: usize) -> bool {
        &&& 0 <= key_pos(func.key) < self.funcs.len()
        &&& forall|i: int|
            0 <= i < self.funcs[key_pos(func.key)].len() ==> (
            #[trigger] self.funcs[key_pos(func.key)][i]) <= frame_ptr
    }

    /// With one more frame, of that function, on the stack.
    pub open spec fn pushed(self, func: RtFuncId, frame_ptr: usize) -> RuntimeModel {
        RuntimeModel {
            stack: self.stack.push(frame_slots(frame_ptr, self.funcs[key_pos(func.key)])),
            ..self
        }
    }

    /// Without the last frame on the stack.
    pub open spec fn popped(self) -> RuntimeModel {
        RuntimeModel {
            stack: if self.stack.len() == 0 {
                self.stack
            } else {
                self.stack.drop_last()
            },
            ..self
        }
    }
}

impl Runtime {
    /// Puts a frame of the function at `frame_ptr` on the stack, if the runtime
    /// knows the function and the frame lies in memory. Gives the addresses of the
    /// slots that hold references into managed memory: they are to be set to null
    /// before the next sweep.
    pub fn push_stack_frame(&mut self, func: RtFuncId, frame_ptr: usize) -> (slots: Option<
        Vec<usize>,
    >)
        requires
            old(self).wf(),
        ensures
            final(self).wf(),
            slots is Some <==> old(self)@.can_push(func, frame_ptr),
            final(self)@ == (if slots is Some {
                old(self)@.pushed(func, frame_ptr)
            } else {
                old(self)@
            }),
            slots matches Some(slots) ==> slots@ == final(self)@.stack.last(),
    {
        let data = match self.funcs.get(func.key) {
            Some(data) => data,
            None => {
                return None;
            },
        };
        let ghost offsets = data.roots@;
        assert(self@.funcs[key_pos(func.key)] == offsets);
        let mut slots: Vec<usize> = Vec::new();
        let mut roots: Vec<usize> = Vec::new();
        let mut i: usize = 0;
        while i < data.roots.len()
            invariant
                self.wf(),
                self@ == old(self)@,
                0 <= key_pos(func.key) < self@.funcs.len(),
                offsets == data.roots@,
                self@.funcs[key_pos(func.key)] == offsets,
                i <= data.roots.len(),
                forall|k: int| 0 <= k < i ==> (#[trigger] offsets[k]) <= frame_ptr,
                slots@ =~= frame_slots(frame_ptr, offsets).take(i as int),
                roots@ =~= slots@,
            decreases data.roots.len() - i,
        {
            let offset: usize = data.roots[i];
            if offset > frame_ptr {
                return None;
            }
            slots.push(frame_ptr - offset);
            roots.push(frame_ptr - offset);
            i = i + 1;
        }
        let ghost before = self@;
        self.stack.push(RtStackFrame { roots });
        assert(roots@ =~= frame_slots(frame_ptr, offsets));
        assert(self@.stack =~= before.pushed(func, frame_ptr).stack);
        Some(slots)
    }

    /// Takes the last frame from the stack.
    pub fn pop_stack_frame(&mut self)
        requires
            old(self).wf(),
        ensures
            final(self).wf(),
            final(self)@ == old(self)@.popped(),
    {
        let ghost before = self@;
        let _ = self.stack.pop();
        assert(self@.stack =~= before.popped().stack);
    }

    /// What the runtime knows of a type.
    pub fn type_data(&self, ty: RtTypeId) -> (data: Option<RtTypeData>)
        requires
            self.wf(),
        ensures
            data is Some <==> 0 <= key_pos(ty.key) < self@.types.len(),
            data matches Some(data) ==> data@ == self@.types[key_pos(ty.key)],
    {
        match self.types.get(ty.key) {
            Some(data) => Some(data.clone()),
            None => None,
        }
    }
}

/// Used to give program layout information to the runtime before running it
pub struct RuntimeBuilder;

impl RuntimeBuilder {
    /// Whether the runtime logs what happens.
    pub fn log_settings(rt: &mut Runtime, enable: bool)
        requires
            old(rt).wf(),
        ensures
            final(rt).wf(),
            final(rt)@ == (RuntimeModel { log_enabled: enable, ..old(rt)@ }),
    {
        rt.log_enabled = enable;
    }

    /// A new function, to be defined later. Until then it has no roots.
    pub fn declare_func(rt: &mut Runtime) -> (func: RtFuncId)
        requires
            old(rt).wf(),
            old(rt)@.funcs.len() < MAX_SLOTS,
        ensures
            final(rt).wf(),
            func == rt_func_at(old(rt)@.funcs.len() as int),
            final(rt)@ == (RuntimeModel {
                funcs: old(rt)@.funcs.push(Seq::empty()),
                ..old(rt)@
            }),
    {
        let ghost before = rt@;
        let roots: Vec<usize> = Vec::new();
        let key = rt.funcs.insert(RtFuncData { roots });
        assert(rt@.funcs =~= before.funcs.push(Seq::empty()));
        RtFuncId { key }
    }

    /// New functions, to be defined later.
    pub fn declare_funcs(rt: &mut Runtime, count: usize) -> (funcs: Vec<RtFuncId>)
        requires
            old(rt).wf(),
            old(rt)@.funcs.len() + count <= MAX_SLOTS,
        ensures
            final(rt).wf(),
            funcs@ == Seq::new(count as nat, |i: int| rt_func_at(old(rt)@.funcs.len() + i)),
            final(rt)@ == (RuntimeModel {
                funcs: old(rt)@.funcs + Seq::new(count as nat, |i: int| Seq::<usize>::empty()),
                ..old(rt)@
            }),
    {
        let ghost before = rt@;
        let mut funcs: Vec<RtFuncId> = Vec::new();
        assert(before.funcs =~= before.funcs + Seq::new(0, |i: int| Seq::<usize>::empty()));
        while funcs.len() < count
            invariant
                rt.wf(),
                before == old(rt)@,
                before.funcs.len() + count <= MAX_SLOTS,
                funcs.len() <= count,
                funcs@ =~= Seq::new(funcs@.len(), |i: int| rt_func_at(before.funcs.len() + i)),
                rt@ == (RuntimeModel {
                    funcs: before.funcs + Seq::new(funcs@.len(), |i: int| Seq::<usize>::empty()),
                    ..before
                }),
            decreases count - funcs.len(),
        {
            let ghost now = rt@.funcs;
            let func = RuntimeBuilder::declare_func(rt);
            funcs.push(func);
            assert(now.push(Seq::empty()) =~= before.funcs + Seq::new(
                funcs@.len(),
                |i: int| Seq::<usize>::empty(),
            ));
        }
        funcs
    }

    /// Says where the roots of a function are.
    pub fn define_func(rt: &mut Runtime, func: RtFuncId, data: RtFuncData)
        requires
            old(rt).wf(),
            0 <= key_pos(func.key) < old(rt)@.funcs.len(),
        ensures
            final(rt).wf(),
            final(rt)@ == (RuntimeModel {
                funcs: old(rt)@.funcs.update(key_pos(func.key), data.roots@),
                ..old(rt)@
            }),
    {
        let ghost before = rt@;
        rt.funcs.set(func.key, data);
        assert(rt@.funcs =~= before.funcs.update(key_pos(func.key), data.roots@));
    }

    /// A new type.
    pub fn declare_define_type(rt: &mut Runtime, ty: RtTypeData) -> (id: RtTypeId)
        requires
            old(rt).wf(),
            old(rt)@.types.len() < MAX_SLOTS,
        ensures
            final(rt).wf(),
            id == rt_type_at(old(rt)@.types.len() as int),
            final(rt)@ == (RuntimeModel { types: old(rt)@.types.push(ty@), ..old(rt)@ }),
    {
        let ghost before = rt@;
        let key = rt.types.insert(ty);
        assert(rt@.types =~= before.types.push(ty@));
        RtTypeId { key }
    }

    /// New types.
    pub fn declare_define_types(rt: &mut Runtime, types: &Vec<RtTypeData>) -> (ids: Vec<RtTypeId>)
        requires
            old(rt).wf(),
            old(rt)@.types.len() + types@.len() <= MAX_SLOTS,
        ensures
            final(rt).wf(),
            ids@ == Seq::new(types@.len(), |i: int| rt_type_at(old(rt)@.types.len() + i)),
            final(rt)@ == (RuntimeModel {
                types: old(rt)@.types + types@.map_values(|ty: RtTypeData| ty@),
                ..old(rt)@
            }),
    {
        let ghost before = rt@;
        let ghost models = types@.map_values(|ty: RtTypeData| ty@);
        let mut ids: Vec<RtTypeId> = Vec::new();
        let mut i: usize = 0;
        assert(before.types =~= before.types + models.take(0));
        while i < types.len()
            invariant
                rt.wf(),
                before == old(rt)@,
                models == types@.map_values(|ty: RtTypeData| ty@),
                before.types.len() + types@.len() <= MAX_SLOTS,
                i <= types.len(),
                ids@ =~= Seq::new(i as nat, |k: int| rt_type_at(before.types.len() + k)),
                rt@ == (RuntimeModel { types: before.types + models.take(i as int), ..before }),
            decreases types.len() - i,
        {
            let ghost now = rt@.types;
            let id = RuntimeBuilder::declare_define_type(rt, types[i].clone());
            ids.push(id);
            assert(now.push(models[i as int]) =~= before.types + models.take(i + 1));
            i = i + 1;
        }
        assert(models.take(i as int) =~= models);
        ids
    }
}

/// A pointer to managed Emscript memory
pub struct Gc<T> {
    data: usize,
    _p: PhantomData<T>,
}

impl<T> Gc<T> {
    pub closed spec fn ptr(&self) -> usize {
        self.data
    }

    /// Holds a pointer to a value that the runtime tracks.
    pub fn new(rt: &mut Runtime, data: usize) -> (gc: Gc<T>)
        requires
            old(rt).wf(),
            old(rt)@.refcounts.contains_key(data) ==> old(rt)@.refcounts[data] < usize::MAX,
        ensures
            final(rt).wf(),
            gc.ptr() == data,
            final(rt)@ == (RuntimeModel {
                refcounts: incremented(old(rt)@.refcounts, data),
                ..old(rt)@
            }),
    {
        rt.refcount_increment(data);
        Gc { data, _p: PhantomData }
    }

    pub fn as_ptr(&self) -> (ptr: usize)
        ensures
            ptr == self.ptr(),
    {
        self.data
    }

    /// Holds the pointer once more.
    pub fn clone_in(&self, rt: &mut Runtime) -> (gc: Gc<T>)
        requires
            old(rt).wf(),
            old(rt)@.refcounts.contains_key(self.ptr()) ==> old(rt)@.refcounts[self.ptr()]
                < usize::MAX,
        ensures
            final(rt).wf(),
            gc.ptr() == self.ptr(),
            final(rt)@ == (RuntimeModel {
                refcounts: incremented(old(rt)@.refcounts, self.ptr()),
                ..old(rt)@
            }),
    {
        Gc::new(rt, self.data)
    }

    /// Holds the pointer no more.
    pub fn release(self, rt: &mut Runtime) -> (release: Release)
        requires
            old(rt).wf(),
        ensures
            final(rt).wf(),
            final(rt)@ == (RuntimeModel {
                refcounts: decremented(old(rt)@.refcounts, self.ptr()),
                ..old(rt)@
            }),
            release == release_of(old(rt)@.refcounts, self.ptr()),
    {
        rt.refcount_decrement(self.data)
    }
}

/// Holding a pointer and letting go of it again changes nothing. A safepoint is
/// due then only where the pointer was not held before.
pub proof fn law_increment_decrement(counts: Map<usize, usize>, ptr: usize)
    requires
        counts.contains_key(ptr) ==> 0 < counts[ptr] < usize::MAX,
    ensures
        decremented(incremented(counts, ptr), ptr) == counts,
        release_of(incremented(counts, ptr), ptr) == (if counts.contains_key(ptr) {
            Release::Kept
        } else {
            Release::Released
        }),
{
    assert(decremented(incremented(counts, ptr), ptr) =~= counts);
}

/// A frame that is put on the stack and taken from it again leaves the runtime as
/// it was.
pub proof fn law_push_pop(rt: RuntimeModel, func: RtFuncId, frame_ptr: usize)
    requires
        rt.can_push(func, frame_ptr),
    ensures
        rt.pushed(func, frame_ptr).popped() == rt,
{
    assert(rt.pushed(func, frame_ptr).popped().stack =~= rt.stack);
}

/// A second sweep has nothing to give up.
pub proof fn law_sweep_twice(rt: RuntimeModel, mem: Map<usize, usize>)
    ensures
        rt.swept(mem).swept(mem) == rt.swept(mem),
{
    law_kept_twice(rt.roots(mem), rt.heap, mem);
}

/// Letting go of a pointer that is held and holding it again changes nothing.
pub proof fn law_decrement_increment(counts: Map<usize, usize>, ptr: usize)
    requires
        counts.contains_key(ptr),
        counts[ptr] > 0,
    ensures
        incremented(decremented(counts, ptr), ptr) == counts,
{
    assert(incremented(decremented(counts, ptr), ptr) =~= counts);
}

/// A value that is held from outside, or by a slot of a frame, stays through a
/// sweep, and so does every value that one that stays has a reference to.
pub proof fn law_sweep_keeps(
    rt: RuntimeModel,
    mem: Map<usize, usize>,
    ptr: usize,
    slot: usize,
    next: usize,
)
    requires
        rt.wf(),
        rt.heap.contains_key(ptr),
    ensures
        rt.refcounts.contains_key(ptr) ==> rt.swept(mem).heap.contains_key(ptr),
        rt.is_root_slot(slot) && mem.contains_key(slot) && mem[slot] == ptr ==> rt.swept(
            mem,
        ).heap.contains_key(ptr),
        rt.swept(mem).heap.contains_key(ptr) && points_to(rt.heap, mem, ptr, next)
            && rt.heap.contains_key(next) ==> rt.swept(mem).heap.contains_key(next),
        rt.swept(mem).heap.contains_key(ptr) ==> rt.swept(mem).heap[ptr] == rt.heap[ptr],
{
    if rt.roots(mem).contains(ptr) {
        law_roots_kept(rt.roots(mem), rt.heap, mem, ptr);
    }
    if rt.swept(mem).heap.contains_key(ptr) && points_to(rt.heap, mem, ptr, next)
        && rt.heap.contains_key(next) {
        law_kept_closed(rt.roots(mem), rt.heap, mem, ptr, next);
    }
}

/// A frame whose slots are null holds nothing: with it on the stack the same
/// pointers can be reached, and a sweep keeps the same values.
pub proof fn law_null_frame_holds_nothing(
    rt: RuntimeModel,
    mem: Map<usize, usize>,
    func: RtFuncId,
    frame_ptr: usize,
    ptr: usize,
)
    requires
        rt.can_push(func, frame_ptr),
        forall|addr: usize| #[trigger]
            rt.pushed(func, frame_ptr).stack.last().contains(addr) ==> mem.contains_key(addr)
                && mem[addr] == 0,
    ensures
        rt.pushed(func, frame_ptr).reaches(mem, ptr) == rt.reaches(mem, ptr),
        rt.pushed(func, frame_ptr).swept(mem).heap == rt.swept(mem).heap,
{
    let after = rt.pushed(func, frame_ptr);
    assert forall|p: usize| p != 0 implies #[trigger] after.roots(mem).contains(p) == rt.roots(
        mem,
    ).contains(p) by {
        if after.roots(mem).contains(p) && !rt.refcounts.contains_key(p) {
            let addr = choose|addr: usize|
                in_frames(after.stack, addr) && #[trigger] mem.contains_key(addr) && mem[addr] == p;
            let (i, j) = choose|i: int, j: int|
                0 <= i < after.stack.len() && 0 <= j < after.stack[i].len()
                    && #[trigger] after.stack[i][j] == addr;
            if i == rt.stack.len() {
                assert(after.stack.last().contains(addr));
            } else {
                assert(rt.stack[i][j] == addr);
            }
        }
        if rt.roots(mem).contains(p) && !rt.refcounts.contains_key(p) {
            let addr = choose|addr: usize|
                in_frames(rt.stack, addr) && #[trigger] mem.contains_key(addr) && mem[addr] == p;
            let (i, j) = choose|i: int, j: int|
                0 <= i < rt.stack.len() && 0 <= j < rt.stack[i].len()
                    && #[trigger] rt.stack[i][j] == addr;
            assert(after.stack[i][j] == addr);
        }
    }
    assert forall|p: usize| #[trigger] after.reaches(mem, p) == rt.reaches(mem, p) by {
        if after.reaches(mem, p) {
            lemma_same_roots(after.roots(mem), rt.roots(mem), rt.heap, mem, p);
        }
        if rt.reaches(mem, p) {
            lemma_same_roots(rt.roots(mem), after.roots(mem), rt.heap, mem, p);
        }
    }
    assert forall|p: usize| #[trigger] after.swept(mem).heap.contains_key(p) == rt.swept(
        mem,
    ).heap.contains_key(p) by {
        assert(after.reaches(mem, p) == rt.reaches(mem, p));
    }
    assert(after.swept(mem).heap =~= rt.swept(mem).heap);
}

/// A new value whose references are null lets nothing new be reached, and takes
/// nothing away.
pub proof fn law_null_value_holds_nothing(
    rt: RuntimeModel,
    mem: Map<usize, usize>,
    ptr: usize,
    ty: RtTypeModel,
    p: usize,
)
    requires
        !rt.heap.contains_key(ptr),
        forall|i: int|
            0 <= i < ty.gc_ptr_fields.len() ==> mem.contains_key(
                #[trigger] field_addr(rt.allocated(ptr, ty).heap, ptr, i),
            ) && mem[field_addr(rt.allocated(ptr, ty).heap, ptr, i)] == 0,
    ensures
        rt.allocated(ptr, ty).reaches(mem, p) == rt.reaches(mem, p),
        p != ptr ==> rt.allocated(ptr, ty).swept(mem).heap.contains_key(p) == rt.swept(
            mem,
        ).heap.contains_key(p),
{
    let after = rt.allocated(ptr, ty);
    assert(after.heap == rt.heap.insert(ptr, ty));
    assert forall|i: int| 0 <= i < ty.gc_ptr_fields.len() implies mem[#[trigger] field_addr(
        rt.heap.insert(ptr, ty),
        ptr,
        i,
    )] == 0 by {
        assert(mem.contains_key(field_addr(after.heap, ptr, i)));
    }
    assert forall|from: usize, to: usize| to != 0 implies #[trigger] points_to(
        after.heap,
        mem,
        from,
        to,
    ) == points_to(rt.heap, mem, from, to) by {
        lemma_other_value_points(rt.heap, mem, ptr, ty, from, to);
    }
    if after.reaches(mem, p) {
        lemma_same_steps(rt.roots(mem), after.heap, rt.heap, mem, p);
    }
    if rt.reaches(mem, p) {
        lemma_same_steps(rt.roots(mem), rt.heap, after.heap, mem, p);
    }
}

/// A sweep gives up only what cannot be reached, and all of it.
pub proof fn law_sweep_exact(rt: RuntimeModel, mem: Map<usize, usize>, ptr: usize)
    requires
        rt.heap.contains_key(ptr),
    ensures
        rt.swept(mem).heap.contains_key(ptr) == rt.reaches(mem, ptr),
{
}

/// How often a pointer is held from outside.
pub open spec fn held(counts: Map<usize, usize>, ptr: usize) -> int {
    if counts.contains_key(ptr) {
        counts[ptr] as int
    } else {
        0
    }
}

/// A pointer that is held once more is held one time more, and one that is held once
/// less one time less, as long as it was held. Only a pointer that is held is known,
/// and how often others are held stays as it was.
pub proof fn law_counts(counts: Map<usize, usize>, ptr: usize, other: usize)
    requires
        forall|p: usize| #[trigger] counts.contains_key(p) ==> counts[p] > 0,
        held(counts, ptr) < usize::MAX,
    ensures
        held(incremented(counts, ptr), ptr) == held(counts, ptr) + 1,
        held(counts, ptr) > 0 ==> held(decremented(counts, ptr), ptr) == held(counts, ptr) - 1,
        held(counts, ptr) == 0 ==> decremented(counts, ptr) == counts,
        incremented(counts, ptr).contains_key(other) <==> held(incremented(counts, ptr), other) > 0,
        decremented(counts, ptr).contains_key(other) <==> held(decremented(counts, ptr), other) > 0,
        other != ptr ==> held(incremented(counts, ptr), other) == held(counts, other),
        other != ptr ==> held(decremented(counts, ptr), other) == held(counts, other),
        release_of(counts, ptr) == (if held(counts, ptr) == 0 {
            Release::Unknown
        } else if held(decremented(counts, ptr), ptr) == 0 {
            Release::Released
        } else {
            Release::Kept
        }),
{
}

/// While a frame is on the stack, what its slots refer to is held, and what the other
/// frames hold still is: the slots of the frame lie as far below the frame pointer as
/// the runtime was told.
pub proof fn law_push_adds_slots(rt: RuntimeModel, func: RtFuncId, frame_ptr: usize, addr: usize)
    requires
        rt.can_push(func, frame_ptr),
    ensures
        rt.pushed(func, frame_ptr).is_root_slot(addr) <==> rt.is_root_slot(addr)
            || rt.funcs[key_pos(func.key)].contains((frame_ptr - addr) as usize) && addr
            <= frame_ptr,
        rt.pushed(func, frame_ptr).heap == rt.heap,
        rt.pushed(func, frame_ptr).refcounts == rt.refcounts,
{
    let after = rt.pushed(func, frame_ptr);
    let offsets = rt.funcs[key_pos(func.key)];
    if after.is_root_slot(addr) {
        let (i, j) = choose|i: int, j: int|
            0 <= i < after.stack.len() && 0 <= j < after.stack[i].len()
                && #[trigger] after.stack[i][j] == addr;
        if i < rt.stack.len() {
            assert(rt.stack[i][j] == addr);
        } else {
            assert(offsets[j] <= frame_ptr);
            assert(offsets[j] == (frame_ptr - addr) as usize);
        }
    }
    if rt.is_root_slot(addr) {
        let (i, j) = choose|i: int, j: int|
            0 <= i < rt.stack.len() && 0 <= j < rt.stack[i].len()
                && #[trigger] rt.stack[i][j] == addr;
        assert(after.stack[i][j] == addr);
    }
    if addr <= frame_ptr && offsets.contains((frame_ptr - addr) as usize) {
        let j = choose|j: int| 0 <= j < offsets.len() && offsets[j] == (frame_ptr - addr) as usize;
        let i = rt.stack.len() as int;
        assert(after.stack[i][j] == addr);
    }
}

/// A sweep keeps what the references of a value that it keeps refer to, wherever in the
/// value they lie.
pub proof fn law_sweep_follows_references(
    rt: RuntimeModel,
    mem: Map<usize, usize>,
    ptr: usize,
    i: int,
    next: usize,
)
    requires
        rt.wf(),
        rt.swept(mem).heap.contains_key(ptr),
        0 <= i < rt.heap[ptr].gc_ptr_fields.len(),
        mem.contains_key((ptr + rt.heap[ptr].gc_ptr_fields[i]) as usize),
        mem[(ptr + rt.heap[ptr].gc_ptr_fields[i]) as usize] == next,
        rt.heap.contains_key(next),
    ensures
        rt.swept(mem).heap.contains_key(next),
{
    assert(field_addr(rt.heap, ptr, i) == (ptr + rt.heap[ptr].gc_ptr_fields[i]) as usize);
    assert(points_to(rt.heap, mem, ptr, next));
    law_kept_closed(rt.roots(mem), rt.heap, mem, ptr, next);
}

/// A sweep gives up everything that is not held: where a set has what is held from
/// outside, what the slots of the frames refer to, and what the values in it refer to,
/// nothing else is kept.
pub proof fn law_sweep_gives_up_the_rest(
    rt: RuntimeModel,
    mem: Map<usize, usize>,
    keep: Set<usize>,
    ptr: usize,
)
    requires
        forall|p: usize| #[trigger] rt.refcounts.contains_key(p) ==> keep.contains(p),
        forall|addr: usize| #[trigger]
            rt.is_root_slot(addr) && mem.contains_key(addr) && mem[addr] != 0 ==> keep.contains(
                mem[addr],
            ),
        forall|p: usize, i: int|
            keep.contains(p) && rt.heap.contains_key(p) && 0 <= i < rt.heap[p].gc_ptr_fields.len()
                && mem.contains_key((p + #[trigger] rt.heap[p].gc_ptr_fields[i]) as usize)
                && mem[(p + rt.heap[p].gc_ptr_fields[i]) as usize] != 0 ==> keep.contains(
                mem[(p + rt.heap[p].gc_ptr_fields[i]) as usize],
            ),
        !keep.contains(ptr),
    ensures
        !rt.swept(mem).heap.contains_key(ptr),
{
    if rt.swept(mem).heap.contains_key(ptr) {
        assert forall|p: usize, q: usize|
            keep.contains(p) && #[trigger] points_to(rt.heap, mem, p, q) && q
                != 0 implies keep.contains(q) by {
            let i = choose|i: int|
                0 <= i < rt.heap[p].gc_ptr_fields.len() && mem.contains_key(
                    #[trigger] field_addr(rt.heap, p, i),
                ) && mem[field_addr(rt.heap, p, i)] == q;
            assert(field_addr(rt.heap, p, i) == (p + rt.heap[p].gc_ptr_fields[i]) as usize);
        }
        assert forall|p: usize| #[trigger] rt.roots(mem).contains(p) && p
            != 0 implies keep.contains(p) by {
            if !rt.refcounts.contains_key(p) {
                let addr = choose|addr: usize|
                    in_frames(rt.stack, addr) && #[trigger] mem.contains_key(addr) && mem[addr]
                        == p;
                assert(rt.is_root_slot(addr));
            }
        }
        lemma_closed_holds_reachable(rt.roots(mem), rt.heap, mem, keep, ptr);
    }
}

/// Where no pointer dangles, everything that is held is there after a sweep: what is held
/// from outside, what the slots of the frames refer to, and what the references of the
/// values that are kept refer to.
pub proof fn law_swept_is_whole(
    rt: RuntimeModel,
    mem: Map<usize, usize>,
    held: usize,
    slot: usize,
    ptr: usize,
    i: int,
)
    requires
        !rt.dangles(mem),
    ensures
        rt.refcounts.contains_key(held) && held != 0 ==> rt.swept(mem).heap.contains_key(held),
        rt.is_root_slot(slot) && mem.contains_key(slot) && mem[slot] != 0 ==> rt.swept(
            mem,
        ).heap.contains_key(mem[slot]),
        rt.swept(mem).heap.contains_key(ptr) && 0 <= i < rt.heap[ptr].gc_ptr_fields.len() && {
            let addr = (ptr + rt.heap[ptr].gc_ptr_fields[i]) as usize;
            mem.contains_key(addr) && mem[addr] != 0
        } ==> rt.swept(mem).heap.contains_key(
            mem[(ptr + rt.heap[ptr].gc_ptr_fields[i]) as usize],
        ),
{
    if rt.refcounts.contains_key(held) && held != 0 {
        lemma_root_reachable(rt.roots(mem), rt.heap, mem, held);
        assert(rt.reaches(mem, held));
    }
    if rt.is_root_slot(slot) && mem.contains_key(slot) && mem[slot] != 0 {
        assert(rt.roots(mem).contains(mem[slot]));
        lemma_root_reachable(rt.roots(mem), rt.heap, mem, mem[slot]);
        assert(rt.reaches(mem, mem[slot]));
    }
    if rt.swept(mem).heap.contains_key(ptr) && 0 <= i < rt.heap[ptr].gc_ptr_fields.len() {
        let addr = field_addr(rt.heap, ptr, i);
        if mem.contains_key(addr) && mem[addr] != 0 {
            assert(points_to(rt.heap, mem, ptr, mem[addr]));
            lemma_step_reachable(rt.roots(mem), rt.heap, mem, ptr, mem[addr]);
            assert(rt.reaches(mem, mem[addr]));
        }
    }
}

/// The words that have to be known are enough: where they are known, more words change
/// neither what can be reached nor what a sweep keeps.
pub proof fn law_needed_words_are_enough(
    rt: RuntimeModel,
    mem: Map<usize, usize>,
    more: Map<usize, usize>,
    ptr: usize,
)
    requires
        forall|a: usize| #[trigger] rt.needs(mem, a) ==> mem.contains_key(a),
        forall|a: usize| #[trigger]
            mem.contains_key(a) ==> more.contains_key(a) && more[a] == mem[a],
    ensures
        rt.reaches(more, ptr) == rt.reaches(mem, ptr),
        rt.swept(more).heap.contains_key(ptr) == rt.swept(mem).heap.contains_key(ptr),
{
    if rt.reaches(more, ptr) {
        lemma_needed_closed(rt, mem, more);
        let closed = Set::new(|p: usize| rt.reaches(mem, p));
        lemma_closed_holds_reachable(rt.roots(more), rt.heap, more, closed, ptr);
    }
    if rt.reaches(mem, ptr) {
        let closed = Set::new(|p: usize| rt.reaches(more, p));
        assert forall|p: usize| #[trigger] rt.roots(mem).contains(p) && p
            != 0 implies closed.contains(p) by {
            if !rt.refcounts.contains_key(p) {
                let addr = choose|addr: usize|
                    in_frames(rt.stack, addr) && #[trigger] mem.contains_key(addr) && mem[addr]
                        == p;
                assert(more.contains_key(addr));
            }
            assert(rt.roots(more).contains(p));
            lemma_root_reachable(rt.roots(more), rt.heap, more, p);
        }
        assert forall|p: usize, q: usize|
            closed.contains(p) && #[trigger] points_to(rt.heap, mem, p, q) && q
                != 0 implies closed.contains(q) by {
            let i = choose|i: int|
                0 <= i < rt.heap[p].gc_ptr_fields.len() && mem.contains_key(
                    #[trigger] field_addr(rt.heap, p, i),
                ) && mem[field_addr(rt.heap, p, i)] == q;
            assert(more.contains_key(field_addr(rt.heap, p, i)));
            assert(points_to(rt.heap, more, p, q));
            lemma_step_reachable(rt.roots(more), rt.heap, more, p, q);
        }
        lemma_closed_holds_reachable(rt.roots(mem), rt.heap, mem, closed, ptr);
    }
}

/// What can be reached through the words that have to be known is closed under all words.
proof fn lemma_needed_closed(rt: RuntimeModel, mem: Map<usize, usize>, more: Map<usize, usize>)
    requires
        forall|a: usize| #[trigger] rt.needs(mem, a) ==> mem.contains_key(a),
        forall|a: usize| #[trigger]
            mem.contains_key(a) ==> more.contains_key(a) && more[a] == mem[a],
    ensures
        ({
            let closed = Set::new(|p: usize| rt.reaches(mem, p));
            &&& forall|p: usize| #[trigger]
                rt.roots(more).contains(p) && p != 0 ==> closed.contains(p)
            &&& forall|p: usize, q: usize|
                closed.contains(p) && #[trigger] points_to(rt.heap, more, p, q) && q != 0
                    ==> closed.contains(q)
        }),
{
    let closed = Set::new(|p: usize| rt.reaches(mem, p));
    assert forall|p: usize| #[trigger] rt.roots(more).contains(p) && p != 0 implies closed.contains(
        p,
    ) by {
        if !rt.refcounts.contains_key(p) {
            let addr = choose|addr: usize|
                in_frames(rt.stack, addr) && #[trigger] more.contains_key(addr) && more[addr] == p;
            assert(rt.is_root_slot(addr));
            assert(rt.needs(mem, addr));
            assert(mem.contains_key(addr));
        }
        assert(rt.roots(mem).contains(p));
        lemma_root_reachable(rt.roots(mem), rt.heap, mem, p);
    }
    assert forall|p: usize, q: usize|
        closed.contains(p) && #[trigger] points_to(rt.heap, more, p, q) && q
            != 0 implies closed.contains(q) by {
        let i = choose|i: int|
            0 <= i < rt.heap[p].gc_ptr_fields.len() && more.contains_key(
                #[trigger] field_addr(rt.heap, p, i),
            ) && more[field_addr(rt.heap, p, i)] == q;
        assert(rt.needs(mem, field_addr(rt.heap, p, i)));
        assert(mem.contains_key(field_addr(rt.heap, p, i)));
        assert(points_to(rt.heap, mem, p, q));
        lemma_step_reachable(rt.roots(mem), rt.heap, mem, p, q);
    }
}

} // verus!
