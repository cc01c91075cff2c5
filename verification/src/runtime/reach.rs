//! What can be reached in managed memory.

use crate::layout::Layout;
use vstd::prelude::*;

verus! {

/// What a type looks like to the runtime: its layout, and where references into
/// managed memory lie in it.
#[verifier::ext_equal]
pub struct RtTypeModel {
    pub layout: Layout,
    pub gc_ptr_fields: Seq<usize>,
}

/// The address of a field of the value at `ptr`.
pub open spec fn field_addr(heap: Map<usize, RtTypeModel>, ptr: usize, i: int) -> usize {
    (ptr + heap[ptr].gc_ptr_fields[i]) as usize
}

/// Whether the value at `from` has a reference to `to`.
pub open spec fn points_to(
    heap: Map<usize, RtTypeModel>,
    mem: Map<usize, usize>,
    from: usize,
    to: usize,
) -> bool {
    heap.contains_key(from) && exists|i: int|
        0 <= i < heap[from].gc_ptr_fields.len() && mem.contains_key(
            #[trigger] field_addr(heap, from, i),
        ) && mem[field_addr(heap, from, i)] == to
}

/// Whether the value at place `i` of a path has a reference to the next one.
pub open spec fn path_step(
    heap: Map<usize, RtTypeModel>,
    mem: Map<usize, usize>,
    path: Seq<usize>,
    i: int,
) -> bool {
    points_to(heap, mem, path[i], path[i + 1])
}

/// Whether references lead along `path`, which starts at a root. The null
/// pointer leads nowhere and is on no path.
pub open spec fn is_path(
    roots: Set<usize>,
    heap: Map<usize, RtTypeModel>,
    mem: Map<usize, usize>,
    path: Seq<usize>,
) -> bool {
    &&& path.len() > 0
    &&& roots.contains(path[0])
    &&& forall|i: int| 0 <= i < path.len() ==> (#[trigger] path[i]) != 0
    &&& forall|i: int| 0 <= i < path.len() - 1 ==> #[trigger] path_step(heap, mem, path, i)
}

/// Whether `ptr` can be reached from the roots.
pub open spec fn reachable(
    roots: Set<usize>,
    heap: Map<usize, RtTypeModel>,
    mem: Map<usize, usize>,
    ptr: usize,
) -> bool {
    exists|path: Seq<usize>| #[trigger] is_path(roots, heap, mem, path) && path.last() == ptr
}

/// A root that is not null can be reached.
pub proof fn lemma_root_reachable(
    roots: Set<usize>,
    heap: Map<usize, RtTypeModel>,
    mem: Map<usize, usize>,
    ptr: usize,
)
    requires
        roots.contains(ptr),
        ptr != 0,
    ensures
        reachable(roots, heap, mem, ptr),
{
    let path = seq![ptr];
    assert(is_path(roots, heap, mem, path));
    assert(path.last() == ptr);
}

/// What a value that can be reached has a reference to can be reached.
pub proof fn lemma_step_reachable(
    roots: Set<usize>,
    heap: Map<usize, RtTypeModel>,
    mem: Map<usize, usize>,
    from: usize,
    to: usize,
)
    requires
        reachable(roots, heap, mem, from),
        points_to(heap, mem, from, to),
        to != 0,
    ensures
        reachable(roots, heap, mem, to),
{
    let path = choose|path: Seq<usize>| #[trigger]
        is_path(roots, heap, mem, path) && path.last() == from;
    let longer = path.push(to);
    assert forall|i: int| 0 <= i < longer.len() - 1 implies #[trigger] path_step(
        heap,
        mem,
        longer,
        i,
    ) by {
        if i < path.len() - 1 {
            assert(path_step(heap, mem, path, i));
        }
    }
    assert(is_path(roots, heap, mem, longer));
    assert(longer.last() == to);
}

/// A set that holds the roots and that no reference leads out of holds
/// everything that can be reached.
pub proof fn lemma_closed_holds_reachable(
    roots: Set<usize>,
    heap: Map<usize, RtTypeModel>,
    mem: Map<usize, usize>,
    closed: Set<usize>,
    ptr: usize,
)
    requires
        forall|p: usize| #[trigger] roots.contains(p) && p != 0 ==> closed.contains(p),
        forall|p: usize, q: usize|
            closed.contains(p) && #[trigger] points_to(heap, mem, p, q) && q != 0
                ==> closed.contains(q),
        reachable(roots, heap, mem, ptr),
    ensures
        closed.contains(ptr),
{
    let path = choose|path: Seq<usize>| #[trigger]
        is_path(roots, heap, mem, path) && path.last() == ptr;
    lemma_path_in_closed(roots, heap, mem, closed, path, path.len() - 1);
}

proof fn lemma_path_in_closed(
    roots: Set<usize>,
    heap: Map<usize, RtTypeModel>,
    mem: Map<usize, usize>,
    closed: Set<usize>,
    path: Seq<usize>,
    n: int,
)
    requires
        forall|p: usize| #[trigger] roots.contains(p) && p != 0 ==> closed.contains(p),
        forall|p: usize, q: usize|
            closed.contains(p) && #[trigger] points_to(heap, mem, p, q) && q != 0
                ==> closed.contains(q),
        is_path(roots, heap, mem, path),
        0 <= n < path.len(),
    ensures
        closed.contains(path[n]),
    decreases n,
{
    if n > 0 {
        lemma_path_in_closed(roots, heap, mem, closed, path, n - 1);
        assert(path_step(heap, mem, path, n - 1));
    }
}

/// What can be reached depends on the roots that are not null.
pub proof fn lemma_same_roots(
    roots: Set<usize>,
    others: Set<usize>,
    heap: Map<usize, RtTypeModel>,
    mem: Map<usize, usize>,
    ptr: usize,
)
    requires
        forall|p: usize| p != 0 && roots.contains(p) ==> #[trigger] others.contains(p),
        reachable(roots, heap, mem, ptr),
    ensures
        reachable(others, heap, mem, ptr),
{
    let path = choose|path: Seq<usize>| #[trigger]
        is_path(roots, heap, mem, path) && path.last() == ptr;
    assert(others.contains(path[0]));
    assert(is_path(others, heap, mem, path));
}

/// What can be reached depends on the references that are not null.
pub proof fn lemma_same_steps(
    roots: Set<usize>,
    heap: Map<usize, RtTypeModel>,
    other: Map<usize, RtTypeModel>,
    mem: Map<usize, usize>,
    ptr: usize,
)
    requires
        forall|p: usize, q: usize|
            q != 0 && points_to(heap, mem, p, q) ==> #[trigger] points_to(other, mem, p, q),
        reachable(roots, heap, mem, ptr),
    ensures
        reachable(roots, other, mem, ptr),
{
    let path = choose|path: Seq<usize>| #[trigger]
        is_path(roots, heap, mem, path) && path.last() == ptr;
    assert forall|i: int| 0 <= i < path.len() - 1 implies #[trigger] path_step(
        other,
        mem,
        path,
        i,
    ) by {
        assert(path_step(heap, mem, path, i));
        assert(path[i + 1] != 0);
        assert(points_to(other, mem, path[i], path[i + 1]));
    }
    assert(is_path(roots, other, mem, path));
}

/// A new value whose references are null changes no reference that is not null.
pub proof fn lemma_other_value_points(
    heap: Map<usize, RtTypeModel>,
    mem: Map<usize, usize>,
    ptr: usize,
    ty: RtTypeModel,
    from: usize,
    to: usize,
)
    requires
        !heap.contains_key(ptr),
        to != 0,
        forall|i: int|
            0 <= i < ty.gc_ptr_fields.len() ==> mem[#[trigger] field_addr(
                heap.insert(ptr, ty),
                ptr,
                i,
            )] == 0,
    ensures
        points_to(heap.insert(ptr, ty), mem, from, to) == points_to(heap, mem, from, to),
{
    let after = heap.insert(ptr, ty);
    if from != ptr && heap.contains_key(from) {
        assert forall|i: int| #[trigger] field_addr(after, from, i) == field_addr(heap, from, i) by {}
        if points_to(heap, mem, from, to) {
            let i = choose|i: int|
                0 <= i < heap[from].gc_ptr_fields.len() && mem.contains_key(
                    #[trigger] field_addr(heap, from, i),
                ) && mem[field_addr(heap, from, i)] == to;
            assert(mem.contains_key(field_addr(after, from, i)));
        }
        if points_to(after, mem, from, to) {
            let i = choose|i: int|
                0 <= i < after[from].gc_ptr_fields.len() && mem.contains_key(
                    #[trigger] field_addr(after, from, i),
                ) && mem[field_addr(after, from, i)] == to;
            assert(mem.contains_key(field_addr(heap, from, i)));
        }
    }
}

/// The values that stay when only what can be reached is kept.
pub open spec fn kept(
    roots: Set<usize>,
    heap: Map<usize, RtTypeModel>,
    mem: Map<usize, usize>,
) -> Map<usize, RtTypeModel> {
    heap.restrict(Set::new(|ptr: usize| reachable(roots, heap, mem, ptr)))
}

/// A value that is kept has the references that it had.
proof fn lemma_kept_points(
    roots: Set<usize>,
    heap: Map<usize, RtTypeModel>,
    mem: Map<usize, usize>,
    from: usize,
    to: usize,
)
    requires
        reachable(roots, heap, mem, from),
    ensures
        points_to(kept(roots, heap, mem), mem, from, to) == points_to(heap, mem, from, to),
{
    let after = kept(roots, heap, mem);
    if heap.contains_key(from) {
        assert(after.contains_key(from) && after[from] == heap[from]);
        assert forall|i: int| #[trigger] field_addr(after, from, i) == field_addr(heap, from, i) by {}
        if points_to(after, mem, from, to) {
            let i = choose|i: int|
                0 <= i < after[from].gc_ptr_fields.len() && mem.contains_key(
                    #[trigger] field_addr(after, from, i),
                ) && mem[field_addr(after, from, i)] == to;
            assert(mem.contains_key(field_addr(heap, from, i)));
        }
        if points_to(heap, mem, from, to) {
            let i = choose|i: int|
                0 <= i < heap[from].gc_ptr_fields.len() && mem.contains_key(
                    #[trigger] field_addr(heap, from, i),
                ) && mem[field_addr(heap, from, i)] == to;
            assert(mem.contains_key(field_addr(after, from, i)));
        }
    }
}

/// Giving up what cannot be reached leaves what can be reached as it was: the
/// same pointers can be reached afterwards.
pub proof fn law_kept_reachable(
    roots: Set<usize>,
    heap: Map<usize, RtTypeModel>,
    mem: Map<usize, usize>,
    ptr: usize,
)
    ensures
        reachable(roots, kept(roots, heap, mem), mem, ptr) == reachable(roots, heap, mem, ptr),
{
    let after = kept(roots, heap, mem);
    if reachable(roots, after, mem, ptr) {
        let path = choose|path: Seq<usize>| #[trigger]
            is_path(roots, after, mem, path) && path.last() == ptr;
        lemma_path_before(roots, heap, mem, path, path.len() as int);
        assert(path.take(path.len() as int) =~= path);
    }
    if reachable(roots, heap, mem, ptr) {
        let path = choose|path: Seq<usize>| #[trigger]
            is_path(roots, heap, mem, path) && path.last() == ptr;
        lemma_path_after(roots, heap, mem, path);
    }
}

/// A path through what is kept is a path that was there.
proof fn lemma_path_before(
    roots: Set<usize>,
    heap: Map<usize, RtTypeModel>,
    mem: Map<usize, usize>,
    path: Seq<usize>,
    n: int,
)
    requires
        is_path(roots, kept(roots, heap, mem), mem, path),
        0 < n <= path.len(),
    ensures
        is_path(roots, heap, mem, path.take(n)),
    decreases n,
{
    let front = path.take(n);
    assert forall|i: int| 0 <= i < n - 1 implies #[trigger] path_step(heap, mem, front, i) by {
        lemma_path_before(roots, heap, mem, path, i + 1);
        assert(path.take(i + 1).last() == path[i]);
        assert(reachable(roots, heap, mem, path[i]));
        lemma_kept_points(roots, heap, mem, path[i], path[i + 1]);
        assert(path_step(kept(roots, heap, mem), mem, path, i));
    }
}

/// A path that was there is a path through what is kept.
proof fn lemma_path_after(
    roots: Set<usize>,
    heap: Map<usize, RtTypeModel>,
    mem: Map<usize, usize>,
    path: Seq<usize>,
)
    requires
        is_path(roots, heap, mem, path),
    ensures
        is_path(roots, kept(roots, heap, mem), mem, path),
{
    let after = kept(roots, heap, mem);
    assert forall|i: int| 0 <= i < path.len() - 1 implies #[trigger] path_step(
        after,
        mem,
        path,
        i,
    ) by {
        let front = path.take(i + 1);
        assert forall|j: int| 0 <= j < front.len() - 1 implies #[trigger] path_step(
            heap,
            mem,
            front,
            j,
        ) by {
            assert(path_step(heap, mem, path, j));
        }
        assert(is_path(roots, heap, mem, front));
        assert(front.last() == path[i]);
        assert(reachable(roots, heap, mem, path[i]));
        lemma_kept_points(roots, heap, mem, path[i], path[i + 1]);
        assert(path_step(heap, mem, path, i));
    }
}

/// Once what cannot be reached is given up, there is nothing more to give up.
pub proof fn law_kept_twice(
    roots: Set<usize>,
    heap: Map<usize, RtTypeModel>,
    mem: Map<usize, usize>,
)
    ensures
        kept(roots, kept(roots, heap, mem), mem) == kept(roots, heap, mem),
{
    assert forall|ptr: usize| #[trigger]
        kept(roots, heap, mem).contains_key(ptr) implies reachable(
        roots,
        kept(roots, heap, mem),
        mem,
        ptr,
    ) by {
        law_kept_reachable(roots, heap, mem, ptr);
    }
    assert(kept(roots, kept(roots, heap, mem), mem) =~= kept(roots, heap, mem));
}

/// No value that is kept has a reference to one that is given up.
pub proof fn law_kept_closed(
    roots: Set<usize>,
    heap: Map<usize, RtTypeModel>,
    mem: Map<usize, usize>,
    from: usize,
    to: usize,
)
    requires
        kept(roots, heap, mem).contains_key(from),
        points_to(heap, mem, from, to),
        heap.contains_key(to),
        to != 0,
    ensures
        kept(roots, heap, mem).contains_key(to),
{
    lemma_step_reachable(roots, heap, mem, from, to);
}

/// A value that a root refers to is kept.
pub proof fn law_roots_kept(
    roots: Set<usize>,
    heap: Map<usize, RtTypeModel>,
    mem: Map<usize, usize>,
    ptr: usize,
)
    requires
        roots.contains(ptr),
        heap.contains_key(ptr),
        ptr != 0,
    ensures
        kept(roots, heap, mem).contains_key(ptr),
{
    lemma_root_reachable(roots, heap, mem, ptr);
}

} // verus!
