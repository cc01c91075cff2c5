use std::collections::HashMap;

use emscript::layout::Layout;
use emscript::runtime::builtin;
use emscript::runtime::testing::{LinkedList, LinkedListNonRooted, ListNode, Rooted};
use emscript::runtime::{
    Gc, Release, RtFuncData, RtFuncId, RtTypeData, Runtime, RuntimeBuilder, SweepError,
};
use emscript::slots::FIRST_KEY;

fn data(fields: Vec<usize>) -> RtTypeData {
    RtTypeData { layout: Layout { size: 32, align: 8 }, gc_ptr_fields: fields }
}

fn freed(rt: &mut Runtime, memory: &HashMap<usize, usize>) -> Vec<usize> {
    match rt.sweep(memory) {
        Ok(freed) => {
            let mut ptrs: Vec<usize> = freed.iter().map(|(ptr, _)| *ptr).collect();
            ptrs.sort();
            ptrs
        }
        Err(error) => panic!("{:?}", error),
    }
}

#[test]
fn only_what_is_reached_stays() {
    let mut rt = Runtime::new(0);
    rt.alloc_gc(1000, data(vec![0, 8]));
    rt.alloc_gc(2000, data(vec![8]));
    rt.alloc_gc(3000, data(vec![]));
    rt.alloc_gc(4000, data(vec![0]));
    rt.refcount_increment(1000);
    let memory: HashMap<usize, usize> =
        [(1000, 2000), (1008, 0), (2008, 1000), (4000, 3000)].into_iter().collect();
    assert_eq!(freed(&mut rt, &memory), vec![3000, 4000]);
    assert_eq!(freed(&mut rt, &memory), Vec::<usize>::new());
    assert_eq!(rt.refcount_decrement(1000), Release::Released);
    assert_eq!(freed(&mut rt, &memory), vec![1000, 2000]);
}

#[test]
fn layouts_of_freed_values_are_given() {
    let mut rt = Runtime::new(0);
    rt.alloc_gc(64, RtTypeData { layout: Layout { size: 5, align: 4 }, gc_ptr_fields: vec![] });
    match rt.sweep(&HashMap::new()) {
        Ok(freed) => assert_eq!(freed, vec![(64, Layout { size: 5, align: 4 })]),
        Err(error) => panic!("{:?}", error),
    }
}

#[test]
fn words_are_asked_for_as_they_are_needed() {
    let mut rt = Runtime::new(0);
    rt.alloc_gc(1000, data(vec![0]));
    rt.alloc_gc(2000, data(vec![16]));
    rt.alloc_gc(3000, data(vec![0]));
    let func = RuntimeBuilder::declare_func(&mut rt);
    RuntimeBuilder::define_func(&mut rt, func, RtFuncData { roots: vec![8, 16] });
    assert_eq!(rt.push_stack_frame(func, 500), Some(vec![492, 484]));
    let mut memory: HashMap<usize, usize> = HashMap::new();
    let mut rounds: Vec<Vec<usize>> = Vec::new();
    let freed = loop {
        match rt.sweep(&memory) {
            Ok(freed) => break freed,
            Err(SweepError::Unread(mut addrs)) => {
                addrs.sort();
                for addr in &addrs {
                    let word = match *addr {
                        492 => 1000,
                        1000 => 2000,
                        _ => 0,
                    };
                    memory.insert(*addr, word);
                }
                rounds.push(addrs);
            }
            Err(error) => panic!("{:?}", error),
        }
    };
    assert_eq!(rounds, vec![vec![484, 492], vec![1000], vec![2016]]);
    assert_eq!(freed.len(), 1);
    assert_eq!(freed[0].0, 3000);
}

#[test]
fn dangling_pointers_stop_a_sweep() {
    let mut rt = Runtime::new(0);
    rt.alloc_gc(1000, data(vec![0]));
    rt.refcount_increment(1000);
    let memory: HashMap<usize, usize> = [(1000, 5)].into_iter().collect();
    assert!(matches!(rt.sweep(&memory), Err(SweepError::Dangling(5))));
    let memory: HashMap<usize, usize> = [(1000, 0)].into_iter().collect();
    assert_eq!(freed(&mut rt, &memory), Vec::<usize>::new());
}

#[test]
fn frames_are_pushed_and_popped() {
    let mut rt = Runtime::new(0);
    let funcs = RuntimeBuilder::declare_funcs(&mut rt, 2);
    assert_eq!(funcs, vec![RtFuncId { key: FIRST_KEY }, RtFuncId { key: FIRST_KEY + 1 }]);
    RuntimeBuilder::define_func(&mut rt, funcs[1], RtFuncData { roots: vec![24] });
    assert_eq!(rt.push_stack_frame(funcs[0], 10), Some(vec![]));
    assert_eq!(rt.push_stack_frame(funcs[1], 10), None);
    assert_eq!(rt.push_stack_frame(funcs[1], 124), Some(vec![100]));
    assert_eq!(rt.push_stack_frame(RtFuncId { key: FIRST_KEY + 2 }, 124), None);
    rt.alloc_gc(1000, data(vec![]));
    let memory: HashMap<usize, usize> = [(100, 1000)].into_iter().collect();
    assert_eq!(freed(&mut rt, &memory), Vec::<usize>::new());
    rt.pop_stack_frame();
    assert_eq!(freed(&mut rt, &memory), vec![1000]);
    rt.pop_stack_frame();
    rt.pop_stack_frame();
}

#[test]
fn safepoints_are_due_when_time_has_passed() {
    let mut rt = Runtime::new(10);
    assert!(!rt.safepoint(10));
    assert!(!rt.safepoint(9));
    assert!(rt.safepoint(11));
    assert!(!rt.safepoint(11));
    assert!(rt.safepoint(u64::MAX));
}

#[test]
fn pointers_are_counted() {
    let mut rt = Runtime::new(0);
    assert_eq!(rt.refcount_decrement(8), Release::Unknown);
    let gc: Gc<i32> = Gc::new(&mut rt, 8);
    let again = gc.clone_in(&mut rt);
    assert_eq!(gc.as_ptr(), 8);
    assert_eq!(again.as_ptr(), 8);
    assert_eq!(rt.refcount(8), 2);
    assert_eq!(rt.refcount(9), 0);
    assert_eq!(gc.release(&mut rt), Release::Kept);
    assert_eq!(rt.refcount(8), 1);
    assert_eq!(again.release(&mut rt), Release::Released);
    assert_eq!(rt.refcount_decrement(8), Release::Unknown);
}

#[test]
fn logging_can_be_switched_off() {
    let mut rt = Runtime::new(0);
    assert!(rt.log_enabled());
    RuntimeBuilder::log_settings(&mut rt, false);
    assert!(!rt.log_enabled());
}

#[test]
fn types_are_known_to_the_runtime() {
    let mut rt = Runtime::new(0);
    let a = RuntimeBuilder::declare_define_type(&mut rt, data(vec![8]));
    let more = RuntimeBuilder::declare_define_types(&mut rt, &vec![data(vec![]), data(vec![0, 1])]);
    assert_eq!(a.key, FIRST_KEY);
    assert_eq!(rt.type_count(), 3);
    assert_eq!(rt.func_count(), 0);
    assert_eq!(more[0].key, FIRST_KEY + 1);
    assert_eq!(more[1].key, FIRST_KEY + 2);
    assert_eq!(rt.type_data(more[1]).unwrap().gc_ptr_fields, vec![0, 1]);
    assert_eq!(rt.type_data(a).unwrap().layout, Layout { size: 32, align: 8 });
    assert_eq!(builtin::alloc_gc(&rt, FIRST_KEY as i64).unwrap().gc_ptr_fields, vec![8]);
    assert_eq!(builtin::alloc_gc(&rt, 3).unwrap().gc_ptr_fields, vec![0, 1]);
    assert!(builtin::alloc_gc(&rt, FIRST_KEY as i64 + 3).is_none());
    assert!(builtin::alloc_gc(&rt, -1).is_none());
}

#[test]
fn compiled_code_tells_of_its_frames() {
    let mut rt = Runtime::new(0);
    let func = RuntimeBuilder::declare_func(&mut rt);
    RuntimeBuilder::define_func(&mut rt, func, RtFuncData { roots: vec![8] });
    assert_eq!(builtin::push_stack_frame(&mut rt, func.key as i64, 4096), Some(vec![4088]));
    assert_eq!(builtin::push_stack_frame(&mut rt, 1, 4096), Some(vec![4088]));
    assert_eq!(builtin::push_stack_frame(&mut rt, 7, 4096), None);
    builtin::pop_stack_frame(&mut rt);
    builtin::pop_stack_frame(&mut rt);
    assert_eq!(freed(&mut rt, &HashMap::new()), Vec::<usize>::new());
}

#[test]
fn builtin_functions_have_signatures() {
    let alloc = builtin::fn_alloc_gc();
    assert_eq!(alloc.name, "builtin::alloc_gc");
    assert_eq!(alloc.sig().to_string(), "(i64) -> i64 system_v");
    let push = builtin::fn_push_stack_frame();
    assert_eq!(push.name, "builtin::push_stack_frame");
    assert_eq!(push.sig().to_string(), "(i64, i64) system_v");
    let pop = builtin::fn_pop_stack_frame();
    assert_eq!(pop.name, "builtin::pop_stack_frame");
    assert_eq!(pop.sig().to_string(), "() system_v");
    assert_eq!(builtin::RT_PTR_SYM, "builtin::runtime_ptr");
}

#[test]
fn a_linked_list_is_kept_by_its_roots() {
    let mut rt = Runtime::new(0);
    let ty = LinkedListNonRooted::type_data();
    assert_eq!(ty.layout, Layout { size: 16, align: 8 });
    assert_eq!(ty.gc_ptr_fields, vec![8]);

    let end: Rooted<ListNode> = Rooted::null();
    let (value2, release) = LinkedList { val: 2, next: end }.unroot(&mut rt);
    assert_eq!(release, Release::Unknown);
    assert_eq!(value2.val, 2);
    assert_eq!(value2.next.as_ptr(), 0);
    let elem2: Rooted<ListNode> = Rooted::new(&mut rt, 2000, ty.clone());

    let next = elem2.clone_in(&mut rt);
    let (mut value1, release) = LinkedList { val: 1, next }.unroot(&mut rt);
    assert_eq!(release, Release::Kept);
    let elem1: Rooted<ListNode> = Rooted::new(&mut rt, 1000, ty);
    assert_eq!(value1.next.as_ptr(), 2000);

    let memory: HashMap<usize, usize> = [(2008, 1000), (1008, 2000)].into_iter().collect();
    assert_eq!(elem2.release(&mut rt), Release::Released);
    assert_eq!(freed(&mut rt, &memory), Vec::<usize>::new());

    let again = value1.next.as_rooted(&mut rt);
    assert_eq!(again.as_ptr(), 2000);
    value1.next.set(&elem1);
    assert_eq!(value1.next.as_ptr(), 1000);
    assert_eq!(again.release(&mut rt), Release::Released);
    assert_eq!(elem1.release(&mut rt), Release::Released);
    assert_eq!(freed(&mut rt, &memory), vec![1000, 2000]);
}

#[test]
fn a_frame_of_null_slots_holds_nothing() {
    let mut rt = Runtime::new(0);
    let func = RuntimeBuilder::declare_func(&mut rt);
    RuntimeBuilder::define_func(&mut rt, func, RtFuncData { roots: vec![8, 16] });
    rt.alloc_gc(1000, data(vec![]));
    rt.alloc_gc(2000, data(vec![]));
    rt.refcount_increment(2000);
    assert_eq!(rt.push_stack_frame(func, 500), Some(vec![492, 484]));
    let memory: HashMap<usize, usize> = [(492, 0), (484, 0)].into_iter().collect();
    assert_eq!(freed(&mut rt, &memory), vec![1000]);
}

#[test]
fn a_reference_that_is_unrooted_can_be_rooted_again() {
    let mut rt = Runtime::new(0);
    let rooted: Rooted<ListNode> = Rooted::new(&mut rt, 1000, LinkedListNonRooted::type_data());
    let other = rooted.clone_in(&mut rt);
    assert_eq!(rt.refcount(1000), 2);
    let (non_rooted, release) = other.unroot(&mut rt);
    assert_eq!(release, Release::Kept);
    assert_eq!(rt.refcount(1000), 1);
    assert_eq!(non_rooted.as_rooted(&mut rt).as_ptr(), 1000);
    assert_eq!(rt.refcount(1000), 2);
}

#[test]
fn a_list_node_is_rooted_and_unrooted() {
    let mut rt = Runtime::new(0);
    let next: Rooted<ListNode> = Rooted::new(&mut rt, 1000, LinkedListNonRooted::type_data());
    let held = next.clone_in(&mut rt);
    let (stored, release) = LinkedList { val: 7, next }.unroot(&mut rt);
    assert_eq!(release, Release::Kept);
    assert_eq!(rt.refcount(1000), 1);
    let back = stored.root(&mut rt);
    assert_eq!((back.val, back.next.as_ptr()), (7, 1000));
    assert_eq!(rt.refcount(1000), 2);
    assert_eq!(held.as_ptr(), 1000);
}

#[test]
fn a_list_node_holds_what_it_refers_to() {
    let mut rt = Runtime::new(0);
    let next: Rooted<ListNode> = Rooted::new(&mut rt, 1000, LinkedListNonRooted::type_data());
    let (value, root, release) = LinkedList { val: 3, next }.put(&mut rt, 2000);
    assert_eq!((value.val, value.next.as_ptr()), (3, 1000));
    assert_eq!(root.as_ptr(), 2000);
    assert_eq!(release, Release::Released);
    assert_eq!((rt.refcount(1000), rt.refcount(2000)), (0, 1));
    let memory: HashMap<usize, usize> = [(1008, 0), (2008, 1000)].into_iter().collect();
    assert_eq!(freed(&mut rt, &memory), Vec::<usize>::new());
    assert_eq!(root.release(&mut rt), Release::Released);
    assert_eq!(freed(&mut rt, &memory), vec![1000, 2000]);
}

#[test]
fn a_new_value_of_null_references_holds_nothing() {
    let mut rt = Runtime::new(0);
    rt.alloc_gc(1000, data(vec![]));
    rt.alloc_gc(2000, data(vec![0, 16]));
    rt.refcount_increment(2000);
    let memory: HashMap<usize, usize> = [(2000, 0), (2016, 0)].into_iter().collect();
    assert_eq!(freed(&mut rt, &memory), vec![1000]);
}
