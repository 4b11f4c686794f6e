use bytevm::heap::{Heap, HeapObject, Object, HEAP_THRESHOLD};
use bytevm::value::{ObjectPtr, Value};
use bytevm::vm::VM;

fn leaf(tag: u8) -> Object {
    Object { tag, fields: Vec::new() }
}

#[test]
fn fresh_heap_is_empty_with_the_initial_threshold() {
    let heap = Heap::new();
    assert_eq!(heap.size, 0);
    assert_eq!(heap.threshold, HEAP_THRESHOLD);
    assert!(!heap.is_full());
}

#[test]
fn allocation_links_an_unmarked_object() {
    let mut heap = Heap::new();
    let p = heap.new_object(Object { tag: 3, fields: vec![Value::Integer(9)] });
    assert!(heap.contains(p));
    assert_eq!(heap.size, 1);
    let obj = heap.get(p).unwrap();
    assert!(!obj.reachable());
    assert_eq!(obj.data.tag, 3);
    assert_eq!(obj.data.fields, vec![Value::Integer(9)]);
}

#[test]
fn mark_and_sweep_keep_what_the_root_reaches() {
    let mut heap = Heap::new();
    let b = heap.new_object(leaf(2));
    let a = heap.new_object(Object { tag: 1, fields: vec![Value::ObjectPtr(b)] });
    let garbage = heap.new_object(leaf(9));
    heap.mark(a);
    heap.sweep();
    assert!(heap.contains(a));
    assert!(heap.contains(b));
    assert!(!heap.contains(garbage));
    assert_eq!(heap.size, 2);
    // the sweep reset the colors, so an unmarked sweep reclaims the rest
    heap.sweep();
    assert!(!heap.contains(a));
    assert!(!heap.contains(b));
    assert_eq!(heap.size, 0);
}

#[test]
fn mark_terminates_on_a_cycle_and_keeps_it() {
    let mut heap = Heap::new();
    let a = heap.new_object(Object { tag: 1, fields: vec![Value::Word(0)] });
    let b = heap.new_object(Object { tag: 2, fields: vec![Value::ObjectPtr(a)] });
    assert!(heap.set_field(a, 0, Value::ObjectPtr(b)));
    heap.mark(a);
    heap.sweep();
    assert!(heap.contains(a));
    assert!(heap.contains(b));
    let roundtrip = heap.get(a).unwrap().data.fields[0];
    assert_eq!(roundtrip, Value::ObjectPtr(b));
}

#[test]
fn set_field_rejects_dead_handles_and_bad_indices() {
    let mut heap = Heap::new();
    let a = heap.new_object(leaf(1));
    assert!(!heap.set_field(a, 0, Value::Word(1))); // no fields
    assert!(!heap.set_field(ObjectPtr::new(7), 0, Value::Word(1))); // vacant
}

#[test]
fn swept_slots_are_reused_by_later_allocations() {
    let mut heap = Heap::new();
    let a = heap.new_object(leaf(1));
    let _b = heap.new_object(leaf(2));
    heap.sweep(); // nothing marked: everything reclaimed
    assert_eq!(heap.size, 0);
    let c = heap.new_object(leaf(3));
    assert_eq!(c.index, a.index); // the lowest vacant slot comes back first
    assert_eq!(heap.size, 1);
}

#[test]
fn heap_object_color_transitions() {
    let mut obj = HeapObject::new(leaf(4));
    assert!(!obj.reachable());
    obj.mark();
    assert!(obj.reachable());
    obj.unmark();
    assert!(!obj.reachable());
}

#[test]
fn threshold_crossing_allocation_spares_transitively_reachable_objects() {
    // the stack references only the parent; the child is reachable solely
    // through the parent's field, and must still survive every sweep.
    let mut vm = VM::new(Vec::new(), Vec::new(), Vec::new());
    let child = vm.new_object(Object { tag: 2, fields: vec![Value::Integer(9)] });
    let parent = vm.new_object(Object { tag: 1, fields: vec![Value::ObjectPtr(child)] });
    vm.push(Value::ObjectPtr(parent)).unwrap();
    for _ in 0..(2 * HEAP_THRESHOLD) {
        vm.new_object(Object { tag: 0, fields: Vec::new() });
    }
    assert!(vm.heap.contains(parent));
    assert!(vm.heap.contains(child));
    assert_eq!(vm.heap.get(child).unwrap().data.fields, vec![Value::Integer(9)]);
}

#[test]
fn object_linked_after_earlier_allocations_still_survives() {
    // allocate a rooted object, allocate more (no marks may linger from
    // those allocations), then link a fresh object behind the rooted
    // one's field: the next collection must descend through the root and
    // keep the late-linked object.
    let mut vm = VM::new(Vec::new(), Vec::new(), Vec::new());
    let rooted = vm.new_object(Object { tag: 1, fields: vec![Value::Word(0)] });
    vm.push(Value::ObjectPtr(rooted)).unwrap();
    vm.new_object(Object { tag: 0, fields: Vec::new() });
    let late = vm.new_object(Object { tag: 5, fields: vec![Value::Integer(77)] });
    assert!(vm.heap.set_field(rooted, 0, Value::ObjectPtr(late)));
    for _ in 0..(2 * HEAP_THRESHOLD) {
        vm.new_object(Object { tag: 0, fields: Vec::new() });
    }
    assert!(vm.heap.contains(rooted));
    assert!(vm.heap.contains(late));
    assert_eq!(vm.heap.get(late).unwrap().data.tag, 5);
    assert_eq!(vm.heap.get(late).unwrap().data.fields, vec![Value::Integer(77)]);
}

#[test]
fn threshold_crossing_allocation_spares_stack_referenced_objects() {
    // allocate enough to cross the threshold without ever marking roots by
    // hand: the interpreter's allocation path marks them itself, so the
    // object referenced only by the operand stack must survive the sweep.
    let mut vm = VM::new(Vec::new(), Vec::new(), Vec::new());
    let rooted = vm.new_object(Object { tag: 7, fields: vec![Value::Integer(1)] });
    vm.push(Value::ObjectPtr(rooted)).unwrap();
    for _ in 0..(2 * HEAP_THRESHOLD) {
        vm.new_object(Object { tag: 0, fields: Vec::new() });
    }
    assert!(vm.heap.contains(rooted));
    assert_eq!(vm.heap.get(rooted).unwrap().data.tag, 7);
    // the garbage did not pile up: sweeps reclaimed the unreferenced objects
    assert!(vm.heap.size < HEAP_THRESHOLD);
}
