use marksweep::{Gc, Handle, Trace, Value};

fn link(gc: &mut Gc<Value>, from: Handle, to: Handle) {
    assert!(gc.set(from, Value::Ref(to)));
}

#[test]
fn two_cycles_only_the_rooted_one_survives() {
    let mut gc: Gc<Value> = Gc::new();
    let a = gc.allocate();
    let b = gc.allocate();
    let c = gc.allocate();
    let d = gc.allocate();
    let e = gc.allocate();
    let f = gc.allocate();
    link(&mut gc, a, b);
    link(&mut gc, b, c);
    link(&mut gc, c, a);
    link(&mut gc, d, e);
    link(&mut gc, e, f);
    link(&mut gc, f, d);
    gc.collect(&[Value::Ref(a)]);
    assert!(gc.is_live(a));
    assert!(gc.is_live(b));
    assert!(gc.is_live(c));
    assert!(!gc.is_live(d));
    assert!(!gc.is_live(e));
    assert!(!gc.is_live(f));
    assert!(matches!(gc.get(a), Some(Value::Ref(x)) if *x == b));
    assert!(matches!(gc.get(c), Some(Value::Ref(x)) if *x == a));
}

#[test]
fn product_root_keeps_its_references() {
    let mut gc: Gc<Value> = Gc::new();
    let cell1 = gc.allocate();
    let cell2 = gc.allocate();
    let cell3 = gc.allocate();
    let cell4 = gc.allocate();
    assert!(gc.set(cell1, Value::Product(vec![Value::Ref(cell2), Value::Ref(cell3)])));
    gc.collect(&[Value::Ref(cell1)]);
    assert!(gc.is_live(cell1));
    assert!(gc.is_live(cell2));
    assert!(gc.is_live(cell3));
    assert!(!gc.is_live(cell4));
}

#[test]
fn empty_root_set_reclaims_everything() {
    let mut gc: Gc<Value> = Gc::new();
    let hs = gc.alloc_many(5);
    link(&mut gc, hs[0], hs[1]);
    link(&mut gc, hs[1], hs[0]);
    gc.collect(&[]);
    for h in &hs {
        assert!(!gc.is_live(*h));
    }
}

#[test]
fn second_collection_reclaims_nothing() {
    let mut gc: Gc<Value> = Gc::new();
    let hs = gc.alloc_many(6);
    link(&mut gc, hs[0], hs[1]);
    link(&mut gc, hs[1], hs[2]);
    link(&mut gc, hs[3], hs[4]);
    let roots = [Value::Ref(hs[0]), Value::Int(7)];
    gc.collect(&roots);
    let after_first: Vec<bool> = hs.iter().map(|h| gc.is_live(*h)).collect();
    assert_eq!(after_first, vec![true, true, true, false, false, false]);
    gc.collect(&roots);
    let after_second: Vec<bool> = hs.iter().map(|h| gc.is_live(*h)).collect();
    assert_eq!(after_first, after_second);
}

#[test]
fn unrooted_cycle_is_reclaimed_whole() {
    for n in 1..8usize {
        let mut gc: Gc<Value> = Gc::new();
        let hs = gc.alloc_many(n);
        for i in 0..n {
            link(&mut gc, hs[i], hs[(i + 1) % n]);
        }
        let keep = gc.allocate();
        gc.collect(&[Value::Ref(keep)]);
        assert!(gc.is_live(keep));
        for h in &hs {
            assert!(!gc.is_live(*h));
        }
    }
}

#[test]
fn survivors_are_the_closure_of_the_roots() {
    let mut gc: Gc<Value> = Gc::new();
    let hs = gc.alloc_many(7);
    // 0 -> (1, 2), 1 -> 3, 2 -> 3 (shared), 3 -> 0 (back edge), 4 -> 0, 5 -> 6
    assert!(gc.set(hs[0], Value::Product(vec![Value::Ref(hs[1]), Value::Ref(hs[2])])));
    link(&mut gc, hs[1], hs[3]);
    link(&mut gc, hs[2], hs[3]);
    link(&mut gc, hs[3], hs[0]);
    link(&mut gc, hs[4], hs[0]);
    link(&mut gc, hs[5], hs[6]);
    gc.collect(&[Value::Product(vec![Value::Int(1), Value::Ref(hs[0])])]);
    let live: Vec<bool> = hs.iter().map(|h| gc.is_live(*h)).collect();
    assert_eq!(live, vec![true, true, true, true, false, false, false]);
}

#[test]
fn survivor_that_becomes_unreachable_is_reclaimed_next_time() {
    let mut gc: Gc<Value> = Gc::new();
    let a = gc.allocate();
    let b = gc.allocate();
    link(&mut gc, a, b);
    gc.collect(&[Value::Ref(a)]);
    assert!(gc.is_live(b));
    assert!(gc.set(a, Value::Int(0)));
    gc.collect(&[Value::Ref(a)]);
    assert!(gc.is_live(a));
    assert!(!gc.is_live(b));
}

#[test]
fn stale_handle_is_detected_after_slot_reuse() {
    let mut gc: Gc<Value> = Gc::new();
    let old = gc.allocate();
    assert!(gc.set(old, Value::Int(5)));
    gc.collect(&[]);
    assert!(!gc.is_live(old));
    assert!(gc.get(old).is_none());
    assert!(!gc.set(old, Value::Int(6)));
    let fresh = gc.allocate();
    assert_eq!(fresh.index(), old.index());
    assert_ne!(fresh.generation(), old.generation());
    assert!(!gc.is_live(old));
    assert!(matches!(gc.get(fresh), Some(Value::Uninit)));
}

#[test]
fn stale_reference_in_a_payload_is_ignored() {
    let mut gc: Gc<Value> = Gc::new();
    let gone = gc.allocate();
    gc.collect(&[]);
    let holder = gc.allocate();
    let other = gc.allocate();
    assert!(gc.set(holder, Value::Product(vec![Value::Ref(gone), Value::Ref(other)])));
    gc.collect(&[Value::Ref(holder)]);
    assert!(gc.is_live(holder));
    assert!(gc.is_live(other));
    assert!(!gc.is_live(gone));
}

#[test]
fn fresh_cells_hold_the_initial_value() {
    let mut gc: Gc<Value> = Gc::new();
    let hs = gc.alloc_many(10);
    assert_eq!(hs.len(), 10);
    for i in 0..hs.len() {
        assert!(matches!(gc.get(hs[i]), Some(Value::Uninit)));
        for j in 0..i {
            assert_ne!(hs[i], hs[j]);
        }
    }
}

#[test]
fn scalar_payloads_hold_no_edges() {
    let mut gc: Gc<Value> = Gc::new();
    let hs = gc.alloc_many(4);
    assert!(gc.set(hs[0], Value::Int(-3)));
    assert!(gc.set(hs[1], Value::Float(2.5f64.to_bits())));
    assert!(gc.set(hs[2], Value::String(String::from("text"))));
    gc.collect(&[Value::Ref(hs[0]), Value::Ref(hs[1]), Value::Ref(hs[2])]);
    assert!(matches!(gc.get(hs[0]), Some(Value::Int(-3))));
    assert!(matches!(gc.get(hs[1]), Some(Value::Float(bits)) if f64::from_bits(*bits) == 2.5));
    assert!(matches!(gc.get(hs[2]), Some(Value::String(s)) if s == "text"));
    assert!(!gc.is_live(hs[3]));
}

#[test]
fn trace_lists_embedded_handles_in_order() {
    let h1 = Handle { index: 1, generation: 0 };
    let h2 = Handle { index: 2, generation: 3 };
    let h3 = Handle { index: 0, generation: 1 };
    let v = Value::Product(vec![
        Value::Ref(h1),
        Value::Int(4),
        Value::Product(vec![Value::Ref(h2), Value::Product(vec![])]),
        Value::Ref(h3),
    ]);
    let mut out = vec![h3];
    v.trace(&mut out);
    assert_eq!(out, vec![h3, h1, h2, h3]);
    let mut none = Vec::new();
    Value::String(String::from("x")).trace(&mut none);
    Value::uninit().trace(&mut none);
    assert!(none.is_empty());
}

#[test]
fn as_handle_only_for_references() {
    let h = Handle { index: 4, generation: 2 };
    assert_eq!(Value::Ref(h).as_handle(), Some(h));
    assert_eq!(Value::Int(1).as_handle(), None);
    assert_eq!(Value::Product(vec![Value::Ref(h)]).as_handle(), None);
}
