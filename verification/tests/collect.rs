use gcmodule::{Cc, CcObjectSpace, Trace, Tracer};
use std::cell::Cell;
use std::rc::Rc;

/// A value that holds no handle, opts out of tracking and records its drop.
struct Opaque(&'static str, Rc<Cell<bool>>);

impl Trace for Opaque {
    fn trace(&self, _tracer: &mut Tracer) {}

    fn is_type_tracked(&self) -> bool {
        false
    }
}

impl Drop for Opaque {
    fn drop(&mut self) {
        self.1.set(true);
    }
}

/// A value that holds no handle, is tracked and records its drop.
struct Plain(&'static str, Rc<Cell<bool>>);

impl Trace for Plain {
    fn trace(&self, _tracer: &mut Tracer) {}

    fn is_type_tracked(&self) -> bool {
        true
    }
}

impl Drop for Plain {
    fn drop(&mut self) {
        self.1.set(true);
    }
}

#[test]
fn test_simple_untracked() {
    let dropped = Rc::new(Cell::new(false));
    let mut space: CcObjectSpace<Opaque> = CcObjectSpace::default();
    {
        let v1 = space.create(Opaque("abc", dropped.clone()));
        {
            let v2 = space.clone_handle(&v1);
            assert_eq!(space.get(&v1).0, space.get(&v2).0);
            space.drop_handle(v2);
        }
        assert!(!dropped.get());
        space.drop_handle(v1);
    }
    assert!(dropped.get());
}

#[test]
fn test_simple_tracked() {
    let dropped = Rc::new(Cell::new(false));
    let mut space: CcObjectSpace<Plain> = CcObjectSpace::default();
    {
        let v1 = space.create(Plain("abc", dropped.clone()));
        {
            let v2 = space.clone_handle(&v1);
            assert_eq!(space.get(&v1).0, space.get(&v2).0);
            space.drop_handle(v2);
        }
        assert!(!dropped.get());
        space.drop_handle(v1);
    }
    assert!(dropped.get());
}

#[test]
fn test_simple_cycles() {
    let mut space: CcObjectSpace<Vec<Cc>> = CcObjectSpace::default();
    assert_eq!(space.collect_cycles(), 0);
    {
        let a = space.create(Vec::new());
        let b = space.create(Vec::new());
        assert_eq!(space.collect_cycles(), 0);
        {
            let to_b = space.clone_handle(&b);
            space.update(&a, |mut list| {
                list.push(to_b);
                list
            });
        }
        {
            let to_a = space.clone_handle(&a);
            space.update(&b, |mut list| {
                list.push(to_a);
                list
            });
        }
        assert_eq!(space.collect_cycles(), 0);
        space.drop_handle(a);
        space.drop_handle(b);
    }
    assert_eq!(space.collect_cycles(), 2);
}

/// Counts the drops of the values it wraps.
struct DropCounter(Vec<Cc>, Rc<Cell<usize>>);

impl Trace for DropCounter {
    fn trace(&self, tracer: &mut Tracer) {
        for handle in self.0.iter() {
            tracer.visit(handle);
        }
    }

    fn is_type_tracked(&self) -> bool {
        true
    }
}

impl Drop for DropCounter {
    fn drop(&mut self) {
        self.1.set(self.1.get() + 1);
    }
}

/// Builds a graph of n (n <= 16) nodes with the given edges, gives up every
/// handle held outside the graph, and collects. Returns the number of values
/// that reference counting alone dropped and the number of blocks collected.
fn test_small_graph(n: usize, edges: &[u8]) -> (usize, usize) {
    assert!(n <= 16);
    let drop_count = Rc::new(Cell::new(0));
    let mut space: CcObjectSpace<DropCounter> = CcObjectSpace::default();
    {
        let values: Vec<Cc> = (0..n)
            .map(|_| space.create(DropCounter(Vec::new(), drop_count.clone())))
            .collect();
        assert_eq!(space.count_tracked(), n);
        for &edge in edges {
            let from_index = ((edge as usize) >> 4) % n;
            let to_index = ((edge as usize) & 15) % n;
            let handle = space.clone_handle(&values[from_index]);
            space.update(&values[to_index], |mut to| {
                to.0.push(handle);
                to
            });
        }
        for value in values {
            space.drop_handle(value);
        }
    }
    let drop_count_now = drop_count.get();
    assert_eq!(space.count_tracked(), n - drop_count_now);
    let collected = space.collect_cycles();
    assert_eq!(collected, n - drop_count_now);
    assert_eq!(drop_count.get(), n);
    assert_eq!(space.count_tracked(), 0);
    assert_eq!(space.collect_cycles(), 0);
    (drop_count_now, collected)
}

#[test]
fn test_drop_by_ref_count() {
    assert_eq!(test_small_graph(3, &[]), (3, 0));
}

#[test]
fn test_self_referential() {
    assert_eq!(test_small_graph(1, &[0x00, 0x00, 0x00]), (0, 1));
}

#[test]
fn test_3_object_cycle() {
    // 0 -> 1 -> 2 -> 0
    assert_eq!(test_small_graph(3, &[0x01, 0x12, 0x20]), (0, 3));
}

#[test]
fn test_2_object_cycle_with_another_incoming_reference() {
    assert_eq!(test_small_graph(3, &[0x02, 0x20, 0x10]), (0, 3));
}

#[test]
fn test_2_object_cycle_with_another_outgoing_reference() {
    assert_eq!(test_small_graph(3, &[0x02, 0x20, 0x01]), (1, 2));
}

fn graph_of_16_is_reclaimed(edges: Vec<u8>) -> bool {
    let (dropped, collected) = test_small_graph(16, &edges);
    dropped + collected == 16
}

#[test]
fn test_quickcheck_16_vertex_graph() {
    quickcheck::quickcheck(graph_of_16_is_reclaimed as fn(Vec<u8>) -> bool);
}
