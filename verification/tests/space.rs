use gcmodule::header::{
    edit_gc_ref_count, gc_ref_count, is_collecting, is_unreachable, link_prev, trial_prev,
    unset_collecting, MAX_REF_COUNT, NULL,
};
use gcmodule::{Cc, CcObjectSpace, GcHeader, ObjectSpace, Trace, Tracer};
use std::cell::Cell;
use std::rc::Rc;

/// A node that is either a tracked list of handles or an untracked leaf, and
/// counts its drops.
enum Node {
    List(Vec<Cc>, Rc<Cell<usize>>),
    Leaf(u32, Rc<Cell<usize>>),
}

impl Trace for Node {
    fn trace(&self, tracer: &mut Tracer) {
        if let Node::List(handles, _) = self {
            for handle in handles.iter() {
                tracer.visit(handle);
            }
        }
    }

    fn is_type_tracked(&self) -> bool {
        matches!(self, Node::List(..))
    }
}

impl Drop for Node {
    fn drop(&mut self) {
        match self {
            Node::List(_, drops) => drops.set(drops.get() + 1),
            Node::Leaf(_, drops) => drops.set(drops.get() + 1),
        }
    }
}

fn list(space: &mut CcObjectSpace<Node>, drops: &Rc<Cell<usize>>) -> Cc {
    space.create(Node::List(Vec::new(), drops.clone()))
}

fn leaf(space: &mut CcObjectSpace<Node>, tag: u32, drops: &Rc<Cell<usize>>) -> Cc {
    space.create(Node::Leaf(tag, drops.clone()))
}

/// Stores a new handle to `to` in the list of `from`.
fn link(space: &mut CcObjectSpace<Node>, from: &Cc, to: &Cc) {
    let handle = space.clone_handle(to);
    space.update(from, |mut node| {
        if let Node::List(handles, _) = &mut node {
            handles.push(handle);
        }
        node
    });
}

#[test]
fn empty_space_collects_nothing() {
    let mut space: CcObjectSpace<Node> = CcObjectSpace::new();
    assert_eq!(space.block_count(), 1);
    assert_eq!(space.count_tracked(), 0);
    assert_eq!(space.collect_cycles(), 0);
    assert_eq!(space.count_tracked(), 0);
    assert_eq!(space.default_extras(), ());
}

#[test]
fn reference_counts_follow_clone_and_drop() {
    let drops = Rc::new(Cell::new(0));
    let mut space = CcObjectSpace::default();
    let a = list(&mut space, &drops);
    assert!(space.contains(&a));
    assert_eq!(space.ref_count(&a), 1);
    let b = space.clone_handle(&a);
    assert_eq!(space.ref_count(&a), 2);
    let c = space.clone_handle(&b);
    assert_eq!(space.ref_count(&c), 3);
    space.drop_handle(b);
    assert_eq!(space.ref_count(&a), 2);
    space.drop_handle(c);
    assert_eq!(space.ref_count(&a), 1);
    assert_eq!(drops.get(), 0);
    let probe = space.clone_handle(&a);
    space.drop_handle(a);
    assert!(space.contains(&probe));
    space.drop_handle(probe);
    assert_eq!(drops.get(), 1);
    assert_eq!(space.count_tracked(), 0);
}

#[test]
fn count_tracked_counts_tracked_values_only() {
    let drops = Rc::new(Cell::new(0));
    let mut space = CcObjectSpace::default();
    let mut handles = Vec::new();
    for tag in 0..5 {
        handles.push(list(&mut space, &drops));
        handles.push(leaf(&mut space, tag, &drops));
        assert_eq!(space.count_tracked(), tag as usize + 1);
    }
    assert_eq!(space.block_count(), 11);
    assert_eq!(space.count_tracked(), 5);
    for handle in handles {
        space.drop_handle(handle);
    }
    assert_eq!(drops.get(), 10);
    assert_eq!(space.count_tracked(), 0);
    assert_eq!(space.collect_cycles(), 0);
}

#[test]
fn untracked_value_drops_with_its_last_handle() {
    let drops = Rc::new(Cell::new(0));
    let mut space = CcObjectSpace::default();
    let a = leaf(&mut space, 7, &drops);
    assert_eq!(space.count_tracked(), 0);
    let b = space.clone_handle(&a);
    match space.get(&b) {
        Node::Leaf(tag, _) => assert_eq!(*tag, 7),
        Node::List(..) => panic!("a leaf was stored"),
    }
    space.drop_handle(a);
    assert_eq!(drops.get(), 0);
    space.drop_handle(b);
    assert_eq!(drops.get(), 1);
}

#[test]
fn dropping_the_head_of_a_chain_drops_the_chain() {
    let drops = Rc::new(Cell::new(0));
    let mut space = CcObjectSpace::default();
    let a = list(&mut space, &drops);
    let b = list(&mut space, &drops);
    let c = list(&mut space, &drops);
    let d = leaf(&mut space, 1, &drops);
    link(&mut space, &a, &b);
    link(&mut space, &b, &c);
    link(&mut space, &c, &d);
    link(&mut space, &a, &d);
    assert_eq!(space.ref_count(&d), 3);
    space.drop_handle(d);
    space.drop_handle(c);
    space.drop_handle(b);
    assert_eq!(drops.get(), 0);
    assert_eq!(space.count_tracked(), 3);
    assert_eq!(space.collect_cycles(), 0);
    assert_eq!(space.count_tracked(), 3);
    space.drop_handle(a);
    assert_eq!(drops.get(), 4);
    assert_eq!(space.count_tracked(), 0);
    assert_eq!(space.collect_cycles(), 0);
}

#[test]
fn a_handle_held_outside_keeps_a_cycle() {
    let drops = Rc::new(Cell::new(0));
    let mut space = CcObjectSpace::default();
    let a = list(&mut space, &drops);
    let b = list(&mut space, &drops);
    link(&mut space, &a, &b);
    link(&mut space, &b, &a);
    space.drop_handle(b);
    assert_eq!(space.collect_cycles(), 0);
    assert_eq!(space.count_tracked(), 2);
    assert_eq!(space.ref_count(&a), 2);
    assert_eq!(drops.get(), 0);
    space.drop_handle(a);
    assert_eq!(drops.get(), 0);
    assert_eq!(space.collect_cycles(), 2);
    assert_eq!(drops.get(), 2);
    assert_eq!(space.count_tracked(), 0);
}

#[test]
fn garbage_gives_up_its_handles_to_the_living() {
    let drops = Rc::new(Cell::new(0));
    let mut space = CcObjectSpace::default();
    let kept = list(&mut space, &drops);
    let kept_leaf = leaf(&mut space, 3, &drops);
    let lost_leaf = leaf(&mut space, 4, &drops);
    let b = list(&mut space, &drops);
    let c = list(&mut space, &drops);
    link(&mut space, &b, &c);
    link(&mut space, &c, &b);
    link(&mut space, &b, &kept);
    link(&mut space, &c, &kept);
    link(&mut space, &c, &kept_leaf);
    link(&mut space, &b, &lost_leaf);
    link(&mut space, &kept, &kept_leaf);
    space.drop_handle(b);
    space.drop_handle(c);
    space.drop_handle(lost_leaf);
    assert_eq!(space.ref_count(&kept), 3);
    assert_eq!(space.ref_count(&kept_leaf), 3);
    assert_eq!(space.count_tracked(), 3);
    assert_eq!(drops.get(), 0);
    assert_eq!(space.collect_cycles(), 2);
    assert_eq!(drops.get(), 3);
    assert_eq!(space.count_tracked(), 1);
    assert_eq!(space.ref_count(&kept), 1);
    assert_eq!(space.ref_count(&kept_leaf), 2);
    assert!(space.contains(&kept));
    match space.get(&kept) {
        Node::List(handles, _) => assert_eq!(handles.len(), 1),
        Node::Leaf(..) => panic!("a list was stored"),
    }
    space.drop_handle(kept_leaf);
    space.drop_handle(kept);
    assert_eq!(drops.get(), 5);
}

#[test]
fn what_garbage_reaches_through_the_living_stays() {
    let drops = Rc::new(Cell::new(0));
    let mut space = CcObjectSpace::default();
    let root = list(&mut space, &drops);
    let mid = list(&mut space, &drops);
    let end = list(&mut space, &drops);
    let x = list(&mut space, &drops);
    let y = list(&mut space, &drops);
    link(&mut space, &root, &mid);
    link(&mut space, &mid, &end);
    link(&mut space, &end, &mid);
    link(&mut space, &x, &y);
    link(&mut space, &y, &x);
    link(&mut space, &x, &end);
    space.drop_handle(mid);
    space.drop_handle(end);
    space.drop_handle(x);
    space.drop_handle(y);
    assert_eq!(space.count_tracked(), 5);
    assert_eq!(space.collect_cycles(), 2);
    assert_eq!(space.count_tracked(), 3);
    assert_eq!(drops.get(), 2);
    assert_eq!(space.collect_cycles(), 0);
    space.drop_handle(root);
    assert_eq!(drops.get(), 3);
    assert_eq!(space.collect_cycles(), 2);
    assert_eq!(drops.get(), 5);
    assert_eq!(space.count_tracked(), 0);
}

#[test]
fn collecting_twice_finds_nothing_more() {
    let drops = Rc::new(Cell::new(0));
    let mut space = CcObjectSpace::default();
    let a = list(&mut space, &drops);
    let b = list(&mut space, &drops);
    let c = list(&mut space, &drops);
    link(&mut space, &a, &b);
    link(&mut space, &b, &a);
    link(&mut space, &c, &c);
    space.drop_handle(a);
    space.drop_handle(b);
    assert_eq!(space.collect_cycles(), 2);
    assert_eq!(space.collect_cycles(), 0);
    assert_eq!(space.count_tracked(), 1);
    space.drop_handle(c);
    assert_eq!(space.collect_cycles(), 1);
    assert_eq!(space.collect_cycles(), 0);
    assert_eq!(drops.get(), 3);
}

#[test]
fn update_replaces_the_value() {
    let drops = Rc::new(Cell::new(0));
    let mut space = CcObjectSpace::default();
    let a = leaf(&mut space, 1, &drops);
    space.update(&a, |mut node| {
        if let Node::Leaf(tag, _) = &mut node {
            *tag = 2;
        }
        node
    });
    match space.get(&a) {
        Node::Leaf(tag, _) => assert_eq!(*tag, 2),
        Node::List(..) => panic!("a leaf was stored"),
    }
    assert_eq!(drops.get(), 0);
    space.drop_handle(a);
    assert_eq!(drops.get(), 1);
}

#[test]
fn text_is_not_tracked() {
    let mut space: CcObjectSpace<String> = CcObjectSpace::default();
    let a = space.create(String::from("abc"));
    assert_eq!(space.count_tracked(), 0);
    assert_eq!(space.get(&a), "abc");
    assert_eq!(space.collect_cycles(), 0);
    assert!(space.contains(&a));
    let b = space.clone_handle(&a);
    space.drop_handle(a);
    assert!(space.contains(&b));
    assert_eq!(space.ref_count(&b), 1);
    space.drop_handle(b);
    assert_eq!(space.block_count(), 2);
}

#[test]
fn a_handle_is_a_value_with_one_edge() {
    let mut lists: CcObjectSpace<Vec<Cc>> = CcObjectSpace::default();
    let a = lists.create(Vec::new());
    let mut tracer = Tracer::new();
    a.trace(&mut tracer);
    vec![lists.clone_handle(&a), lists.clone_handle(&a)].trace(&mut tracer);
    assert_eq!(tracer.into_targets().len(), 3);
    assert!(a.is_type_tracked());
    assert!(!String::new().is_type_tracked());
}

#[test]
fn prev_word_carries_count_and_flag() {
    assert_eq!(trial_prev(0), 1);
    assert_eq!(trial_prev(3), 7);
    assert_eq!(trial_prev(MAX_REF_COUNT), usize::MAX);
    assert_eq!(link_prev(0), 0);
    assert_eq!(link_prev(5), 10);
    assert_eq!(MAX_REF_COUNT, usize::MAX / 2);
    assert_eq!(NULL, usize::MAX);

    let mut header = GcHeader::unlinked(4);
    assert_eq!(header.prev, 0);
    assert_eq!(header.next, NULL);
    assert_eq!(header.ref_count, 4);
    assert!(!is_collecting(&header));
    assert!(!is_unreachable(&header));

    header.prev = trial_prev(3);
    assert!(is_collecting(&header));
    assert!(!is_unreachable(&header));
    assert_eq!(gc_ref_count(&header), 3);
    edit_gc_ref_count(&mut header, -1);
    assert_eq!(header.prev, 5);
    edit_gc_ref_count(&mut header, -2);
    assert_eq!(header.prev, 1);
    assert!(is_collecting(&header));
    assert!(is_unreachable(&header));
    edit_gc_ref_count(&mut header, 4);
    assert_eq!(header.prev, 9);
    unset_collecting(&mut header);
    assert_eq!(header.prev, 8);
    assert!(!is_collecting(&header));
    assert!(!is_unreachable(&header));
    assert_eq!(gc_ref_count(&header), 4);
    unset_collecting(&mut header);
    assert_eq!(header.prev, 8);
    edit_gc_ref_count(&mut header, -4);
    assert_eq!(header.prev, 0);
    assert!(!is_unreachable(&header));
    assert_eq!(header.next, NULL);
    assert_eq!(header.ref_count, 4);
}

#[test]
fn new_list_is_a_head_that_links_to_itself() {
    let list = gcmodule::collect::new_gc_list();
    assert_eq!(list.len(), 1);
    assert_eq!(list[0].prev, 0);
    assert_eq!(list[0].next, 0);
    assert_eq!(list[0].ref_count, 0);
}

/// Walks the list from its head and checks every header on the way. Returns
/// the number of blocks on the list.
fn check_links(space: &CcObjectSpace<Node>) -> usize {
    let head = space.header_at(0).unwrap();
    assert!(!is_collecting(&head));
    let mut count = 0;
    let mut before = 0;
    let mut index = head.next;
    while index != 0 {
        let header = space.header_at(index).unwrap();
        assert!(!is_collecting(&header));
        assert!(header.ref_count >= 1);
        assert_ne!(header.next, NULL);
        assert_eq!(header.prev, link_prev(before));
        assert_eq!(space.header_at(gc_ref_count(&header)).unwrap().next, index);
        assert_eq!(space.header_at(header.next).unwrap().prev, link_prev(index));
        before = index;
        index = header.next;
        count += 1;
    }
    assert_eq!(head.prev, link_prev(before));
    assert!(space.header_at(space.block_count()).is_none());
    count
}

#[test]
fn headers_stay_linked_both_ways() {
    let drops = Rc::new(Cell::new(0));
    let mut space = CcObjectSpace::default();
    assert_eq!(check_links(&space), 0);
    let mut handles = Vec::new();
    for _ in 0..6 {
        handles.push(list(&mut space, &drops));
    }
    let untracked = leaf(&mut space, 9, &drops);
    assert_eq!(space.header_at(7).unwrap().next, NULL);
    assert_eq!(space.header_at(0).unwrap().next, 6);
    assert_eq!(space.header_at(6).unwrap().next, 5);
    assert_eq!(space.header_at(1).unwrap().next, 0);
    assert_eq!(check_links(&space), 6);
    link(&mut space, &handles[0], &handles[1]);
    link(&mut space, &handles[1], &handles[0]);
    link(&mut space, &handles[2], &handles[3]);
    link(&mut space, &handles[3], &handles[4]);
    link(&mut space, &handles[4], &handles[3]);
    link(&mut space, &handles[4], &untracked);
    link(&mut space, &handles[5], &handles[5]);
    assert_eq!(check_links(&space), 6);
    let kept = handles.remove(2);
    for handle in handles {
        space.drop_handle(handle);
    }
    space.drop_handle(untracked);
    assert_eq!(check_links(&space), 6);
    assert_eq!(space.collect_cycles(), 3);
    assert_eq!(check_links(&space), 3);
    assert_eq!(space.count_tracked(), 3);
    assert_eq!(drops.get(), 3);
    assert_eq!(space.header_at(1).unwrap().next, NULL);
    assert_eq!(space.header_at(1).unwrap().ref_count, 0);
    assert_eq!(space.header_at(7).unwrap().ref_count, 1);
    space.drop_handle(kept);
    assert_eq!(check_links(&space), 2);
    assert_eq!(drops.get(), 4);
    assert_eq!(space.collect_cycles(), 2);
    assert_eq!(check_links(&space), 0);
    assert_eq!(drops.get(), 7);
    assert_eq!(space.header_at(7).unwrap().ref_count, 0);
}

/// What giving up handles and one collection leave of a graph, worked out on
/// plain vectors: the number of values that reference counting drops, the
/// number of blocks that the collection reclaims, and for each node whether
/// it is left and how many handles to it are left.
fn expected_outcome(
    is_list: &[bool],
    edges: &[(usize, usize)],
    kept: &[bool],
) -> (usize, usize, Vec<bool>, Vec<usize>) {
    let n = is_list.len();
    let mut out: Vec<Vec<usize>> = vec![Vec::new(); n];
    let mut count = vec![1usize; n];
    for &(from, to) in edges {
        out[from].push(to);
        count[to] += 1;
    }
    let mut alive = vec![true; n];
    for node in 0..n {
        if kept[node] {
            continue;
        }
        let mut pending = vec![node];
        while let Some(target) = pending.pop() {
            count[target] -= 1;
            if count[target] == 0 {
                alive[target] = false;
                pending.extend(out[target].iter().copied());
            }
        }
    }
    let dropped_by_count = alive.iter().filter(|left| !**left).count();

    let mut reached = vec![false; n];
    let mut pending: Vec<usize> = (0..n).filter(|&node| kept[node] && is_list[node]).collect();
    while let Some(node) = pending.pop() {
        if reached[node] {
            continue;
        }
        reached[node] = true;
        for &target in &out[node] {
            if is_list[target] && !reached[target] {
                pending.push(target);
            }
        }
    }
    let garbage: Vec<usize> =
        (0..n).filter(|&node| alive[node] && is_list[node] && !reached[node]).collect();
    for &node in &garbage {
        alive[node] = false;
        count[node] = 0;
    }
    for &node in &garbage {
        for &target in &out[node] {
            if alive[target] {
                count[target] -= 1;
                if count[target] == 0 {
                    alive[target] = false;
                }
            }
        }
    }
    (dropped_by_count, garbage.len(), alive, count)
}

/// Builds a graph of lists and leaves, keeps the handles that `keep` names
/// and gives up the others, collects, and holds the space to the outcome
/// worked out on plain vectors.
fn collection_matches_expected_outcome(links: Vec<(u8, u8)>, keep: u16) -> bool {
    let n = 12;
    let is_list: Vec<bool> = (0..n).map(|node| node % 4 != 3).collect();
    let kept: Vec<bool> = (0..n).map(|node| (keep >> node) & 1 == 1).collect();
    let drops = Rc::new(Cell::new(0));
    let mut space = CcObjectSpace::default();
    let mut handles: Vec<Option<Cc>> = Vec::new();
    for node in 0..n {
        let handle = if is_list[node] {
            list(&mut space, &drops)
        } else {
            leaf(&mut space, node as u32, &drops)
        };
        handles.push(Some(handle));
    }
    let mut edges = Vec::new();
    for (a, b) in links {
        let from = a as usize % n;
        let to = b as usize % n;
        if is_list[from] {
            let (from_handle, to_handle) = (handles[from].as_ref(), handles[to].as_ref());
            link(&mut space, from_handle.unwrap(), to_handle.unwrap());
            edges.push((from, to));
        }
    }
    let (dropped_by_count, collected, alive, count) = expected_outcome(&is_list, &edges, &kept);
    for node in 0..n {
        if !kept[node] {
            space.drop_handle(handles[node].take().unwrap());
        }
    }
    assert_eq!(drops.get(), dropped_by_count);
    assert_eq!(space.collect_cycles(), collected);
    let left = alive.iter().filter(|left| **left).count();
    let lists_left = (0..n).filter(|&node| alive[node] && is_list[node]).count();
    assert_eq!(drops.get(), n - left);
    assert_eq!(space.count_tracked(), lists_left);
    assert_eq!(check_links(&space), lists_left);
    for node in 0..n {
        assert_eq!(space.header_at(node + 1).unwrap().ref_count, count[node]);
        if let Some(handle) = &handles[node] {
            assert!(space.contains(handle));
            assert_eq!(space.ref_count(handle), count[node]);
        }
    }
    assert_eq!(space.collect_cycles(), 0);
    for node in 0..n {
        if let Some(handle) = handles[node].take() {
            space.drop_handle(handle);
        }
    }
    space.collect_cycles();
    assert_eq!(drops.get(), n);
    assert_eq!(check_links(&space), 0);
    true
}

#[test]
fn collection_reclaims_exactly_the_unreachable() {
    assert!(collection_matches_expected_outcome(vec![(0, 1), (1, 0), (1, 3), (2, 7)], 0b100));
    assert!(collection_matches_expected_outcome(vec![(0, 0), (4, 5), (5, 4), (5, 0)], 0));
    quickcheck::quickcheck(collection_matches_expected_outcome as fn(Vec<(u8, u8)>, u16) -> bool);
}
