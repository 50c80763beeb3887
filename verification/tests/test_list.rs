use vstd::prelude::Seq;
use copying_gc::{gc_now, mark_subfields, Heap, Root, Runtime, Space, Traceable};

#[derive(Clone)]
struct ListObj {
    next: Option<Heap>,
    num: i64,
}

// The specification half of the protocol (`refs`, `with_refs`,
// `lemma_with_refs`) is never evaluated at runtime; the stubs below only
// satisfy the trait's item list for this unverified test type.
impl Traceable for ListObj {
    fn refs(&self) -> Seq<Heap> {
        panic!()
    }

    fn with_refs(&self, _rs: Seq<Heap>) -> ListObj {
        panic!()
    }

    fn lemma_with_refs(&self, _rs: Seq<Heap>) {}

    fn duplicate(&self) -> ListObj {
        self.clone()
    }

    fn subfields(&self) -> Vec<Heap> {
        match self.next {
            Some(h) => vec![h],
            None => vec![],
        }
    }

    fn set_subfields(&mut self, rs: Vec<Heap>) {
        if self.next.is_some() {
            self.next = Some(rs[0]);
        }
    }
}

#[test]
fn test_list_test_runtime() {
    let mut rt: Runtime<ListObj> = Runtime::new();
    {
        let p = Root::new(&mut rt, ListObj { next: None, num: 99 });
        let heap = p.to_heap(&rt);
        let p2 = Root::new(&mut rt, ListObj { next: Some(heap), num: 1 });

        match p2.borrow(&rt).next {
            Some(ref l) => assert_eq!(l.borrow(rt.space()).num, p.borrow(&rt).num),
            None => panic!("None"),
        }

        p2.release(&mut rt);
        p.release(&mut rt);
    }

    gc_now(&mut rt);
    assert_eq!(rt.registry_len(), 0);
}

#[test]
fn cross_reference_survives_collection() {
    let mut rt: Runtime<ListObj> = Runtime::new();

    let filler = Root::new(&mut rt, ListObj { next: None, num: 7 });
    filler.release(&mut rt);

    let a = Root::new(&mut rt, ListObj { next: None, num: 99 });
    let heap_a = a.to_heap(&rt);
    let b = Root::new(&mut rt, ListObj { next: Some(heap_a), num: 1 });
    assert_eq!(rt.registry_len(), 3);

    gc_now(&mut rt);
    assert_eq!(rt.registry_len(), 2);

    match b.borrow(&rt).next {
        Some(l) => assert_eq!(l.borrow(rt.space()).num, a.borrow(&rt).num),
        None => panic!("None"),
    }
    assert_eq!(a.borrow(&rt).num, 99);
    assert_eq!(b.borrow(&rt).num, 1);

    a.release(&mut rt);
    gc_now(&mut rt);
    assert_eq!(rt.registry_len(), 1);
    assert_eq!(b.borrow(&rt).num, 1);

    b.release(&mut rt);
    gc_now(&mut rt);
    assert_eq!(rt.registry_len(), 0);
}

#[test]
fn marking_subfields_marks_referenced_slots() {
    let mut space: Space<ListObj> = Space::new(8);
    let pa = space.allocate(ListObj { next: None, num: 5 }).unwrap();
    let pb = space.allocate(ListObj { next: None, num: 6 }).unwrap();
    let c = ListObj { next: Some(Heap::new(pa)), num: 7 };

    assert!(!space.marked(&pa));
    mark_subfields(&mut space, &c);
    assert!(space.marked(&pa));
    assert!(!space.marked(&pb));
}
