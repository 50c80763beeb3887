use vstd::prelude::Seq;
use copying_gc::{gc_now, Heap, Root, Runtime, SpacePtr, Traceable};

#[derive(Clone)]
struct ListObj {
    next: Option<SpacePtr>,
    num: i64,
}

// The specification half of the protocol (`refs`, `with_refs`,
// `lemma_with_refs`) is never evaluated at runtime; the stubs below only
// satisfy the trait's item list for this unverified test type.
impl Traceable for ListObj {
    fn refs(&self) -> Seq<Heap> {
        panic!()
    }

    fn with_refs(&self, _rs: Seq<Heap>) -> ListObj {
        panic!()
    }

    fn lemma_with_refs(&self, _rs: Seq<Heap>) {}

    fn duplicate(&self) -> ListObj {
        self.clone()
    }

    fn subfields(&self) -> Vec<Heap> {
        match self.next {
            Some(p) => vec![Heap::new(p)],
            None => vec![],
        }
    }

    fn set_subfields(&mut self, rs: Vec<Heap>) {
        if self.next.is_some() {
            self.next = Some(rs[0].inner());
        }
    }
}

#[test]
fn test_runtime_test_runtime() {
    let mut rt: Runtime<ListObj> = Runtime::new();
    {
        let p = Root::new(&mut rt, ListObj { next: None, num: 99 });
        let ptr = p.to_space_ptr(&rt);
        let p2 = Root::new(&mut rt, ListObj { next: Some(ptr), num: 1 });

        match p2.borrow(&rt).next {
            Some(ref l) => assert_eq!(l.borrow(rt.space()).num, p.borrow(&rt).num),
            None => panic!("None"),
        }

        p2.release(&mut rt);
        p.release(&mut rt);
    }

    gc_now(&mut rt);
    assert_eq!(rt.registry_len(), 0);
}

#[test]
fn collection_frees_room_for_new_allocations() {
    let mut rt: Runtime<i64> = Runtime::new();
    let mut roots = Vec::new();
    for i in 0..1024 {
        roots.push(Root::new(&mut rt, i as i64));
    }
    let keep = roots.pop().unwrap();
    for r in roots {
        r.release(&mut rt);
    }

    let extra = Root::new(&mut rt, 4242);
    assert_eq!(*extra.borrow(&rt), 4242);
    assert_eq!(*keep.borrow(&rt), 1023);
    assert_eq!(rt.registry_len(), 2);

    extra.release(&mut rt);
    keep.release(&mut rt);
    gc_now(&mut rt);
    assert_eq!(rt.registry_len(), 0);
}

#[test]
fn released_record_absent_after_cycle() {
    let mut rt: Runtime<i64> = Runtime::new();
    let a = Root::new(&mut rt, 1);
    let b = Root::new(&mut rt, 2);
    assert_eq!(rt.registry_len(), 2);

    a.release(&mut rt);
    assert_eq!(rt.registry_len(), 2);

    gc_now(&mut rt);
    assert_eq!(rt.registry_len(), 1);
    assert_eq!(*b.borrow(&rt), 2);

    b.release(&mut rt);
    gc_now(&mut rt);
    assert_eq!(rt.registry_len(), 0);
}
