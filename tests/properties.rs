use std::cell::{Cell, RefCell};
use std::rc::Rc;

use lunk::{EventGraph, HistPrim, IntoValue, Link, LinkTrait, List, Prim, ProcessingContext, Value, NULL_ID};

/// A link whose body is a closure over handles.
struct Body<T> {
    outputs: Vec<Value>,
    body: Box<dyn Fn(&mut ProcessingContext<T, Body<T>>)>,
}

impl<T> LinkTrait<T> for Body<T> {
    fn call(&self, pc: &mut ProcessingContext<T, Body<T>>) {
        (self.body)(pc)
    }

    fn next_values(&self) -> Vec<Value> {
        self.outputs.clone()
    }
}

type Pc = ProcessingContext<i32, Body<i32>>;
type Graph = EventGraph<i32, Body<i32>>;

fn body_link(pc: &mut Pc, outputs: Vec<Value>, body: impl Fn(&mut Pc) + 'static) -> Link {
    Link::new(pc, Body { outputs: outputs, body: Box::new(body) })
}

/// `out := input + k`, counting its runs.
fn counted_add(pc: &mut Pc, input: Prim, out: Prim, k: i32, runs: &Rc<Cell<u32>>) -> Link {
    let runs = runs.clone();
    let link = body_link(pc, vec![out.into_value()], move |pc| {
        runs.set(runs.get() + 1);
        let v = *input.borrow(pc) + k;
        out.set(pc, v);
    });
    input.add_next(pc, &link);
    link
}

#[test]
fn each_link_runs_at_most_once_per_event() {
    let mut eg: Graph = EventGraph::new();
    let runs: Vec<Rc<Cell<u32>>> = (0..4).map(|_| Rc::new(Cell::new(0))).collect();
    let mut store = None;
    let r = runs.clone();
    eg.event(|pc| {
        let a = Prim::new(pc, 0);
        let b = Prim::new(pc, 0);
        let c = Prim::new(pc, 0);
        let d = Prim::new(pc, 0);
        let l1 = counted_add(pc, a, b, 1, &r[0]);
        let l2 = counted_add(pc, a, c, 2, &r[1]);
        let r3 = r[2].clone();
        let l3 = body_link(pc, vec![d.into_value()], move |pc| {
            r3.set(r3.get() + 1);
            let v = *b.borrow(pc) + *c.borrow(pc);
            d.set(pc, v);
        });
        b.add_next(pc, &l3);
        c.add_next(pc, &l3);
        store = Some((a, d, vec![l1, l2, l3]));
    });
    let (a, d, _links) = store.unwrap();
    assert_eq!(runs[0].get(), 1);
    assert_eq!(runs[1].get(), 1);
    assert_eq!(runs[2].get(), 1);
    assert_eq!(*d.borrow(eg.pc()), 3);
    eg.event(|pc| {
        a.set(pc, 10);
    });
    assert_eq!(runs[0].get(), 2);
    assert_eq!(runs[1].get(), 2);
    assert_eq!(runs[2].get(), 2);
    assert_eq!(*d.borrow(eg.pc()), 23);
}

#[test]
fn upstream_link_runs_before_downstream_link() {
    let mut eg: Graph = EventGraph::new();
    let order: Rc<RefCell<Vec<&'static str>>> = Rc::new(RefCell::new(vec![]));
    let mut store = None;
    let o1 = order.clone();
    let o2 = order.clone();
    eg.event(|pc| {
        let a = Prim::new(pc, 0);
        let b = Prim::new(pc, 0);
        let c = Prim::new(pc, 0);
        // Created first, so it would run first without the ordering.
        let l_c = body_link(pc, vec![c.into_value()], move |pc| {
            o1.borrow_mut().push("c");
            let v = *a.borrow(pc) - *b.borrow(pc) + 6;
            c.set(pc, v);
        });
        let l_b = body_link(pc, vec![b.into_value()], move |pc| {
            o2.borrow_mut().push("b");
            let v = *a.borrow(pc) + 5;
            b.set(pc, v);
        });
        a.add_next(pc, &l_c);
        b.add_next(pc, &l_c);
        a.add_next(pc, &l_b);
        store = Some((a, c, l_c, l_b));
    });
    let (a, c, _l_c, _l_b) = store.unwrap();
    assert_eq!(*order.borrow(), vec!["b", "c"]);
    order.borrow_mut().clear();
    eg.event(|pc| {
        a.set(pc, 17);
    });
    assert_eq!(*order.borrow(), vec!["b", "c"]);
    assert_eq!(*c.borrow(eg.pc()), 1);
}

#[test]
fn new_link_runs_once_without_input_change() {
    let mut eg: Graph = EventGraph::new();
    let runs = Rc::new(Cell::new(0u32));
    let mut store = None;
    eg.event(|pc| {
        let a = Prim::new(pc, 4);
        let b = Prim::new(pc, 0);
        let link = counted_add(pc, a, b, 1, &runs);
        store = Some((a, b, link));
    });
    let (_a, b, _link) = store.unwrap();
    assert_eq!(runs.get(), 1);
    assert_eq!(*b.borrow(eg.pc()), 5);
    eg.event(|_pc| {});
    assert_eq!(runs.get(), 1);
}

#[test]
fn equal_write_to_hist_prim_is_suppressed() {
    let mut eg: Graph = EventGraph::new();
    let runs = Rc::new(Cell::new(0u32));
    let mut store = None;
    let r = runs.clone();
    eg.event(|pc| {
        let h = HistPrim::new(pc, 7);
        let out = Prim::new(pc, 0);
        let link = body_link(pc, vec![out.into_value()], move |pc| {
            r.set(r.get() + 1);
            let v = h.get(pc);
            out.set(pc, v);
        });
        h.add_next(pc, &link);
        store = Some((h, link));
    });
    let (h, _link) = store.unwrap();
    assert_eq!(runs.get(), 1);
    eg.event(|pc| {
        h.set(pc, 7);
        h.set(pc, 7);
    });
    assert_eq!(runs.get(), 1);
    eg.event(|pc| {
        h.set(pc, 8);
        h.set(pc, 8);
    });
    assert_eq!(runs.get(), 2);
}

#[test]
fn equal_write_to_prim_propagates() {
    let mut eg: Graph = EventGraph::new();
    let runs = Rc::new(Cell::new(0u32));
    let mut store = None;
    eg.event(|pc| {
        let a = Prim::new(pc, 3);
        let b = Prim::new(pc, 0);
        let link = counted_add(pc, a, b, 1, &runs);
        store = Some((a, link));
    });
    let (a, _link) = store.unwrap();
    eg.event(|pc| {
        a.set(pc, 3);
    });
    assert_eq!(runs.get(), 2);
}

#[test]
fn get_old_is_the_first_snapshot_of_the_event() {
    let mut eg: Graph = EventGraph::new();
    let seen: Rc<Cell<(i32, i32)>> = Rc::new(Cell::new((0, 0)));
    let mut store = None;
    let s = seen.clone();
    eg.event(|pc| {
        let h = HistPrim::new(pc, 3);
        let link = body_link(pc, vec![], move |pc| {
            s.set((h.get_old(pc), h.get(pc)));
        });
        h.add_next(pc, &link);
        store = Some((h, link));
    });
    let (h, _link) = store.unwrap();
    eg.event(|pc| {
        h.set(pc, 4);
        h.set(pc, 5);
    });
    assert_eq!(seen.get(), (3, 5));
    assert_eq!(h.get_old(eg.pc()), 5);
    assert_eq!(h.get(eg.pc()), 5);
}

#[test]
fn change_log_replays_to_current_values() {
    let mut eg: Graph = EventGraph::new();
    let replayed: Rc<RefCell<Vec<i32>>> = Rc::new(RefCell::new(vec![]));
    let mut store = None;
    let rp = replayed.clone();
    eg.event(|pc| {
        let a = List::new(pc, vec![1, 2, 3]);
        let link = body_link(pc, vec![], move |pc| {
            let mut s = vec![1, 2, 3];
            for c in a.borrow_changes(pc).iter() {
                s.splice(c.offset..c.offset + c.remove, c.add.iter().cloned());
            }
            assert_eq!(&s, a.borrow_values(pc));
            *rp.borrow_mut() = s;
        });
        a.add_next(pc, &link);
        a.push(pc, 4);
        a.splice(pc, 0, 2, vec![9, 8, 7]);
        a.pop(pc);
        a.truncate(pc, 2);
        store = Some((a, link));
    });
    assert_eq!(*replayed.borrow(), vec![9, 8]);
}

#[test]
fn cycle_runs_each_link_once() {
    let mut eg: Graph = EventGraph::new();
    let runs_ab = Rc::new(Cell::new(0u32));
    let runs_ba = Rc::new(Cell::new(0u32));
    let mut store = None;
    eg.event(|pc| {
        let a = Prim::new(pc, 0);
        let b = Prim::new(pc, 0);
        let ab = counted_add(pc, a, b, 1, &runs_ab);
        let ba = counted_add(pc, b, a, 1, &runs_ba);
        store = Some((a, b, ab, ba));
    });
    let (a, b, _ab, _ba) = store.unwrap();
    let before = (runs_ab.get(), runs_ba.get());
    eg.event(|pc| {
        a.set(pc, 10);
    });
    assert_eq!(runs_ab.get(), before.0 + 1);
    assert_eq!(runs_ba.get(), before.1 + 1);
    assert_eq!(*b.borrow(eg.pc()), 11);
    assert_eq!(*a.borrow(eg.pc()), 12);
}

#[test]
fn event_returns_the_callback_result() {
    let mut eg: Graph = EventGraph::new();
    let r = eg.event(|pc| {
        let a = Prim::new(pc, 2);
        *a.borrow(pc) * 21
    });
    assert_eq!(r, Some(42));
}

#[test]
fn per_event_state_is_cleared_after_event() {
    let mut eg: Graph = EventGraph::new();
    let mut store = None;
    eg.event(|pc| {
        let l = List::new(pc, vec![]);
        let h = HistPrim::new(pc, 1);
        l.extend(pc, vec![1, 2]);
        h.set(pc, 2);
        assert_eq!(l.borrow_changes(pc).len(), 1);
        assert_eq!(h.get_old(pc), 1);
        store = Some((l, h));
    });
    let (l, h) = store.unwrap();
    assert_eq!(l.borrow_changes(eg.pc()).len(), 0);
    assert_eq!(l.borrow_values(eg.pc()).clone(), vec![1, 2]);
    assert_eq!(h.get_old(eg.pc()), 2);
}

#[test]
fn empty_splice_changes_nothing() {
    let mut eg: Graph = EventGraph::new();
    let runs = Rc::new(Cell::new(0u32));
    let mut store = None;
    let r = runs.clone();
    eg.event(|pc| {
        let l = List::new(pc, vec![5]);
        let link = body_link(pc, vec![], move |_pc| {
            r.set(r.get() + 1);
        });
        l.add_next(pc, &link);
        store = Some((l, link));
    });
    let (l, _link) = store.unwrap();
    assert_eq!(runs.get(), 1);
    eg.event(|pc| {
        let removed = l.splice(pc, 1, 0, vec![]);
        assert!(removed.is_empty());
        assert_eq!(l.borrow_changes(pc).len(), 0);
        l.extend(pc, vec![]);
        l.truncate(pc, 3);
    });
    assert_eq!(runs.get(), 1);
}

#[test]
fn list_operations_are_splices() {
    let mut eg: Graph = EventGraph::new();
    eg.event(|pc| {
        let l = List::new(pc, vec![1, 2, 3]);
        assert_eq!(l.splice(pc, 1, 1, vec![7, 8]), vec![2]);
        assert_eq!(l.borrow_values(pc).clone(), vec![1, 7, 8, 3]);
        l.push(pc, 4);
        assert_eq!(l.pop(pc), Some(4));
        l.truncate(pc, 2);
        assert_eq!(l.borrow_values(pc).clone(), vec![1, 7]);
        l.extend(pc, vec![5, 6]);
        assert_eq!(l.borrow_values(pc).clone(), vec![1, 7, 5, 6]);
        l.clear(pc);
        assert_eq!(l.borrow_values(pc).len(), 0);
        assert_eq!(l.pop(pc), None);
        let changes: Vec<(usize, usize, Vec<i32>)> =
            l.borrow_changes(pc).iter().map(|c| (c.offset, c.remove, c.add.clone())).collect();
        assert_eq!(changes, vec![
            (1, 1, vec![7, 8]),
            (4, 0, vec![4]),
            (4, 1, vec![]),
            (2, 2, vec![]),
            (2, 0, vec![5, 6]),
            (0, 4, vec![]),
        ]);
    });
}

#[test]
fn pushes_in_a_link_body_are_logged() {
    let mut eg: Graph = EventGraph::new();
    let log: Rc<RefCell<Vec<(usize, usize, Vec<i32>)>>> = Rc::new(RefCell::new(vec![]));
    let mut store = None;
    let lg = log.clone();
    eg.event(|pc| {
        let z = Prim::new(pc, 0);
        let a = List::new(pc, Vec::<i32>::new());
        let fill = body_link(pc, vec![a.into_value()], move |pc| {
            let _ = z;
            while a.borrow_values(pc).len() < 3 {
                a.push(pc, 14);
            }
        });
        z.add_next(pc, &fill);
        let watch = body_link(pc, vec![], move |pc| {
            *lg.borrow_mut() = a.borrow_changes(pc).iter().map(|c| (c.offset, c.remove, c.add.clone())).collect();
        });
        a.add_next(pc, &watch);
        store = Some((a, fill, watch));
    });
    let (a, _fill, _watch) = store.unwrap();
    assert_eq!(a.borrow_values(eg.pc()).clone(), vec![14, 14, 14]);
    assert_eq!(*log.borrow(), vec![(0, 0, vec![14]), (1, 0, vec![14]), (2, 0, vec![14])]);
}

#[test]
fn dropped_link_no_longer_runs() {
    let mut eg: Graph = EventGraph::new();
    let runs = Rc::new(Cell::new(0u32));
    let mut store = None;
    eg.event(|pc| {
        let a = Prim::new(pc, 0);
        let b = Prim::new(pc, 0);
        let link = counted_add(pc, a, b, 1, &runs);
        store = Some((a, b, link));
    });
    let (a, b, link) = store.unwrap();
    let copy = link.clone();
    drop(link);
    eg.event(|pc| {
        a.set(pc, 5);
    });
    assert_eq!(runs.get(), 2);
    assert_eq!(*b.borrow(eg.pc()), 6);
    drop(copy);
    eg.event(|pc| {
        a.set(pc, 9);
    });
    assert_eq!(runs.get(), 2);
    assert_eq!(*b.borrow(eg.pc()), 6);
}

#[test]
fn ids_are_issued_in_order_from_one() {
    let mut eg: Graph = EventGraph::new();
    eg.event(|pc| {
        let a = Prim::new(pc, 0);
        let l = List::new(pc, vec![]);
        let link = body_link(pc, vec![], |_pc| {});
        let h = HistPrim::new(pc, 0);
        assert_ne!(a.id(), NULL_ID);
        assert_eq!(a.id(), 1);
        assert_eq!(l.id(), 2);
        assert_eq!(link.id(), 3);
        assert_eq!(h.id(), 4);
        assert_eq!(a.weak().id(), 1);
    });
}

#[test]
fn weak_handles_upgrade_only_to_their_own_kind() {
    let mut eg: Graph = EventGraph::new();
    let mut other: Graph = EventGraph::new();
    let mut weak = None;
    eg.event(|pc| {
        let a = Prim::new(pc, 0);
        assert!(a.weak().upgrade(pc).is_some());
        weak = Some(a.weak());
    });
    other.event(|pc| {
        let _l = List::new(pc, vec![]);
        assert!(weak.unwrap().upgrade(pc).is_none());
    });
}

#[test]
fn linear_chain_over_two_events() {
    let mut eg: Graph = EventGraph::new();
    let runs = Rc::new(Cell::new(0u32));
    let mut store = None;
    eg.event(|pc| {
        let a = Prim::new(pc, 0);
        let b = Prim::new(pc, 0);
        let link = counted_add(pc, a, b, 5, &runs);
        a.set(pc, 46);
        store = Some((a, b, link));
    });
    let (a, b, _link) = store.unwrap();
    assert_eq!(*b.borrow(eg.pc()), 51);
    eg.event(|pc| {
        a.set(pc, 13);
    });
    assert_eq!(*b.borrow(eg.pc()), 18);
    assert_eq!(runs.get(), 2);
}

#[test]
fn diamond_values() {
    let mut eg: Graph = EventGraph::new();
    let mut store = None;
    eg.event(|pc| {
        let a = Prim::new(pc, 0);
        let b = Prim::new(pc, 0);
        let c = Prim::new(pc, 0);
        let d = Prim::new(pc, 0);
        let e = Prim::new(pc, 0);
        let l1 = counted_add(pc, a, c, 5, &Rc::new(Cell::new(0)));
        let l2 = counted_add(pc, b, d, 6, &Rc::new(Cell::new(0)));
        let l3 = body_link(pc, vec![e.into_value()], move |pc| {
            let v = *c.borrow(pc) + 2 * *d.borrow(pc) + 10;
            e.set(pc, v);
        });
        c.add_next(pc, &l3);
        d.add_next(pc, &l3);
        store = Some((a, b, c, d, e, vec![l1, l2, l3]));
    });
    let (a, b, c, d, e, _links) = store.unwrap();
    eg.event(|pc| {
        a.set(pc, 17);
    });
    assert_eq!(*c.borrow(eg.pc()), 22);
    assert_eq!(*d.borrow(eg.pc()), 6);
    assert_eq!(*e.borrow(eg.pc()), 44);
    eg.event(|pc| {
        a.set(pc, 17);
        b.set(pc, 1);
    });
    assert_eq!(*e.borrow(eg.pc()), 46);
}
