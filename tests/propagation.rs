use std::cell::RefCell;
use std::rc::Rc;

use lunk::{EventGraph, IntoValue, Link, LinkTrait, List, Prim, ProcessingContext, Value, WeakPrim};

/// A link whose body is a closure over handles.
struct FnLink<T> {
    outputs: Vec<Value>,
    body: Box<dyn Fn(&mut ProcessingContext<T, FnLink<T>>)>,
}

impl<T> LinkTrait<T> for FnLink<T> {
    fn call(&self, pc: &mut ProcessingContext<T, FnLink<T>>) {
        (self.body)(pc)
    }

    fn next_values(&self) -> Vec<Value> {
        self.outputs.clone()
    }
}

type Pc<T> = ProcessingContext<T, FnLink<T>>;

fn make_link<T>(pc: &mut Pc<T>, outputs: Vec<Value>, body: impl Fn(&mut Pc<T>) + 'static) -> Link {
    Link::new(pc, FnLink { outputs: outputs, body: Box::new(body) })
}

/// `out := f(input)`, registered downstream of `input`.
fn map_link(pc: &mut Pc<i32>, input: Prim, out: Prim, f: fn(i32) -> i32) -> Link {
    let link = make_link(pc, vec![out.into_value()], move |pc| {
        let v = f(*input.borrow(pc));
        out.set(pc, v);
    });
    input.add_next(pc, &link);
    link
}

struct LinkAB {
    a: WeakPrim,
    value: Prim,
}

impl LinkTrait<i32> for LinkAB {
    fn call(&self, pc: &mut ProcessingContext<i32, LinkAB>) {
        let Some(a) = self.a.upgrade(pc) else {
            return;
        };
        let v = *a.borrow(pc) + 5;
        self.value.set(pc, v);
    }

    fn next_values(&self) -> Vec<Value> {
        vec![self.value.into_value()]
    }
}

#[test]
fn basic0() {
    let mut eg: EventGraph<i32, LinkAB> = EventGraph::new();
    let mut store_b = None;
    let mut store_link = None;
    eg.event(|pc| {
        let a = Prim::new(pc, 0);
        let b = Prim::new(pc, 0);
        let link = Link::new(pc, LinkAB { a: a.weak(), value: b });
        a.set(pc, 46);
        store_b = Some(b);
        store_link = Some(link);
    });
    assert_eq!(*store_b.unwrap().borrow(eg.pc()), 51);
}

fn float_plus_five(pc: &mut Pc<f32>, input: Prim, output: Prim) -> Link {
    let link = make_link(pc, vec![output.into_value()], move |pc| {
        let v = *input.borrow(pc) + 5.;
        output.set(pc, v);
    });
    input.add_next(pc, &link);
    link
}

#[test]
fn init_prim_link_prim() {
    let mut eg: EventGraph<f32, FnLink<f32>> = EventGraph::new();
    let mut store = None;
    eg.event(|pc| {
        let input = Prim::new(pc, 0.);
        let output = Prim::new(pc, 0.);
        let link = float_plus_five(pc, input, output);
        store = Some((input, output, link));
    });
    let (_, output, _link) = store.unwrap();
    assert_eq!(*output.borrow(eg.pc()), 5.);
}

#[test]
fn second_prim_link_prim() {
    let mut eg: EventGraph<f32, FnLink<f32>> = EventGraph::new();
    let mut store = None;
    eg.event(|pc| {
        let input = Prim::new(pc, 0.);
        let output = Prim::new(pc, 0.);
        let link = float_plus_five(pc, input, output);
        store = Some((input, output, link));
    });
    let (input, output, _link) = store.unwrap();
    eg.event(|pc| {
        input.set(pc, 17.);
    });
    assert_eq!(*output.borrow(eg.pc()), 22.);
}

#[test]
fn second_prim_link_prim_set_twice() {
    let mut eg: EventGraph<f32, FnLink<f32>> = EventGraph::new();
    let mut store = None;
    eg.event(|pc| {
        let input = Prim::new(pc, 0.);
        let output = Prim::new(pc, 0.);
        let link = float_plus_five(pc, input, output);
        store = Some((input, output, link));
    });
    let (input, output, _link) = store.unwrap();
    eg.event(|pc| {
        input.set(pc, 17.);
    });
    assert_eq!(*output.borrow(eg.pc()), 22.);
    eg.event(|pc| {
        input.set(pc, 3.);
    });
    assert_eq!(*output.borrow(eg.pc()), 8.);
}

#[test]
fn second_prim_link_prim_link_prim() {
    let mut eg: EventGraph<i32, FnLink<i32>> = EventGraph::new();
    let mut store = None;
    eg.event(|pc| {
        let a = Prim::new(pc, 0);
        let b = Prim::new(pc, 0);
        let c = Prim::new(pc, 0);
        let link_ab = map_link(pc, a, b, |x| x + 5);
        let link_bc = map_link(pc, b, c, |x| x + 6);
        store = Some((a, c, link_ab, link_bc));
    });
    let (a, c, _ab, _bc) = store.unwrap();
    eg.event(|pc| {
        a.set(pc, 17);
    });
    assert_eq!(*c.borrow(eg.pc()), 28);
}

#[test]
fn second_prim_link_prim_link_prim_skiplevel() {
    let mut eg: EventGraph<i32, FnLink<i32>> = EventGraph::new();
    let mut store = None;
    eg.event(|pc| {
        let a = Prim::new(pc, 0);
        let b = Prim::new(pc, 0);
        let c = Prim::new(pc, 0);
        let link_ab = map_link(pc, a, b, |x| x + 5);
        let link_abc = make_link(pc, vec![c.into_value()], move |pc| {
            let v = *a.borrow(pc) - *b.borrow(pc) + 6;
            c.set(pc, v);
        });
        a.add_next(pc, &link_abc);
        b.add_next(pc, &link_abc);
        store = Some((a, c, link_ab, link_abc));
    });
    let (a, c, _ab, _abc) = store.unwrap();
    eg.event(|pc| {
        a.set(pc, 17);
    });
    assert_eq!(*c.borrow(eg.pc()), 1);
}

#[test]
fn second_2prim_link_prim() {
    let mut eg: EventGraph<i32, FnLink<i32>> = EventGraph::new();
    let mut store = None;
    eg.event(|pc| {
        let a = Prim::new(pc, 0);
        let b = Prim::new(pc, 0);
        let c = Prim::new(pc, 0);
        let link = make_link(pc, vec![c.into_value()], move |pc| {
            let v = *a.borrow(pc) + *b.borrow(pc) * 2 + 3;
            c.set(pc, v);
        });
        a.add_next(pc, &link);
        b.add_next(pc, &link);
        store = Some((b, c, link));
    });
    let (b, c, _link) = store.unwrap();
    eg.event(|pc| {
        b.set(pc, 17);
    });
    assert_eq!(*c.borrow(eg.pc()), 37);
}

/// Links `c := a + 5`, `d := b + 6`, `e := c + 2·d + 10`.
fn diamond(pc: &mut Pc<i32>) -> (Prim, Prim, Prim, Vec<Link>) {
    let a = Prim::new(pc, 0);
    let b = Prim::new(pc, 0);
    let c = Prim::new(pc, 0);
    let d = Prim::new(pc, 0);
    let e = Prim::new(pc, 0);
    let link_ac = map_link(pc, a, c, |x| x + 5);
    let link_bd = map_link(pc, b, d, |x| x + 6);
    let link_cde = make_link(pc, vec![e.into_value()], move |pc| {
        let v = *c.borrow(pc) + *d.borrow(pc) * 2 + 10;
        e.set(pc, v);
    });
    c.add_next(pc, &link_cde);
    d.add_next(pc, &link_cde);
    (a, b, e, vec![link_ac, link_bd, link_cde])
}

#[test]
fn second_2prim_2link_2prim_link_prim() {
    let mut eg: EventGraph<i32, FnLink<i32>> = EventGraph::new();
    let mut store = None;
    eg.event(|pc| {
        store = Some(diamond(pc));
    });
    let (a, _b, e, _links) = store.unwrap();
    eg.event(|pc| {
        a.set(pc, 17);
    });
    assert_eq!(*e.borrow(eg.pc()), 44);
}

#[test]
fn second_2prim_2link_2prim_link_prim_trigger_both() {
    let mut eg: EventGraph<i32, FnLink<i32>> = EventGraph::new();
    let mut store = None;
    eg.event(|pc| {
        store = Some(diamond(pc));
    });
    let (a, b, e, _links) = store.unwrap();
    eg.event(|pc| {
        a.set(pc, 17);
        b.set(pc, 1);
    });
    assert_eq!(*e.borrow(eg.pc()), 46);
}

#[test]
fn second_prim_link_prim_newlink_newprim() {
    let mut eg: EventGraph<i32, FnLink<i32>> = EventGraph::new();
    let mut store = None;
    eg.event(|pc| {
        let a = Prim::new(pc, 0);
        let b = Prim::new(pc, 0);
        let link = map_link(pc, a, b, |x| x + 5);
        store = Some((a, b, link));
    });
    let (_a, b, _link) = store.unwrap();
    let mut store2 = None;
    eg.event(|pc| {
        let c = Prim::new(pc, 0);
        let link = map_link(pc, b, c, |x| x + 11);
        store2 = Some((c, link));
    });
    let (c, _link2) = store2.unwrap();
    assert_eq!(*c.borrow(eg.pc()), 16);
}

#[test]
fn second_prim_set_prim_newlink_newprim() {
    let mut eg: EventGraph<i32, FnLink<i32>> = EventGraph::new();
    let mut store = None;
    eg.event(|pc| {
        let a = Prim::new(pc, 0);
        let b = Prim::new(pc, 0);
        let link = map_link(pc, a, b, |x| x + 5);
        store = Some((a, b, link));
    });
    let (a, b, _link) = store.unwrap();
    let mut store2 = None;
    eg.event(|pc| {
        let c = Prim::new(pc, 0);
        let link = map_link(pc, b, c, |x| x + 11);
        a.set(pc, 7);
        store2 = Some((c, link));
    });
    let (c, _link2) = store2.unwrap();
    assert_eq!(*c.borrow(eg.pc()), 23);
}

#[test]
fn second_prim_link_prim_processing_newlink_newprim() {
    let mut eg: EventGraph<i32, FnLink<i32>> = EventGraph::new();
    let store_c: Rc<RefCell<Option<(Prim, Link)>>> = Rc::new(RefCell::new(None));
    let mut store = None;
    let c_store = store_c.clone();
    eg.event(|pc| {
        let a = Prim::new(pc, 0);
        let b = Prim::new(pc, 0);
        let link = make_link(pc, vec![b.into_value()], move |pc| {
            let v = *a.borrow(pc) + 5;
            b.set(pc, v);
            let c = Prim::new(pc, 0);
            let inner = map_link(pc, b, c, |x| x + 12);
            *c_store.borrow_mut() = Some((c, inner));
        });
        a.add_next(pc, &link);
        store = Some((a, b, link));
    });
    let c = store_c.borrow().as_ref().unwrap().0;
    assert_eq!(*c.borrow(eg.pc()), 17);
}

#[test]
fn basic_list_init() {
    let mut eg: EventGraph<i32, FnLink<i32>> = EventGraph::new();
    let mut store = None;
    eg.event(|pc| {
        let z = Prim::new(pc, 0);
        let a = List::new(pc, Vec::<i32>::new());
        let link = make_link(pc, vec![a.into_value()], move |pc| {
            let _ = z;
            while a.borrow_values(pc).len() < 3 {
                a.push(pc, 14);
            }
        });
        z.add_next(pc, &link);
        store = Some((a, z, link));
    });
    let (a, _z, _link) = store.unwrap();
    assert_eq!(a.borrow_values(eg.pc()).clone(), vec![14, 14, 14]);
}

/// A link that copies the changes of `a` into `b`, adding 5 to every added
/// element.
fn copy_changes(pc: &mut Pc<i32>, a: List, b: List) -> Link {
    let link = make_link(pc, vec![b.into_value()], move |pc| {
        let changes: Vec<(usize, usize, Vec<i32>)> = a
            .borrow_changes(pc)
            .iter()
            .map(|c| (c.offset, c.remove, c.add.iter().map(|x| x + 5).collect()))
            .collect();
        for (offset, remove, add) in changes {
            b.splice(pc, offset, remove, add);
        }
    });
    a.add_next(pc, &link);
    link
}

#[test]
fn basic_list() {
    let mut eg: EventGraph<i32, FnLink<i32>> = EventGraph::new();
    let mut store = None;
    eg.event(|pc| {
        let a = List::new(pc, vec![]);
        let b = List::new(pc, vec![]);
        let link = copy_changes(pc, a, b);
        a.splice(pc, 0, 0, vec![46]);
        store = Some((a, b, link));
    });
    let (_a, b, _link) = store.unwrap();
    assert_eq!(b.borrow_values(eg.pc())[0], 51);
}

#[test]
fn basic_list2x() {
    let mut eg: EventGraph<i32, FnLink<i32>> = EventGraph::new();
    let mut store = None;
    eg.event(|pc| {
        let a = List::new(pc, vec![]);
        let b = List::new(pc, vec![]);
        let link = copy_changes(pc, a, b);
        a.splice(pc, 0, 0, vec![46]);
        store = Some((a, b, link));
    });
    let (a, b, _link) = store.unwrap();
    assert_eq!(b.borrow_values(eg.pc())[0], 51);
    eg.event(|pc| {
        a.splice(pc, 0, 1, vec![12]);
    });
    assert_eq!(b.borrow_values(eg.pc())[0], 17);
}
