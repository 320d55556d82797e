//! Scalar values: history-less (`Prim`) and history-aware (`HistPrim`).
use vstd::prelude::*;
use vstd::std_specs::cmp::PartialEqSpec;
use crate::graph::{is_live_selection, Id, NULL_ID, IntoValue, Link, ProcessingContext, Value, ValueState};

verus! {

/// State of a history-less scalar: its payload, and whether it is still
/// unchanged in the current event.
pub struct PrimMut_<T> {
    pub value: T,
    pub first_change: bool,
}

impl<T> PrimMut_<T> {
    pub fn get(&self) -> (r: &T)
        ensures
            *r == self.value,
    {
        &self.value
    }
}

/// State of a history-aware scalar: its payload, and the payload it had
/// before its first change in the current event.
pub struct HistPrimMut_<T> {
    pub value: T,
    pub previous_value: Option<T>,
}

impl<T> HistPrimMut_<T> {
    pub fn get(&self) -> (r: &T)
        ensures
            *r == self.value,
    {
        &self.value
    }
}


/// A history-less scalar value: every write propagates, equal or not.
#[derive(Clone, Copy)]
pub struct Prim {
    id: Id,
    index: usize,
}

/// A weak handle to a `Prim`.
#[derive(Clone, Copy)]
pub struct WeakPrim {
    id: Id,
    index: usize,
}

impl Prim {
    pub closed spec fn spec_id(&self) -> Id {
        self.id
    }

    pub closed spec fn spec_index(&self) -> usize {
        self.index
    }

    /// This handle names a history-less scalar of `pc`.
    pub open spec fn valid_in<T, L>(&self, pc: &ProcessingContext<T, L>) -> bool {
        &&& pc.valid_value(self.spec_index() as int)
        &&& pc.value_id(self.spec_index() as int) == self.spec_id()
        &&& pc.state(self.spec_index() as int) is Prim
    }

    /// The current payload.
    pub open spec fn value_in<T, L>(&self, pc: &ProcessingContext<T, L>) -> T {
        pc.state(self.spec_index() as int)->Prim_0.value
    }

    /// Creates a scalar holding `initial`.
    pub fn new<T, L>(pc: &mut ProcessingContext<T, L>, initial: T) -> (r: Prim)
        requires
            old(pc).wf(),
            old(pc).id_room(),
        ensures
            final(pc).wf(),
            old(pc).grows_to(final(pc)),
            r.valid_in(final(pc)),
            r.spec_id() == old(pc).next_id(),
            r.spec_id() != NULL_ID,
            final(pc).next_id() == old(pc).next_id() + 1,
            r.spec_index() == old(pc).value_count(),
            r.value_in(final(pc)) == initial,
            final(pc).downstream(r.spec_index() as int) == Seq::<usize>::empty(),
            final(pc).value_count() == old(pc).value_count() + 1,
            final(pc).link_count() == old(pc).link_count(),
            old(pc).keeps_values(final(pc), -1),
            old(pc).same_schedule(final(pc)),
    {
        let (index, id) = pc.add_value(ValueState::Prim(PrimMut_ { value: initial, first_change: true }));
        Prim { id: id, index: index }
    }

    pub fn id(&self) -> (r: Id)
        ensures
            r == self.spec_id(),
    {
        self.id
    }

    /// Registers `link` downstream of this value: a change of the value
    /// schedules the link.
    pub fn add_next<T, L>(&self, pc: &mut ProcessingContext<T, L>, link: &Link)
        requires
            old(pc).wf(),
            self.valid_in(old(pc)),
            old(pc).valid_link(link.spec_index() as int),
        ensures
            final(pc).wf(),
            old(pc).grows_to(final(pc)),
            final(pc).downstream(self.spec_index() as int) == old(pc).downstream(self.spec_index() as int).push(
                link.spec_index(),
            ),
            final(pc).state(self.spec_index() as int) == old(pc).state(self.spec_index() as int),
            old(pc).keeps_values(final(pc), self.spec_index() as int),
            old(pc).same_schedule(final(pc)),
    {
        pc.add_downstream(self.index, link.index());
    }

    pub fn weak(&self) -> (r: WeakPrim)
        ensures
            r.spec_id() == self.spec_id(),
            r.spec_index() == self.spec_index(),
    {
        WeakPrim { id: self.id, index: self.index }
    }

    /// Writes `value`. The first write of an event enrols the value for
    /// cleanup and schedules its downstream links.
    pub fn set<T, L>(&self, pc: &mut ProcessingContext<T, L>, value: T)
        requires
            old(pc).wf(),
            self.valid_in(old(pc)),
        ensures
            final(pc).wf(),
            old(pc).grows_to(final(pc)),
            self.valid_in(final(pc)),
            self.value_in(final(pc)) == value,
            final(pc).state(self.spec_index() as int).is_dirty(),
            old(pc).keeps_values(final(pc), self.spec_index() as int),
            final(pc).value_count() == old(pc).value_count(),
            final(pc).link_count() == old(pc).link_count(),
            !old(pc).state(self.spec_index() as int).is_dirty() ==> {
                &&& is_live_selection(final(pc).downstream(self.spec_index() as int), old(pc).downstream(self.spec_index() as int))
                &&& final(pc).seeds() == old(pc).seeds() + final(pc).downstream(self.spec_index() as int)
                &&& final(pc).touched() == old(pc).touched().push(self.spec_index())
            },
            old(pc).state(self.spec_index() as int).is_dirty() ==> {
                &&& final(pc).downstream(self.spec_index() as int) == old(pc).downstream(self.spec_index() as int)
                &&& old(pc).same_schedule(final(pc))
            },
    {
        pc.set_prim(self.index, value);
        proof {
            old(pc).lemma_grows_to(pc);
        }
    }

    /// The current payload.
    pub fn borrow<'a, T, L>(&self, pc: &'a ProcessingContext<T, L>) -> (r: &'a T)
        requires
            self.valid_in(pc),
        ensures
            *r == self.value_in(pc),
    {
        match pc.state_ref(self.index) {
            ValueState::Prim(p) => p.get(),
            _ => vstd::pervasive::unreached(),
        }
    }
}

impl IntoValue for Prim {
    fn into_value(&self) -> Value {
        Value::of(self.id, self.index)
    }
}

impl WeakPrim {
    pub closed spec fn spec_id(&self) -> Id {
        self.id
    }

    pub closed spec fn spec_index(&self) -> usize {
        self.index
    }

    /// The strong handle, if this handle names a history-less scalar of
    /// `pc`.
    pub fn upgrade<T, L>(&self, pc: &ProcessingContext<T, L>) -> (r: Option<Prim>)
        ensures
            r is Some <==> {
                &&& pc.valid_value(self.spec_index() as int)
                &&& pc.value_id(self.spec_index() as int) == self.spec_id()
                &&& pc.state(self.spec_index() as int) is Prim
            },
            r matches Some(p) ==> p.spec_id() == self.spec_id() && p.spec_index() == self.spec_index()
                && p.valid_in(pc),
    {
        if self.index < pc.value_total() && pc.id_of_value(self.index) == self.id {
            match pc.state_ref(self.index) {
                ValueState::Prim(_) => Some(Prim { id: self.id, index: self.index }),
                _ => None,
            }
        } else {
            None
        }
    }

    /// The id of the value this handle names.
    pub fn id(&self) -> (r: Id)
        ensures
            r == self.spec_id(),
    {
        self.id
    }
}


/// A history-aware scalar value: a write of a payload equal to the current
/// one is ignored, and the payload from before the event's first write
/// stays readable until the event ends.
#[derive(Clone, Copy)]
pub struct HistPrim {
    id: Id,
    index: usize,
}

/// A weak handle to a `HistPrim`.
#[derive(Clone, Copy)]
pub struct WeakHistPrim {
    id: Id,
    index: usize,
}

impl HistPrim {
    pub closed spec fn spec_id(&self) -> Id {
        self.id
    }

    pub closed spec fn spec_index(&self) -> usize {
        self.index
    }

    /// This handle names a history-aware scalar of `pc`.
    pub open spec fn valid_in<T, L>(&self, pc: &ProcessingContext<T, L>) -> bool {
        &&& pc.valid_value(self.spec_index() as int)
        &&& pc.value_id(self.spec_index() as int) == self.spec_id()
        &&& pc.state(self.spec_index() as int) is Hist
    }

    /// The current payload.
    pub open spec fn value_in<T, L>(&self, pc: &ProcessingContext<T, L>) -> T {
        pc.state(self.spec_index() as int)->Hist_0.value
    }

    /// The payload from before the first write of the current event, if it
    /// was written.
    pub open spec fn previous_in<T, L>(&self, pc: &ProcessingContext<T, L>) -> Option<T> {
        pc.state(self.spec_index() as int)->Hist_0.previous_value
    }

    /// `next` is what `set(value)` makes of `prev`: nothing changes if
    /// `value` equals the current payload; otherwise `value` is the payload,
    /// the snapshot is the one from before the event's first change, and the
    /// write has its effect on the schedule.
    pub open spec fn set_outcome<T: PartialEq, L>(
        &self,
        prev: &ProcessingContext<T, L>,
        next: &ProcessingContext<T, L>,
        value: T,
    ) -> bool {
        &&& T::obeys_eq_spec() && self.value_in(prev).eq_spec(&value) ==> *next == *prev
        &&& T::obeys_eq_spec() && !self.value_in(prev).eq_spec(&value) ==> self.written(prev, next, value)
        &&& *next == *prev || self.written(prev, next, value)
    }

    /// `next` is `prev` after a write of `value` that was not suppressed:
    /// `value` is the payload, the snapshot is the one from before the
    /// event's first change, and the write has its effect on the schedule.
    pub open spec fn written<T, L>(&self, prev: &ProcessingContext<T, L>, next: &ProcessingContext<T, L>, value: T) -> bool {
        &&& self.value_in(next) == value
        &&& self.previous_in(next) == (if self.previous_in(prev) is Some {
            self.previous_in(prev)
        } else {
            Some(self.value_in(prev))
        })
        &&& prev.write_effect(next, self.spec_index() as int, self.previous_in(prev) is None)
    }

    /// Creates a scalar holding `initial`.
    pub fn new<T, L>(pc: &mut ProcessingContext<T, L>, initial: T) -> (r: HistPrim)
        requires
            old(pc).wf(),
            old(pc).id_room(),
        ensures
            final(pc).wf(),
            old(pc).grows_to(final(pc)),
            r.valid_in(final(pc)),
            r.spec_id() == old(pc).next_id(),
            r.spec_id() != NULL_ID,
            final(pc).next_id() == old(pc).next_id() + 1,
            r.spec_index() == old(pc).value_count(),
            r.value_in(final(pc)) == initial,
            r.previous_in(final(pc)) is None,
            final(pc).downstream(r.spec_index() as int) == Seq::<usize>::empty(),
            final(pc).value_count() == old(pc).value_count() + 1,
            final(pc).link_count() == old(pc).link_count(),
            old(pc).keeps_values(final(pc), -1),
            old(pc).same_schedule(final(pc)),
    {
        let (index, id) = pc.add_value(ValueState::Hist(HistPrimMut_ { value: initial, previous_value: None }));
        HistPrim { id: id, index: index }
    }

    pub fn id(&self) -> (r: Id)
        ensures
            r == self.spec_id(),
    {
        self.id
    }

    /// Registers `link` downstream of this value: a change of the value
    /// schedules the link.
    pub fn add_next<T, L>(&self, pc: &mut ProcessingContext<T, L>, link: &Link)
        requires
            old(pc).wf(),
            self.valid_in(old(pc)),
            old(pc).valid_link(link.spec_index() as int),
        ensures
            final(pc).wf(),
            old(pc).grows_to(final(pc)),
            final(pc).downstream(self.spec_index() as int) == old(pc).downstream(self.spec_index() as int).push(
                link.spec_index(),
            ),
            final(pc).state(self.spec_index() as int) == old(pc).state(self.spec_index() as int),
            old(pc).keeps_values(final(pc), self.spec_index() as int),
            old(pc).same_schedule(final(pc)),
    {
        pc.add_downstream(self.index, link.index());
    }

    pub fn weak(&self) -> (r: WeakHistPrim)
        ensures
            r.spec_id() == self.spec_id(),
            r.spec_index() == self.spec_index(),
    {
        WeakHistPrim { id: self.id, index: self.index }
    }

    /// The current payload.
    pub fn borrow<'a, T, L>(&self, pc: &'a ProcessingContext<T, L>) -> (r: &'a T)
        requires
            self.valid_in(pc),
        ensures
            *r == self.value_in(pc),
    {
        match pc.state_ref(self.index) {
            ValueState::Hist(h) => h.get(),
            _ => vstd::pervasive::unreached(),
        }
    }

    /// A copy of the current payload.
    pub fn get<T: Copy, L>(&self, pc: &ProcessingContext<T, L>) -> (r: T)
        requires
            self.valid_in(pc),
        ensures
            r == self.value_in(pc),
    {
        *self.borrow(pc)
    }

    /// The payload from before the first write of the current event, or the
    /// current payload if there was none.
    pub fn get_old<T: Copy, L>(&self, pc: &ProcessingContext<T, L>) -> (r: T)
        requires
            self.valid_in(pc),
        ensures
            r == match self.previous_in(pc) {
                Some(p) => p,
                None => self.value_in(pc),
            },
    {
        match pc.state_ref(self.index) {
            ValueState::Hist(h) => match &h.previous_value {
                Some(p) => *p,
                None => h.value,
            },
            _ => vstd::pervasive::unreached(),
        }
    }
}

impl HistPrim {
    /// Writes `value` unless it equals the current payload. The first
    /// change of an event keeps the previous payload, enrols the value for
    /// cleanup and schedules its downstream links.
    pub fn set<T: PartialEq, L>(&self, pc: &mut ProcessingContext<T, L>, value: T)
        requires
            old(pc).wf(),
            self.valid_in(old(pc)),
        ensures
            final(pc).wf(),
            old(pc).grows_to(final(pc)),
            self.valid_in(final(pc)),
            self.set_outcome(old(pc), final(pc), value),
    {
        pc.set_hist(self.index, value);
        proof {
            old(pc).lemma_grows_to(pc);
        }
    }
}

impl IntoValue for HistPrim {
    fn into_value(&self) -> Value {
        Value::of(self.id, self.index)
    }
}

impl WeakHistPrim {
    pub closed spec fn spec_id(&self) -> Id {
        self.id
    }

    pub closed spec fn spec_index(&self) -> usize {
        self.index
    }

    /// The strong handle, if this handle names a history-aware scalar of
    /// `pc`.
    pub fn upgrade<T, L>(&self, pc: &ProcessingContext<T, L>) -> (r: Option<HistPrim>)
        ensures
            r is Some <==> {
                &&& pc.valid_value(self.spec_index() as int)
                &&& pc.value_id(self.spec_index() as int) == self.spec_id()
                &&& pc.state(self.spec_index() as int) is Hist
            },
            r matches Some(p) ==> p.spec_id() == self.spec_id() && p.spec_index() == self.spec_index()
                && p.valid_in(pc),
    {
        if self.index < pc.value_total() && pc.id_of_value(self.index) == self.id {
            match pc.state_ref(self.index) {
                ValueState::Hist(_) => Some(HistPrim { id: self.id, index: self.index }),
                _ => None,
            }
        } else {
            None
        }
    }

    /// The id of the value this handle names.
    pub fn id(&self) -> (r: Id)
        ensures
            r == self.spec_id(),
    {
        self.id
    }
}


/// Writing a history-aware scalar twice with the same payload: the second
/// write changes nothing, so it schedules no link.
pub proof fn lemma_equal_write_suppressed<T: PartialEq, L>(
    h: HistPrim,
    p0: ProcessingContext<T, L>,
    p1: ProcessingContext<T, L>,
    p2: ProcessingContext<T, L>,
    x: T,
)
    requires
        T::obeys_eq_spec(),
        x.eq_spec(&x),
        h.set_outcome(&p0, &p1, x),
        h.set_outcome(&p1, &p2, x),
    ensures
        p2 == p1,
        p2.seeds() == p1.seeds(),
{
    if !h.value_in(&p0).eq_spec(&x) {
        assert(h.value_in(&p1) == x);
    }
}

} // verus!
